//! The output line for one haystack.
use vstd::prelude::*;

verus! {

/// The decimal digits of `n`, most significant first.
pub open spec fn decimal(n: nat) -> Seq<u8>
    decreases n,
{
    if n < 10 {
        seq![(0x30 + n) as u8]
    } else {
        decimal(n / 10).push((0x30 + n % 10) as u8)
    }
}

/// The indices in decimal, separated by single spaces.
pub open spec fn joined(s: Seq<u32>) -> Seq<u8>
    decreases s.len(),
{
    if s.len() == 0 {
        Seq::empty()
    } else if s.len() == 1 {
        decimal(s[0] as nat)
    } else {
        joined(s.drop_last()) + seq![0x20u8] + decimal(s.last() as nat)
    }
}

/// The line for a haystack with the needle indices `s`: `OK` when there is
/// none, else the indices separated by single spaces.
pub open spec fn result_line(s: Seq<u32>) -> Seq<u8> {
    if s.len() == 0 {
        seq![0x4fu8, 0x4bu8]
    } else {
        joined(s)
    }
}

/// Appends the decimal digits of `n`.
fn push_decimal(out: &mut Vec<u8>, n: u32)
    ensures
        final(out)@ == old(out)@ + decimal(n as nat),
    decreases n,
{
    if n >= 10 {
        push_decimal(out, n / 10);
    }
    out.push(0x30u8 + (n % 10) as u8);
    proof {
        if n < 10 {
            assert(decimal(n as nat) == seq![(0x30 + n) as u8]);
        }
    }
    assert(final(out)@ =~= old(out)@ + decimal(n as nat));
}

/// The output line, without its line terminator, for a haystack whose
/// matching needle indices are `hits`.
pub fn format_line(hits: &Vec<u32>) -> (r: Vec<u8>)
    ensures
        r@ == result_line(hits@),
{
    let mut out: Vec<u8> = Vec::new();
    if hits.len() == 0 {
        out.push(0x4fu8);
        out.push(0x4bu8);
        assert(out@ =~= seq![0x4fu8, 0x4bu8]);
        return out;
    }
    let mut i: usize = 0;
    while i < hits.len()
        invariant
            i <= hits@.len(),
            hits@.len() > 0,
            out@ == joined(hits@.subrange(0, i as int)),
        decreases hits@.len() - i,
    {
        let ghost before = out@;
        if i > 0 {
            out.push(0x20u8);
        }
        push_decimal(&mut out, hits[i]);
        proof {
            let s = hits@.subrange(0, i + 1);
            assert(s.drop_last() =~= hits@.subrange(0, i as int));
            if i == 0 {
                assert(hits@.subrange(0, 0) =~= Seq::<u32>::empty());
                assert(out@ =~= decimal(s[0] as nat));
            } else {
                assert(out@ =~= joined(s.drop_last()) + seq![0x20u8] + decimal(s.last() as nat));
            }
        }
        i = i + 1;
    }
    assert(hits@.subrange(0, i as int) =~= hits@);
    out
}

} // verus!
