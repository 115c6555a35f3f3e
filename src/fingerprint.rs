//! Bit-packed fingerprints of binary windows and their rolling update.
use vstd::arithmetic::power2::{lemma2_to64, lemma_pow2_adds, lemma_pow2_pos, lemma_pow2_unfold, pow2};
use vstd::bits::lemma_u32_shl_is_mul;
use vstd::prelude::*;

verus! {

/// The bit a character stands for: `'1'` is a one, anything else a zero.
pub open spec fn bit_of(c: u8) -> bool {
    c == 0x31u8
}

/// The bit sequence that a line of characters stands for.
pub open spec fn bits(s: Seq<u8>) -> Seq<bool> {
    s.map_values(|c: u8| bit_of(c))
}

/// The numeric value of one bit.
pub open spec fn bit_value(b: bool) -> nat {
    if b {
        1
    } else {
        0
    }
}

/// The fingerprint of a bit sequence: bit `j` of the window has weight `2^j`.
pub open spec fn fp(b: Seq<bool>) -> nat
    decreases b.len(),
{
    if b.len() == 0 {
        0
    } else {
        bit_value(b[0]) + 2 * fp(b.drop_first())
    }
}

/// What one rolling step computes from a fingerprint of an `m`-bit window
/// and the incoming character.
pub open spec fn roll_spec(num: nat, m: nat, c: u8) -> nat {
    num / 2 + if bit_of(c) {
        pow2((m - 1) as nat)
    } else {
        0
    }
}

pub proof fn lemma_fp_bound(b: Seq<bool>)
    ensures
        fp(b) < pow2(b.len()),
    decreases b.len(),
{
    if b.len() > 0 {
        lemma_fp_bound(b.drop_first());
        lemma_pow2_unfold(b.len());
    } else {
        lemma_pow2_pos(0);
    }
}

pub proof fn lemma_fp_concat(a: Seq<bool>, b: Seq<bool>)
    ensures
        fp(a + b) == fp(a) + pow2(a.len()) * fp(b),
    decreases a.len(),
{
    if a.len() == 0 {
        assert(a + b =~= b);
        lemma2_to64();
    } else {
        let r = a.drop_first();
        assert((a + b).drop_first() =~= r + b);
        lemma_fp_concat(r, b);
        lemma_pow2_unfold(a.len());
        let p = pow2(r.len());
        assert(2 * (fp(r) + p * fp(b)) == 2 * fp(r) + (2 * p) * fp(b)) by (nonlinear_arith);
    }
}

pub proof fn lemma_fp_push(a: Seq<bool>, x: bool)
    ensures
        fp(a.push(x)) == fp(a) + bit_value(x) * pow2(a.len()),
{
    let s = seq![x];
    assert(a.push(x) =~= a + s);
    lemma_fp_concat(a, s);
    assert(s.drop_first().len() == 0);
    assert(fp(s.drop_first()) == 0);
    assert(fp(s) == bit_value(x));
    vstd::arithmetic::mul::lemma_mul_is_commutative(pow2(a.len()) as int, fp(s) as int);
}

/// Rolling the fingerprint of an `m`-bit window by the next character gives
/// the fingerprint of the window shifted by one, computed directly.
pub proof fn lemma_roll_matches_encode(w: Seq<u8>, c: u8)
    requires
        1 <= w.len() <= 32,
    ensures
        roll_spec(fp(bits(w)), w.len(), c) == fp(bits(w.drop_first().push(c))),
{
    let b = bits(w);
    let r = bits(w.drop_first());
    assert(b.drop_first() =~= r);
    assert(bits(w.drop_first().push(c)) =~= r.push(bit_of(c)));
    lemma_fp_push(r, bit_of(c));
    assert(fp(b) == bit_value(b[0]) + 2 * fp(r));
    assert(fp(b) / 2 == fp(r));
}

/// Two bit windows of one length with the same fingerprint are equal.
pub proof fn lemma_fp_injective(a: Seq<bool>, b: Seq<bool>)
    requires
        a.len() == b.len(),
        fp(a) == fp(b),
    ensures
        a == b,
    decreases a.len(),
{
    if a.len() > 0 {
        assert(fp(a) % 2 == bit_value(a[0]));
        assert(fp(b) % 2 == bit_value(b[0]));
        lemma_fp_injective(a.drop_first(), b.drop_first());
        assert(a =~= seq![a[0]] + a.drop_first());
        assert(b =~= seq![b[0]] + b.drop_first());
    } else {
        assert(a =~= b);
    }
}

/// Two `m`-character binary windows have the same fingerprint exactly when
/// they stand for the same bits.
pub proof fn lemma_fingerprint_injective(a: Seq<u8>, b: Seq<u8>)
    requires
        a.len() == b.len(),
    ensures
        fp(bits(a)) == fp(bits(b)) <==> bits(a) == bits(b),
{
    if fp(bits(a)) == fp(bits(b)) {
        lemma_fp_injective(bits(a), bits(b));
    }
}

/// Packs `len <= 16` characters starting at `start` into a bit mask.
fn pack_block(w: &[u8], start: usize, len: usize) -> (r: u32)
    requires
        len <= 16,
        start + len <= w@.len(),
    ensures
        r as nat == fp(bits(w@.subrange(start as int, start + len))),
        (r as nat) < pow2(len as nat),
{
    let n = w.len();
    let mut acc: u32 = 0;
    let mut j: usize = len;
    proof {
        assert(w@.subrange(start + len, start + len) =~= Seq::<u8>::empty());
        assert(bits(w@.subrange(start + len, start + len)) =~= Seq::<bool>::empty());
        lemma_pow2_pos(0);
    }
    while j > 0
        invariant
            j <= len <= 16,
            start + len <= w@.len() == n,
            acc as nat == fp(bits(w@.subrange(start + j, start + len))),
        decreases j,
    {
        proof {
            lemma_fp_bound(bits(w@.subrange(start + j, start + len)));
            vstd::arithmetic::power2::lemma_pow2_strictly_increases((len - j) as nat, 16);
            lemma2_to64();
        }
        j = j - 1;
        let one: u32 = if w[start + j] == 0x31u8 { 1 } else { 0 };
        proof {
            let s = w@.subrange(start + j, start + len);
            assert(bits(s).drop_first() =~= bits(w@.subrange(start + j + 1, start + len)));
            assert(bits(s)[0] == bit_of(w@[start + j]));
        }
        acc = acc * 2 + one;
    }
    proof {
        lemma_fp_bound(bits(w@.subrange(start as int, start + len)));
    }
    acc
}

/// The fingerprint of the `m`-character window at `start`: one block of up
/// to 16 characters, or a low block of 16 and a high block above it.
pub fn fingerprint(w: &[u8], start: usize, m: usize) -> (r: u32)
    requires
        1 <= m <= 32,
        start + m <= w@.len(),
    ensures
        r as nat == fp(bits(w@.subrange(start as int, start + m))),
{
    let n = w.len();
    if m > 16 {
        let lo = pack_block(w, start, 16);
        let hi = pack_block(w, start + 16, m - 16);
        proof {
            let a = w@.subrange(start as int, start + 16);
            let b = w@.subrange(start + 16, start + m);
            assert(w@.subrange(start as int, start + m) =~= a + b);
            assert(bits(a + b) =~= bits(a) + bits(b));
            lemma_fp_concat(bits(a), bits(b));
            lemma2_to64();
            if m < 32 {
                vstd::arithmetic::power2::lemma_pow2_strictly_increases((m - 16) as nat, 16);
            }
            lemma_u32_shl_is_mul(hi, 16);
        }
        lo + (hi << 16)
    } else {
        pack_block(w, start, m)
    }
}

/// One rolling step: drops the oldest bit and sets bit `m - 1` when the
/// incoming character is a one.
pub fn roll(num: u32, m: usize, c: u8) -> (r: u32)
    requires
        1 <= m <= 32,
        (num as nat) < pow2(m as nat),
    ensures
        r as nat == roll_spec(num as nat, m as nat, c),
{
    let k: u32 = (m - 1) as u32;
    let mut r: u32 = num >> 1;
    proof {
        vstd::bits::lemma_u32_shr_is_div(num, 1);
        lemma2_to64();
    }
    if c == 0x31u8 {
        let top: u32 = 1u32 << k;
        proof {
            vstd::bits::lemma_u32_pow2_no_overflow(k as nat);
            lemma_u32_shl_is_mul(1, k);
            lemma_pow2_unfold(m as nat);
            assert(r < top);
            assert(r | top == r + top) by (bit_vector)
                requires
                    k < 32,
                    top == 1u32 << k,
                    r < top,
            ;
        }
        r = r | top;
    }
    r
}

} // verus!
