//! One whole run: the input bytes in, the output lines out.
use crate::emit::{format_line, result_line};
use crate::fingerprint::bits;
use crate::reader::{
    after_line,
    haystack_result,
    header_result,
    needles_result,
    number_result,
    ReadError,
    SequenceReader,
};
use crate::scan::{reported_list, Matcher};
use vstd::prelude::*;

verus! {

/// The bit patterns of needle lines.
pub open spec fn bits_all(raw: Seq<Seq<u8>>) -> Seq<Seq<bool>> {
    Seq::new(raw.len(), |j: int| bits(raw[j]))
}

/// The output line, with its line feed, for haystack `h`.
pub open spec fn output_line(ns: Seq<Seq<bool>>, h: Seq<u8>) -> Seq<u8> {
    result_line(reported_list(ns, bits(h))).push(0x0au8)
}

/// The output for `n` haystacks read from `p` on, and the error that
/// stopped the reading, if one did.
pub open spec fn haystacks_output(s: Seq<u8>, p: int, n: nat, ns: Seq<Seq<bool>>) -> (
    Seq<u8>,
    Option<ReadError>,
)
    decreases n,
{
    if n == 0 {
        (Seq::empty(), None)
    } else {
        match haystack_result(s, p) {
            Err(e) => (Seq::empty(), Some(e)),
            Ok((h, q)) => {
                let rest = haystacks_output(s, q, (n - 1) as nat, ns);
                (output_line(ns, h) + rest.0, rest.1)
            },
        }
    }
}

/// The output of a run on input `s`: a line for each haystack read, and the
/// error that ended the run early, if one did.
pub open spec fn output_of(s: Seq<u8>) -> (Seq<u8>, Option<ReadError>) {
    match header_result(s) {
        Err(e) => (Seq::empty(), Some(e)),
        Ok((k, m)) => match needles_result(s, after_line(s, 0), k, m) {
            Err(e) => (Seq::empty(), Some(e)),
            Ok((raw, after_needles)) => match number_result(s, after_needles) {
                Err(e) => (Seq::empty(), Some(e)),
                Ok((n, first_haystack)) => haystacks_output(s, first_haystack, n, bits_all(raw)),
            },
        },
    }
}

/// The output of a run is a function of its input alone: two runs on the
/// same bytes give the same lines and the same error.
pub proof fn lemma_output_deterministic(a: Seq<u8>, b: Seq<u8>)
    requires
        a == b,
    ensures
        output_of(a) == output_of(b),
{
}

proof fn lemma_needles_shape(s: Seq<u8>, p: int, k: nat, m: nat)
    requires
        needles_result(s, p, k, m) is Ok,
    ensures
        ({
            let ns = needles_result(s, p, k, m)->Ok_0.0;
            &&& ns.len() == k
            &&& forall|j: int| 0 <= j < k ==> (#[trigger] ns[j]).len() == m
        }),
    decreases k,
{
    if k > 0 {
        lemma_needles_shape(s, p, (k - 1) as nat, m);
    }
}

/// Reads the header, the needles and the haystacks from `input`, and gives
/// the output line of each haystack, stopping at the first input error.
pub fn run(input: Vec<u8>) -> (r: (Vec<u8>, Option<ReadError>))
    ensures
        (r.0@, r.1) == output_of(input@),
{
    let ghost s = input@;
    let mut reader = match SequenceReader::new(input) {
        Ok(rd) => rd,
        Err(e) => {
            return (Vec::new(), Some(e));
        },
    };
    let m = reader.get_m();
    let needles = match reader.read_needles() {
        Ok(v) => v,
        Err(e) => {
            return (Vec::new(), Some(e));
        },
    };
    let ghost raw = needles@.map_values(|x: Vec<u8>| x@);
    proof {
        lemma_needles_shape(s, after_line(s, 0), reader.needle_count(), m as nat);
        assert forall|j: int| 0 <= j < needles@.len() implies (#[trigger] needles@[j])@.len() == m by {
            assert(raw[j] == needles@[j]@);
        }
    }
    let mut matcher = Matcher::new(m, &needles);
    let ghost ns = bits_all(raw);
    assert(matcher.needles() =~= ns);
    let n = match reader.read_n() {
        Ok(n) => n,
        Err(e) => {
            return (Vec::new(), Some(e));
        },
    };
    let ghost first_haystack = reader.position();
    let mut out: Vec<u8> = Vec::new();
    let mut i: usize = 0;
    assert(out@ + haystacks_output(s, first_haystack, n as nat, ns).0 =~= haystacks_output(s, first_haystack, n as nat, ns).0);
    while i < n
        invariant
            reader.wf(),
            reader.input() == s,
            s == input@,
            matcher.wf(),
            matcher.needles() == ns,
            i <= n,
            output_of(s) == haystacks_output(s, first_haystack, n as nat, ns),
            haystacks_output(s, first_haystack, n as nat, ns) == (
                out@ + haystacks_output(s, reader.position(), (n - i) as nat, ns).0,
                haystacks_output(s, reader.position(), (n - i) as nat, ns).1,
            ),
        decreases n - i,
    {
        let ghost p = reader.position();
        let h = match reader.next() {
            Ok(h) => h,
            Err(e) => {
                assert(haystacks_output(s, p, (n - i) as nat, ns) == (Seq::<u8>::empty(), Some(e)));
                assert(out@ + Seq::<u8>::empty() =~= out@);
                return (out, Some(e));
            },
        };
        let hits = matcher.scan(h.as_slice());
        let mut line = format_line(&hits);
        line.push(0x0au8);
        let ghost before = out@;
        out.append(&mut line);
        proof {
            let rest = haystacks_output(s, reader.position(), (n - i - 1) as nat, ns);
            assert(haystacks_output(s, p, (n - i) as nat, ns) == (output_line(ns, h@) + rest.0, rest.1));
            assert(before + (output_line(ns, h@) + rest.0) =~= out@ + rest.0);
        }
        i = i + 1;
    }
    assert(out@ + Seq::<u8>::empty() =~= out@);
    (out, None)
}

} // verus!
