//! The batch input format: a header line `K M`, K needle lines, a line with
//! the haystack count N, then for each haystack a length line and the
//! haystack itself. Lines end in `\n`, optionally preceded by `\r`.
use crate::table::MAX_HINT;
use vstd::prelude::*;

verus! {

/// Why the input could not be read.
#[derive(PartialEq, Eq, Structural, Debug, Clone, Copy)]
pub enum ReadError {
    /// A line does not have the expected form.
    Parse,
    /// The input ends before a line that it should hold.
    EndOfStream,
}

/// The first index in `[p, end)` that holds `c`, or `end`.
pub open spec fn find_until(s: Seq<u8>, c: u8, p: int, end: int) -> int
    decreases end - p,
{
    if p >= end {
        end
    } else if s[p] == c {
        p
    } else {
        find_until(s, c, p + 1, end)
    }
}

/// The index of the line feed that ends the line starting at `p`, or the
/// input's length.
pub open spec fn line_end(s: Seq<u8>, p: int) -> int {
    find_until(s, 0x0au8, p, s.len() as int)
}

/// Where the line starting at `p` ends, without a carriage return before
/// its line feed.
pub open spec fn content_end(s: Seq<u8>, p: int) -> int {
    let e = line_end(s, p);
    if e > p && s[e - 1] == 0x0du8 {
        e - 1
    } else {
        e
    }
}

/// The text of the line starting at `p`.
pub open spec fn line_at(s: Seq<u8>, p: int) -> Seq<u8> {
    s.subrange(p, content_end(s, p))
}

/// Where the line after the one starting at `p` starts.
pub open spec fn after_line(s: Seq<u8>, p: int) -> int {
    let e = line_end(s, p);
    if e < s.len() {
        e + 1
    } else {
        s.len() as int
    }
}

pub open spec fn is_digit(c: u8) -> bool {
    0x30u8 <= c <= 0x39u8
}

/// A non-empty run of decimal digits.
pub open spec fn is_number(t: Seq<u8>) -> bool {
    t.len() > 0 && forall|i: int| 0 <= i < t.len() ==> is_digit(#[trigger] t[i])
}

/// The value of a run of decimal digits.
pub open spec fn digits_value(t: Seq<u8>) -> nat
    decreases t.len(),
{
    if t.len() == 0 {
        0
    } else {
        digits_value(t.drop_last()) * 10 + (t.last() - 0x30u8) as nat
    }
}

/// The number a line holds, if it holds one that fits in `usize`.
pub open spec fn number_of(t: Seq<u8>) -> Option<nat> {
    if is_number(t) && digits_value(t) <= usize::MAX {
        Some(digits_value(t))
    } else {
        None
    }
}

/// The two numbers of a header line `K M`, split at its first space.
pub open spec fn header_of(t: Seq<u8>) -> Option<(nat, nat)> {
    let sp = find_until(t, 0x20u8, 0, t.len() as int);
    if sp < t.len() {
        match (number_of(t.subrange(0, sp)), number_of(t.subrange(sp + 1, t.len() as int))) {
            (Some(k), Some(m)) => Some((k, m)),
            _ => None,
        }
    } else {
        None
    }
}

/// What reading the header from the start of `s` gives: the needle count
/// and the needle length.
pub open spec fn header_result(s: Seq<u8>) -> Result<(nat, nat), ReadError> {
    if s.len() == 0 {
        Err(ReadError::EndOfStream)
    } else {
        match header_of(line_at(s, 0)) {
            Some((k, m)) => if k <= MAX_HINT && 1 <= m <= 32 {
                Ok((k, m))
            } else {
                Err(ReadError::Parse)
            },
            None => Err(ReadError::Parse),
        }
    }
}

/// What reading one number line at `p` gives, and where the next line starts.
pub open spec fn number_result(s: Seq<u8>, p: int) -> Result<(nat, int), ReadError> {
    if p >= s.len() {
        Err(ReadError::EndOfStream)
    } else {
        match number_of(line_at(s, p)) {
            Some(v) => Ok((v, after_line(s, p))),
            None => Err(ReadError::Parse),
        }
    }
}

/// What reading `k` needle lines of length `m` at `p` gives, and where the
/// next line starts. Input that ends before a whole needle could follow is
/// an end of stream; a complete line of another length is malformed.
pub open spec fn needles_result(s: Seq<u8>, p: int, k: nat, m: nat) -> Result<
    (Seq<Seq<u8>>, int),
    ReadError,
>
    decreases k,
{
    if k == 0 {
        Ok((Seq::empty(), p))
    } else {
        match needles_result(s, p, (k - 1) as nat, m) {
            Err(e) => Err(e),
            Ok((ns, q)) => if q >= s.len() || s.len() - q < m {
                Err(ReadError::EndOfStream)
            } else if line_at(s, q).len() != m {
                Err(ReadError::Parse)
            } else {
                Ok((ns.push(line_at(s, q)), after_line(s, q)))
            },
        }
    }
}

/// What reading one haystack at `p` gives: its length line, then a line of
/// exactly that length. Input that ends before that many characters could
/// follow is an end of stream; a complete line of another length is malformed.
pub open spec fn haystack_result(s: Seq<u8>, p: int) -> Result<(Seq<u8>, int), ReadError> {
    match number_result(s, p) {
        Err(e) => Err(e),
        Ok((l, q)) => if q >= s.len() || s.len() - q < l {
            Err(ReadError::EndOfStream)
        } else if line_at(s, q).len() != l {
            Err(ReadError::Parse)
        } else {
            Ok((line_at(s, q), after_line(s, q)))
        },
    }
}

proof fn lemma_find_bounds(s: Seq<u8>, c: u8, p: int, end: int)
    requires
        p <= end,
    ensures
        p <= find_until(s, c, p, end) <= end,
    decreases end - p,
{
    if p < end && s[p] != c {
        lemma_find_bounds(s, c, p + 1, end);
    }
}

/// The first index in `[start, end)` of `s` that holds `c`, or `end`.
fn find_byte(s: &Vec<u8>, c: u8, start: usize, end: usize) -> (r: usize)
    requires
        start <= end <= s@.len(),
    ensures
        r as int == find_until(s@, c, start as int, end as int),
        start <= r <= end,
{
    let mut j = start;
    proof {
        lemma_find_bounds(s@, c, start as int, end as int);
    }
    while j < end && s[j] != c
        invariant
            start <= j <= end <= s@.len(),
            find_until(s@, c, start as int, end as int) == find_until(s@, c, j as int, end as int),
        decreases end - j,
    {
        j = j + 1;
    }
    j
}

/// The value of the digits `s[start..end]`, when they are a number that
/// fits in `usize`.
fn parse_number(s: &Vec<u8>, start: usize, end: usize) -> (r: Option<usize>)
    requires
        start <= end <= s@.len(),
    ensures
        r == match number_of(s@.subrange(start as int, end as int)) {
            Some(v) => Some(v as usize),
            None => None::<usize>,
        },
{
    let ghost t = s@.subrange(start as int, end as int);
    if start == end {
        return None;
    }
    let mut v: usize = 0;
    let mut i = start;
    let mut fits = true;
    while i < end
        invariant
            start <= i <= end <= s@.len(),
            t == s@.subrange(start as int, end as int),
            forall|j: int| start <= j < i ==> is_digit(#[trigger] s@[j]),
            fits ==> v == digits_value(s@.subrange(start as int, i as int)),
            !fits ==> digits_value(s@.subrange(start as int, i as int)) > usize::MAX,
        decreases end - i,
    {
        let c = s[i];
        if c < 0x30u8 || c > 0x39u8 {
            proof {
                assert(t[i - start] == c);
            }
            return None;
        }
        let d = (c - 0x30u8) as usize;
        proof {
            let u = s@.subrange(start as int, i + 1);
            assert(u.drop_last() =~= s@.subrange(start as int, i as int));
            assert(digits_value(u) == digits_value(u.drop_last()) * 10 + d);
        }
        if fits {
            match v.checked_mul(10) {
                Some(w) => match w.checked_add(d) {
                    Some(x) => {
                        v = x;
                    },
                    None => {
                        fits = false;
                    },
                },
                None => {
                    fits = false;
                    proof {
                        let u = s@.subrange(start as int, i + 1);
                        assert(digits_value(u) >= v * 10);
                    }
                },
            }
        } else {
            proof {
                let u = s@.subrange(start as int, i + 1);
                let pv = digits_value(u.drop_last());
                assert(pv * 10 >= pv) by (nonlinear_arith);
            }
        }
        i = i + 1;
    }
    proof {
        assert(s@.subrange(start as int, end as int) =~= t);
        assert forall|j: int| 0 <= j < t.len() implies is_digit(#[trigger] t[j]) by {
            assert(t[j] == s@[start + j]);
        }
    }
    if fits {
        Some(v)
    } else {
        None
    }
}

proof fn lemma_needles_err_stays(s: Seq<u8>, p: int, a: nat, b: nat, m: nat, e: ReadError)
    requires
        a <= b,
        needles_result(s, p, a, m) == Err::<(Seq<Seq<u8>>, int), ReadError>(e),
    ensures
        needles_result(s, p, b, m) == Err::<(Seq<Seq<u8>>, int), ReadError>(e),
    decreases b,
{
    if b > a {
        lemma_needles_err_stays(s, p, a, (b - 1) as nat, m, e);
    }
}

/// A cursor over the whole input of one run, with the needle count and the
/// needle length that its header gave.
pub struct SequenceReader {
    inner: Vec<u8>,
    pos: usize,
    k: usize,
    m: usize,
}

impl SequenceReader {
    /// The input bytes.
    pub closed spec fn input(&self) -> Seq<u8> {
        self.inner@
    }

    /// Where the next line to read starts.
    pub closed spec fn position(&self) -> int {
        self.pos as int
    }

    /// The needle count of the header.
    pub closed spec fn needle_count(&self) -> nat {
        self.k as nat
    }

    /// The needle length of the header.
    pub closed spec fn width(&self) -> nat {
        self.m as nat
    }

    pub closed spec fn wf(&self) -> bool {
        &&& self.pos <= self.inner@.len()
        &&& 1 <= self.m <= 32
        &&& self.k <= MAX_HINT
    }

    /// The line at the current position; the position moves past it.
    fn read_line(&mut self) -> (r: Option<Vec<u8>>)
        requires
            old(self).pos <= old(self).inner@.len(),
        ensures
            final(self).inner == old(self).inner,
            final(self).k == old(self).k,
            final(self).m == old(self).m,
            final(self).pos <= final(self).inner@.len(),
            match r {
                None => old(self).pos >= old(self).inner@.len() && final(self).pos == old(self).pos,
                Some(l) => {
                    &&& old(self).pos < old(self).inner@.len()
                    &&& l@ == line_at(old(self).inner@, old(self).pos as int)
                    &&& final(self).pos == after_line(old(self).inner@, old(self).pos as int)
                },
            },
    {
        let len = self.inner.len();
        let start = self.pos;
        if start >= len {
            return None;
        }
        let e = find_byte(&self.inner, 0x0au8, start, len);
        let ce = if e > start && self.inner[e - 1] == 0x0du8 {
            e - 1
        } else {
            e
        };
        let mut line: Vec<u8> = Vec::new();
        let mut j = start;
        while j < ce
            invariant
                start <= j <= ce <= len == self.inner@.len(),
                line@ == self.inner@.subrange(start as int, j as int),
            decreases ce - j,
        {
            line.push(self.inner[j]);
            proof {
                assert(line@ =~= self.inner@.subrange(start as int, j + 1));
            }
            j = j + 1;
        }
        self.pos = if e < len {
            e + 1
        } else {
            len
        };
        Some(line)
    }

    /// Reads the header line `K M` at the start of `input`.
    pub fn new(input: Vec<u8>) -> (r: Result<Self, ReadError>)
        ensures
            match r {
                Ok(rd) => {
                    &&& rd.wf()
                    &&& header_result(input@) == Ok::<(nat, nat), ReadError>(
                        (rd.needle_count(), rd.width()),
                    )
                    &&& rd.input() == input@
                    &&& rd.position() == after_line(input@, 0)
                },
                Err(e) => header_result(input@) == Err::<(nat, nat), ReadError>(e),
            },
    {
        let ghost s = input@;
        let mut rd = SequenceReader { inner: input, pos: 0, k: 0, m: 1 };
        let line = match rd.read_line() {
            None => {
                return Err(ReadError::EndOfStream);
            },
            Some(l) => l,
        };
        let len = line.len();
        let sp = find_byte(&line, 0x20u8, 0, len);
        if sp == len {
            return Err(ReadError::Parse);
        }
        let k = parse_number(&line, 0, sp);
        let m = parse_number(&line, sp + 1, len);
        match (k, m) {
            (Some(k), Some(m)) => {
                if k <= MAX_HINT && 1 <= m && m <= 32 {
                    rd.k = k;
                    rd.m = m;
                    Ok(rd)
                } else {
                    Err(ReadError::Parse)
                }
            },
            _ => Err(ReadError::Parse),
        }
    }

    pub fn get_m(&self) -> (r: usize)
        ensures
            r == self.width(),
    {
        self.m
    }

    pub fn get_k(&self) -> (r: usize)
        ensures
            r == self.needle_count(),
    {
        self.k
    }

    /// Reads the `K` needle lines, each of exactly `M` characters.
    pub fn read_needles(&mut self) -> (r: Result<Vec<Vec<u8>>, ReadError>)
        requires
            old(self).wf(),
        ensures
            final(self).wf(),
            final(self).input() == old(self).input(),
            final(self).needle_count() == old(self).needle_count(),
            final(self).width() == old(self).width(),
            match r {
                Ok(v) => needles_result(
                    old(self).input(),
                    old(self).position(),
                    old(self).needle_count(),
                    old(self).width(),
                ) == Ok::<(Seq<Seq<u8>>, int), ReadError>(
                    (v@.map_values(|x: Vec<u8>| x@), final(self).position()),
                ),
                Err(e) => needles_result(
                    old(self).input(),
                    old(self).position(),
                    old(self).needle_count(),
                    old(self).width(),
                ) == Err::<(Seq<Seq<u8>>, int), ReadError>(e),
            },
    {
        let ghost s = self.inner@;
        let ghost start = self.pos as int;
        let mut out: Vec<Vec<u8>> = Vec::new();
        let mut i: usize = 0;
        assert(out@.map_values(|x: Vec<u8>| x@) =~= Seq::<Seq<u8>>::empty());
        while i < self.k
            invariant
                self.wf(),
                self.inner@ == s,
                s == old(self).inner@,
                self.k == old(self).k,
                self.m == old(self).m,
                start == old(self).pos,
                i <= self.k,
                needles_result(s, start, i as nat, self.m as nat) == Ok::<(Seq<Seq<u8>>, int), ReadError>(
                    (out@.map_values(|x: Vec<u8>| x@), self.pos as int),
                ),
            decreases self.k - i,
        {
            let q = self.pos;
            match self.read_line() {
                None => {
                    proof {
                        lemma_needles_err_stays(s, start, (i + 1) as nat, self.k as nat, self.m as nat, ReadError::EndOfStream);
                    }
                    return Err(ReadError::EndOfStream);
                },
                Some(l) => {
                    if self.inner.len() - q < self.m {
                        proof {
                            lemma_needles_err_stays(s, start, (i + 1) as nat, self.k as nat, self.m as nat, ReadError::EndOfStream);
                        }
                        return Err(ReadError::EndOfStream);
                    }
                    if l.len() != self.m {
                        proof {
                            lemma_needles_err_stays(s, start, (i + 1) as nat, self.k as nat, self.m as nat, ReadError::Parse);
                        }
                        return Err(ReadError::Parse);
                    }
                    let ghost before = out@;
                    out.push(l);
                    proof {
                        assert(out@.map_values(|x: Vec<u8>| x@) =~= before.map_values(|x: Vec<u8>| x@).push(
                            line_at(s, q as int),
                        ));
                    }
                },
            }
            i = i + 1;
        }
        Ok(out)
    }

    /// Reads the line with the haystack count `N`.
    pub fn read_n(&mut self) -> (r: Result<usize, ReadError>)
        requires
            old(self).wf(),
        ensures
            final(self).wf(),
            final(self).input() == old(self).input(),
            final(self).needle_count() == old(self).needle_count(),
            final(self).width() == old(self).width(),
            match r {
                Ok(n) => number_result(old(self).input(), old(self).position()) == Ok::<(nat, int), ReadError>(
                    (n as nat, final(self).position()),
                ),
                Err(e) => number_result(old(self).input(), old(self).position()) == Err::<(nat, int), ReadError>(e),
            },
    {
        match self.read_line() {
            None => Err(ReadError::EndOfStream),
            Some(l) => match parse_number(&l, 0, l.len()) {
                Some(v) => {
                    proof {
                        assert(l@.subrange(0, l@.len() as int) =~= l@);
                    }
                    Ok(v)
                },
                None => {
                    proof {
                        assert(l@.subrange(0, l@.len() as int) =~= l@);
                    }
                    Err(ReadError::Parse)
                },
            },
        }
    }

    /// Reads the next haystack: a line with its length `L`, then a line of
    /// exactly `L` characters.
    pub fn next(&mut self) -> (r: Result<Vec<u8>, ReadError>)
        requires
            old(self).wf(),
        ensures
            final(self).wf(),
            final(self).input() == old(self).input(),
            final(self).needle_count() == old(self).needle_count(),
            final(self).width() == old(self).width(),
            match r {
                Ok(h) => haystack_result(old(self).input(), old(self).position()) == Ok::<(Seq<u8>, int), ReadError>(
                    (h@, final(self).position()),
                ),
                Err(e) => haystack_result(old(self).input(), old(self).position()) == Err::<(Seq<u8>, int), ReadError>(e),
            },
    {
        let l = match self.read_n() {
            Ok(l) => l,
            Err(e) => {
                return Err(e);
            },
        };
        let q = self.pos;
        match self.read_line() {
            None => Err(ReadError::EndOfStream),
            Some(h) => if self.inner.len() - q < l {
                Err(ReadError::EndOfStream)
            } else if h.len() != l {
                Err(ReadError::Parse)
            } else {
                Ok(h)
            },
        }
    }
}

} // verus!
