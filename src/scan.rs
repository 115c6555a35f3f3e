//! The scan driver: needles go into the table once, then each haystack is
//! scanned window by window with a rolling fingerprint.
use crate::fingerprint::{
    bits,
    fingerprint,
    fp,
    lemma_fp_bound,
    lemma_fp_injective,
    lemma_roll_matches_encode,
    roll,
};
use crate::table::{inserts_map, Table256bit, MAX_HINT};
use vstd::arithmetic::power2::{lemma2_to64, lemma_pow2_strictly_increases, pow2};
use vstd::prelude::*;

verus! {

/// The table entries for a list of needles: the fingerprint of each one,
/// with its 1-based index.
pub open spec fn needle_entries(ns: Seq<Seq<bool>>) -> Seq<(u32, u32)> {
    Seq::new(ns.len(), |j: int| (fp(ns[j]) as u32, (j + 1) as u32))
}

/// No needle after the `j`-th one has the same pattern.
pub open spec fn is_last(ns: Seq<Seq<bool>>, j: int) -> bool {
    forall|j2: int| j < j2 < ns.len() ==> ns[j2] != ns[j]
}

/// `w` occurs in `h` as a contiguous window.
pub open spec fn occurs(h: Seq<bool>, w: Seq<bool>) -> bool {
    exists|p: int| 0 <= p && p + w.len() <= h.len() && #[trigger] h.subrange(p, p + w.len()) == w
}

/// Needle `i` (1-based) is reported for haystack `h`: it occurs in `h`, and
/// no later needle has the same pattern.
pub open spec fn reported(ns: Seq<Seq<bool>>, h: Seq<bool>, i: int) -> bool {
    1 <= i <= ns.len() && is_last(ns, i - 1) && occurs(h, ns[i - 1])
}

/// The indices `x` in `1..i` for which `f(x)` holds, ascending.
pub open spec fn indices_upto(f: spec_fn(int) -> bool, i: int) -> Seq<u32>
    decreases i,
{
    if i <= 1 {
        Seq::empty()
    } else {
        indices_upto(f, i - 1) + if f(i - 1) {
            seq![(i - 1) as u32]
        } else {
            Seq::empty()
        }
    }
}

/// The ascending list of the needles reported for haystack `h`.
pub open spec fn reported_list(ns: Seq<Seq<bool>>, h: Seq<bool>) -> Seq<u32> {
    indices_upto(|x: int| reported(ns, h, x), (ns.len() + 1) as int)
}

proof fn lemma_indices_agree(f: spec_fn(int) -> bool, g: spec_fn(int) -> bool, i: int)
    requires
        forall|x: int| 1 <= x < i ==> #[trigger] f(x) == g(x),
    ensures
        indices_upto(f, i) == indices_upto(g, i),
    decreases i,
{
    if i > 1 {
        lemma_indices_agree(f, g, i - 1);
    }
}

proof fn lemma_indices_none(i: int)
    ensures
        indices_upto(|x: int| false, i) == Seq::<u32>::empty(),
    decreases i,
{
    if i > 1 {
        lemma_indices_none(i - 1);
        assert(indices_upto(|x: int| false, i) =~= Seq::<u32>::empty());
    }
}

/// Needle `i` (1-based) is the last of its pattern and occurs in `h` at a
/// position before `p`.
pub open spec fn seen_before(ns: Seq<Seq<bool>>, h: Seq<bool>, i: int, p: int) -> bool {
    &&& is_last(ns, i - 1)
    &&& exists|q: int| 0 <= q < p && #[trigger] h.subrange(q, q + ns[i - 1].len()) == ns[i - 1]
}

proof fn lemma_fp_u32(a: Seq<bool>, b: Seq<bool>)
    requires
        a.len() == b.len() <= 32,
    ensures
        (fp(a) as u32 == fp(b) as u32) <==> a == b,
{
    lemma_fp_bound(a);
    lemma_fp_bound(b);
    lemma2_to64();
    if a.len() < 32 {
        lemma_pow2_strictly_increases(a.len(), 32);
    }
    if fp(a) as u32 == fp(b) as u32 {
        lemma_fp_injective(a, b);
    }
}

/// Looking up the fingerprint of a window among the needle entries finds the
/// last needle with the window's pattern, and nothing when no needle has it.
pub proof fn lemma_lookup(ns: Seq<Seq<bool>>, w: Seq<bool>)
    requires
        w.len() <= 32,
        ns.len() <= u32::MAX,
        forall|j: int| 0 <= j < ns.len() ==> (#[trigger] ns[j]).len() == w.len(),
    ensures
        inserts_map(needle_entries(ns)).contains_key(fp(w) as u32) <==> exists|j: int|
            0 <= j < ns.len() && ns[j] == w,
        inserts_map(needle_entries(ns)).contains_key(fp(w) as u32) ==> {
            let v = inserts_map(needle_entries(ns))[fp(w) as u32] as int;
            &&& 1 <= v <= ns.len()
            &&& ns[v - 1] == w
            &&& is_last(ns, v - 1)
        },
    decreases ns.len(),
{
    if ns.len() > 0 {
        let r = ns.drop_last();
        assert(needle_entries(ns).drop_last() =~= needle_entries(r));
        lemma_lookup(r, w);
        lemma_fp_u32(ns.last(), w);
        assert(needle_entries(ns).last() == (fp(ns.last()) as u32, ns.len() as u32));
        if exists|j: int| 0 <= j < r.len() && r[j] == w {
            let j = choose|j: int| 0 <= j < r.len() && r[j] == w;
            assert(ns[j] == w);
        }
        if exists|j: int| 0 <= j < ns.len() && ns[j] == w {
            let j = choose|j: int| 0 <= j < ns.len() && ns[j] == w;
            if j < r.len() {
                assert(r[j] == w);
            }
        }
        if ns.last() == w {
            assert(inserts_map(needle_entries(ns))[fp(w) as u32] == ns.len() as u32);
            assert(ns[ns.len() - 1] == w);
        }
        if ns.last() != w && inserts_map(needle_entries(r)).contains_key(fp(w) as u32) {
            let v = inserts_map(needle_entries(r))[fp(w) as u32] as int;
            assert(ns[v - 1] == r[v - 1]);
            assert forall|j2: int| v - 1 < j2 < ns.len() implies #[trigger] ns[j2] != ns[v - 1] by {
                if j2 < r.len() {
                    assert(r[j2] != r[v - 1]);
                }
            }
        }
    }
}

/// Two last-of-their-pattern needles with the same pattern are the same needle.
proof fn lemma_last_unique(ns: Seq<Seq<bool>>, a: int, b: int)
    requires
        0 <= a < ns.len(),
        0 <= b < ns.len(),
        ns[a] == ns[b],
        is_last(ns, a),
        is_last(ns, b),
    ensures
        a == b,
{
}

/// Of two needles with the same pattern, the earlier one is never reported.
pub proof fn lemma_duplicate_keeps_later(ns: Seq<Seq<bool>>, h: Seq<bool>, a: int, b: int)
    requires
        0 <= a < b < ns.len(),
        ns[a] == ns[b],
    ensures
        !reported(ns, h, a + 1),
{
}

/// The needle set and the presence array that one haystack's scan fills.
pub struct Matcher {
    table: Table256bit,
    m: usize,
    k: usize,
    hits: Vec<bool>,
    needles: Ghost<Seq<Seq<bool>>>,
}

impl Matcher {
    /// The needles' bit patterns, in input order.
    pub closed spec fn needles(&self) -> Seq<Seq<bool>> {
        self.needles@
    }

    /// The needle length.
    pub closed spec fn width(&self) -> nat {
        self.m as nat
    }

    pub closed spec fn wf(&self) -> bool {
        &&& self.table.wf()
        &&& 1 <= self.m <= 32
        &&& self.k == self.needles@.len() <= MAX_HINT
        &&& forall|j: int| 0 <= j < self.k ==> (#[trigger] self.needles@[j]).len() == self.m
        &&& self.table@ == inserts_map(needle_entries(self.needles@))
        &&& self.hits@.len() == self.k + 1
        &&& forall|i: int| 0 <= i <= self.k ==> !self.hits@[i]
    }

    /// Fingerprints each needle and stores it under its 1-based index; a
    /// later needle with the same pattern takes the place of an earlier one.
    pub fn new(m: usize, needles: &Vec<Vec<u8>>) -> (r: Self)
        requires
            1 <= m <= 32,
            needles@.len() <= MAX_HINT,
            forall|j: int| 0 <= j < needles@.len() ==> (#[trigger] needles@[j])@.len() == m,
        ensures
            r.wf(),
            r.width() == m,
            r.needles() == Seq::new(needles@.len(), |j: int| bits(needles@[j]@)),
    {
        let k = needles.len();
        let ghost ns = Seq::new(needles@.len(), |j: int| bits(needles@[j]@));
        let mut pairs: Vec<(u32, u32)> = Vec::new();
        let mut j: usize = 0;
        while j < k
            invariant
                k == needles@.len() <= MAX_HINT,
                1 <= m <= 32,
                forall|j: int| 0 <= j < needles@.len() ==> (#[trigger] needles@[j])@.len() == m,
                ns == Seq::new(needles@.len(), |j: int| bits(needles@[j]@)),
                j <= k,
                pairs@.len() == j,
                forall|i: int| 0 <= i < j ==> #[trigger] pairs@[i] == needle_entries(ns)[i],
            decreases k - j,
        {
            let f = fingerprint(needles[j].as_slice(), 0, m);
            proof {
                assert(needles@[j as int]@.subrange(0, m as int) =~= needles@[j as int]@);
            }
            pairs.push((f, (j + 1) as u32));
            j = j + 1;
        }
        proof {
            assert(pairs@ =~= needle_entries(ns));
        }
        let table = Table256bit::build(&pairs);
        let mut hits: Vec<bool> = Vec::new();
        let mut i: usize = 0;
        while i <= k
            invariant
                k <= MAX_HINT,
                i <= k + 1,
                hits@.len() == i,
                forall|i2: int| 0 <= i2 < i ==> !hits@[i2],
            decreases k + 1 - i,
        {
            hits.push(false);
            i = i + 1;
        }
        Matcher { table, m, k, hits, needles: Ghost(ns) }
    }

    /// The ascending, duplicate-free list of the needles reported for
    /// `haystack`. The presence array is left clear for the next haystack.
    pub fn scan(&mut self, haystack: &[u8]) -> (r: Vec<u32>)
        requires
            old(self).wf(),
        ensures
            final(self).wf(),
            final(self).needles() == old(self).needles(),
            final(self).width() == old(self).width(),
            forall|a: int, b: int| 0 <= a < b < r@.len() ==> r@[a] < r@[b],
            forall|x: u32| r@.contains(x) <==> reported(old(self).needles(), bits(haystack@), x as int),
            r@ == reported_list(old(self).needles(), bits(haystack@)),
    {
        let ghost ns = self.needles@;
        let ghost h = bits(haystack@);
        let len = haystack.len();
        let m = self.m;
        if len < m {
            proof {
                assert forall|x: u32| !reported(ns, h, x as int) by {
                    if reported(ns, h, x as int) {
                        assert(ns[x - 1].len() == m);
                    }
                }
                assert forall|x: int| 1 <= x < ns.len() + 1 implies reported(ns, h, x) == false by {
                    if reported(ns, h, x) {
                        assert(ns[x - 1].len() == m);
                    }
                }
                lemma_indices_agree(|x: int| reported(ns, h, x), |x: int| false, ns.len() + 1 as int);
                lemma_indices_none(ns.len() + 1 as int);
            }
            return Vec::new();
        }
        let mut num = fingerprint(haystack, 0, m);
        let mut p: usize = 0;
        proof {
            assert(bits(haystack@.subrange(0, m as int)) =~= h.subrange(0, m as int));
        }
        loop
            invariant_except_break
                forall|i: int| 1 <= i <= self.k ==> (self.hits@[i] <==> seen_before(ns, h, i, p as int)),
            invariant
                self.table.wf(),
                1 <= self.m <= 32,
                m == self.m,
                self.k == ns.len() <= MAX_HINT,
                ns == self.needles@,
                h == bits(haystack@),
                len == haystack@.len(),
                forall|j: int| 0 <= j < self.k ==> (#[trigger] ns[j]).len() == m,
                self.table@ == inserts_map(needle_entries(ns)),
                self.hits@.len() == self.k + 1,
                !self.hits@[0],
                p + m <= len,
                num as nat == fp(h.subrange(p as int, p + m)),
            ensures
                forall|x: int| 1 <= x <= self.k ==> (self.hits@[x] <==> reported(ns, h, x)),
            decreases len - p,
        {
            let ghost w = h.subrange(p as int, p + m);
            let ghost before = self.hits@;
            proof {
                lemma_lookup(ns, w);
                assert(w.len() == m);
            }
            match self.table.search(num) {
                Some(v) => {
                    self.hits.set(v as usize, true);
                },
                None => {},
            }
            proof {
                assert forall|i: int| 1 <= i <= self.k implies (self.hits@[i] <==> seen_before(ns, h, i, p + 1)) by {
                    if seen_before(ns, h, i, p + 1) && !seen_before(ns, h, i, p as int) {
                        let q = choose|q: int| 0 <= q < p + 1 && #[trigger] h.subrange(q, q + ns[i - 1].len()) == ns[i - 1];
                        assert(q == p);
                        assert(ns[i - 1] == w);
                        let v = inserts_map(needle_entries(ns))[fp(w) as u32] as int;
                        lemma_last_unique(ns, i - 1, v - 1);
                    }
                    if seen_before(ns, h, i, p as int) {
                        let q = choose|q: int| 0 <= q < p && #[trigger] h.subrange(q, q + ns[i - 1].len()) == ns[i - 1];
                        assert(0 <= q < p + 1);
                    }
                    if self.hits@[i] && !before[i] {
                        assert(ns[i - 1] == w);
                        assert(h.subrange(p as int, p + ns[i - 1].len()) == ns[i - 1]);
                    }
                }
            }
            if p + m == len {
                proof {
                    assert forall|x: int| 1 <= x <= self.k implies (self.hits@[x] <==> reported(ns, h, x)) by {
                        assert(self.hits@[x] <==> seen_before(ns, h, x, p + 1));
                        if occurs(h, ns[x - 1]) {
                            let q = choose|q: int| 0 <= q && q + ns[x - 1].len() <= h.len() && #[trigger] h.subrange(q, q + ns[x - 1].len()) == ns[x - 1];
                            assert(0 <= q < p + 1);
                        }
                        if seen_before(ns, h, x as int, p + 1) {
                            let q = choose|q: int| 0 <= q < p + 1 && #[trigger] h.subrange(q, q + ns[x - 1].len()) == ns[x - 1];
                            assert(q + ns[x - 1].len() <= h.len());
                        }
                    }
                }
                break;
            }
            let c = haystack[p + m];
            proof {
                lemma_fp_bound(w);
                let ww = haystack@.subrange(p as int, p + m);
                assert(bits(ww) =~= w);
                lemma_roll_matches_encode(ww, c);
                assert(bits(ww.drop_first().push(c)) =~= h.subrange(p + 1, p + 1 + m));
            }
            num = roll(num, m, c);
            p = p + 1;
        }
        let ghost marks = self.hits@;
        let r = self.collect();
        proof {
            lemma_indices_agree(|x: int| marks[x], |x: int| reported(ns, h, x), ns.len() + 1 as int);
        }
        r
    }

    /// Lists the marked needle indices in ascending order and clears them.
    fn collect(&mut self) -> (r: Vec<u32>)
        requires
            old(self).table.wf(),
            1 <= old(self).m <= 32,
            old(self).k == old(self).needles@.len() <= MAX_HINT,
            forall|j: int| 0 <= j < old(self).k ==> (#[trigger] old(self).needles@[j]).len() == old(self).m,
            old(self).table@ == inserts_map(needle_entries(old(self).needles@)),
            old(self).hits@.len() == old(self).k + 1,
            !old(self).hits@[0],
        ensures
            final(self).wf(),
            final(self).needles@ == old(self).needles@,
            final(self).m == old(self).m,
            forall|a: int, b: int| 0 <= a < b < r@.len() ==> r@[a] < r@[b],
            forall|x: u32| r@.contains(x) <==> 1 <= x <= old(self).k && old(self).hits@[x as int],
            r@ == indices_upto(|x: int| old(self).hits@[x], old(self).k + 1),
    {
        let ghost marks = self.hits@;
        let mut r: Vec<u32> = Vec::new();
        let mut i: usize = 1;
        while i <= self.k
            invariant
                self.table.wf(),
                1 <= self.m <= 32,
                self.k == self.needles@.len() <= MAX_HINT,
                forall|j: int| 0 <= j < self.k ==> (#[trigger] self.needles@[j]).len() == self.m,
                self.table@ == inserts_map(needle_entries(self.needles@)),
                self.needles@ == old(self).needles@,
                self.m == old(self).m,
                self.k == old(self).k,
                marks == old(self).hits@,
                self.hits@.len() == self.k + 1,
                1 <= i <= self.k + 1,
                forall|i2: int| 0 <= i2 < i ==> !self.hits@[i2],
                forall|i2: int| i <= i2 <= self.k ==> self.hits@[i2] == marks[i2],
                forall|a: int| 0 <= a < r@.len() ==> r@[a] < i,
                forall|a: int, b: int| 0 <= a < b < r@.len() ==> r@[a] < r@[b],
                forall|x: u32| #[trigger] r@.contains(x) <==> 1 <= x < i && marks[x as int],
                r@ == indices_upto(|x: int| marks[x], i as int),
            decreases self.k + 1 - i,
        {
            let ghost before = r@;
            if self.hits[i] {
                r.push(i as u32);
                self.hits.set(i, false);
                proof {
                    assert forall|x: u32| #[trigger] r@.contains(x) <==> 1 <= x < i + 1 && marks[x as int] by {
                        if x == i {
                            assert(r@[r@.len() - 1] == x);
                        } else if r@.contains(x) {
                            let a = choose|a: int| 0 <= a < r@.len() && r@[a] == x;
                            assert(a < before.len());
                            assert(before.contains(x));
                        } else if 1 <= x < i && marks[x as int] {
                            assert(before.contains(x));
                            let a = choose|a: int| 0 <= a < before.len() && before[a] == x;
                            assert(r@[a] == x);
                        }
                    }
                }
            } else {
                proof {
                    assert forall|x: u32| #[trigger] r@.contains(x) <==> 1 <= x < i + 1 && marks[x as int] by {
                        if r@.contains(x) {
                            let a = choose|a: int| 0 <= a < r@.len() && r@[a] == x;
                            assert(r@[a] < i);
                        }
                    }
                }
            }
            proof {
                let f = |x: int| marks[x];
                assert(indices_upto(f, i + 1) == indices_upto(f, i as int) + if f(i as int) {
                    seq![i as u32]
                } else {
                    Seq::empty()
                });
                if marks[i as int] {
                    assert(r@ =~= indices_upto(f, i + 1));
                } else {
                    assert(r@ =~= indices_upto(f, i + 1));
                }
            }
            i = i + 1;
        }
        r
    }
}

} // verus!
