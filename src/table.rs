//! Open-addressing table from 32-bit fingerprints to needle indices, probed
//! in blocks of four slots.
use vstd::arithmetic::power2::{lemma2_to64, lemma_pow2_unfold, pow2};
use vstd::bits::{lemma_usize_low_bits_mask_is_mod, low_bits_mask};
use vstd::prelude::*;

verus! {

/// The key of a slot that holds no entry. Keys are stored in 64 bits so that
/// no 32-bit fingerprint, the all-ones one included, can be taken for it.
pub const EMPTY: u64 = 0xffff_ffff_ffff_ffffu64;

/// The largest capacity hint a table can be made for.
pub const MAX_HINT: usize = 0x0fff_ffffusize;

/// The smallest power of two at or above `n`.
pub open spec fn pow2_at_least(n: nat) -> nat
    decreases n,
{
    if n <= 1 {
        1
    } else {
        2 * pow2_at_least(((n + 1) / 2) as nat)
    }
}

/// The number of slots of a table made for `hint` entries: the smallest
/// power of two at or above `4 * hint`, and at least 4.
pub open spec fn slot_count(hint: nat) -> nat {
    if hint == 0 {
        4
    } else {
        pow2_at_least(4 * hint)
    }
}

/// The number of slots of `keys` that hold an entry.
pub open spec fn count_used(keys: Seq<u64>) -> nat
    decreases keys.len(),
{
    if keys.len() == 0 {
        0
    } else {
        count_used(keys.drop_last()) + if keys.last() != EMPTY {
            1nat
        } else {
            0nat
        }
    }
}

proof fn lemma_pow2_at_least_bounds(n: nat, k: nat)
    ensures
        n <= pow2_at_least(n),
        n <= pow2(k) ==> pow2_at_least(n) <= pow2(k),
    decreases n,
{
    vstd::arithmetic::power2::lemma_pow2_pos(k);
    if n > 1 {
        let m = ((n + 1) / 2) as nat;
        if k > 0 {
            lemma_pow2_unfold(k);
            lemma_pow2_at_least_bounds(m, (k - 1) as nat);
        } else {
            lemma_pow2_at_least_bounds(m, k);
            lemma2_to64();
        }
    }
}

proof fn lemma_slot_count(n: nat)
    ensures
        slot_count(n) == 4 * pow2_at_least(n),
{
    if n > 0 {
        assert(pow2_at_least(4 * n) == 2 * pow2_at_least(2 * n));
        assert(pow2_at_least(2 * n) == 2 * pow2_at_least(n));
    }
}

proof fn lemma_count_fill(keys: Seq<u64>, i: int, k: u64)
    requires
        0 <= i < keys.len(),
        keys[i] == EMPTY,
        k != EMPTY,
    ensures
        count_used(keys.update(i, k)) == count_used(keys) + 1,
    decreases keys.len(),
{
    let u = keys.update(i, k);
    if i == keys.len() - 1 {
        assert(u.drop_last() =~= keys.drop_last());
    } else {
        assert(u.drop_last() =~= keys.drop_last().update(i, k));
        lemma_count_fill(keys.drop_last(), i, k);
    }
}

proof fn lemma_count_has_empty(keys: Seq<u64>)
    requires
        count_used(keys) < keys.len(),
    ensures
        exists|i: int| 0 <= i < keys.len() && keys[i] == EMPTY,
    decreases keys.len(),
{
    if keys.last() == EMPTY {
        assert(keys[keys.len() - 1] == EMPTY);
    } else {
        lemma_count_has_empty(keys.drop_last());
        let i = choose|i: int| 0 <= i < keys.len() - 1 && keys.drop_last()[i] == EMPTY;
        assert(keys[i] == EMPTY);
    }
}

/// The map that a sequence of `(key, value)` insertions leaves, each
/// insertion replacing what its key held before.
pub open spec fn inserts_map(s: Seq<(u32, u32)>) -> Map<u32, u32>
    decreases s.len(),
{
    if s.len() == 0 {
        Map::empty()
    } else {
        inserts_map(s.drop_last()).insert(s.last().0, s.last().1)
    }
}

/// After a sequence of insertions a key is present exactly when it was
/// inserted, and it holds the value of its most recent insertion.
pub proof fn lemma_last_insert_wins(s: Seq<(u32, u32)>, key: u32, i: int)
    ensures
        inserts_map(s).contains_key(key) <==> exists|j: int| 0 <= j < s.len() && s[j].0 == key,
        0 <= i < s.len() && s[i].0 == key && (forall|j: int| i < j < s.len() ==> s[j].0 != key)
            ==> inserts_map(s)[key] == s[i].1,
    decreases s.len(),
{
    if s.len() > 0 {
        let r = s.drop_last();
        lemma_last_insert_wins(r, key, i);
        if exists|j: int| 0 <= j < r.len() && r[j].0 == key {
            let j = choose|j: int| 0 <= j < r.len() && r[j].0 == key;
            assert(s[j].0 == key);
        }
        if exists|j: int| 0 <= j < s.len() && s[j].0 == key {
            let j = choose|j: int| 0 <= j < s.len() && s[j].0 == key;
            if j < r.len() {
                assert(r[j].0 == key);
            }
        }
        if 0 <= i < s.len() && s[i].0 == key && (forall|j: int| i < j < s.len() ==> s[j].0 != key) {
            if i < r.len() {
                assert(s[s.len() - 1].0 != key);
                assert forall|j: int| i < j < r.len() implies r[j].0 != key by {
                    assert(s[j].0 != key);
                }
            }
        }
    }
}

/// What one `insert` does to a table's map: the key then holds the new
/// value, and every other key holds what it held before, or stays absent.
pub proof fn lemma_insert_keeps_others(t0: Table256bit, t1: Table256bit, key: u32, v: u32)
    requires
        t1@ == t0@.insert(key, v),
    ensures
        t1@.contains_key(key) && t1@[key] == v,
        forall|k: u32|
            k != key ==> (#[trigger] t1@.contains_key(k) == t0@.contains_key(k)) && (t0@.contains_key(k)
                ==> t1@[k] == t0@[k]),
{
}

/// Where a key sits or would be placed.
enum Probe {
    Found(usize),
    Vacant(usize),
}

pub struct Table256bit {
    key: Vec<u64>,
    val: Vec<u32>,
    size: usize,
    bits: Ghost<nat>,
    contents: Ghost<Map<u32, u32>>,
}

impl View for Table256bit {
    type V = Map<u32, u32>;

    closed spec fn view(&self) -> Map<u32, u32> {
        self.contents@
    }
}

impl Table256bit {
    /// The number of slots.
    pub closed spec fn capacity(&self) -> nat {
        (self.size + 1) as nat
    }

    /// The number of slots that hold an entry.
    pub closed spec fn occupancy(&self) -> nat {
        count_used(self.key@)
    }

    closed spec fn home(&self, k: u64) -> int {
        k as int % self.capacity() as int
    }

    /// The slot `t` steps after slot `h`, wrapping once.
    closed spec fn probe(&self, h: int, t: int) -> int {
        if h + t < self.capacity() {
            h + t
        } else {
            h + t - self.capacity()
        }
    }

    /// How many steps slot `i` lies after slot `h`.
    closed spec fn dist(&self, h: int, i: int) -> int {
        if i >= h {
            i - h
        } else {
            i + self.capacity() - h
        }
    }

    closed spec fn occ(&self, i: int) -> bool {
        self.key@[i] != EMPTY
    }

    pub closed spec fn wf(&self) -> bool {
        &&& self.key@.len() == self.capacity()
        &&& self.val@.len() == self.capacity()
        &&& self.bits@ <= 30
        &&& 4 <= self.capacity() <= 0x4000_0000
        &&& self.size as nat == low_bits_mask(self.bits@)
        &&& self.capacity() == pow2(self.bits@)
        &&& count_used(self.key@) < self.capacity()
        &&& forall|i: int| 0 <= i < self.capacity() && self.occ(i) ==> self.key@[i] <= u32::MAX
        &&& forall|i: int, j: int|
            0 <= i < self.capacity() && 0 <= j < self.capacity() && self.occ(i)
                && #[trigger] self.key@[i] == #[trigger] self.key@[j] ==> i == j
        &&& forall|i: int, t: int|
            0 <= i < self.capacity() && self.occ(i) && 0 <= t < self.dist(
                self.home(self.key@[i]),
                i,
            ) ==> self.occ(#[trigger] self.probe(self.home(self.key@[i]), t))
        &&& forall|k: u32|
            #[trigger] self.contents@.contains_key(k) <==> exists|i: int|
                0 <= i < self.capacity() && self.key@[i] == k as u64
        &&& forall|i: int|
            0 <= i < self.capacity() && self.occ(i) ==> self.contents@.contains_key(
                #[trigger] self.key@[i] as u32,
            ) && self.contents@[self.key@[i] as u32] == self.val@[i]
    }

    proof fn lemma_mask(&self, x: usize)
        requires
            self.wf(),
            x < 2 * self.capacity(),
        ensures
            x & self.size == self.probe(x as int, 0),
    {
        lemma_usize_low_bits_mask_is_mod(x, self.bits@);
        let c = self.capacity() as int;
        if x < c {
            vstd::arithmetic::div_mod::lemma_small_mod(x as nat, c as nat);
        } else {
            vstd::arithmetic::div_mod::lemma_small_mod((x - c) as nat, c as nat);
            vstd::arithmetic::div_mod::lemma_mod_sub_multiples_vanish(x as int, c);
        }
    }

    /// An empty table whose slot count is the smallest power of two at or
    /// above four times the `size` entries it is meant to hold.
    pub fn new(size: usize) -> (r: Self)
        requires
            size <= MAX_HINT,
        ensures
            r.wf(),
            r@ == Map::<u32, u32>::empty(),
            r.capacity() == slot_count(size as nat),
            r.capacity() >= 4 * size,
            r.occupancy() == 0,
    {
        let mut p: usize = 1;
        let mut q: usize = size;
        let ghost mut b: nat = 0;
        proof {
            lemma2_to64();
            lemma_pow2_at_least_bounds(size as nat, 28);
            lemma_slot_count(size as nat);
        }
        while q > 1
            invariant
                p * pow2_at_least(q as nat) == pow2_at_least(size as nat),
                pow2_at_least(size as nat) <= 0x1000_0000,
                q <= size,
                p == pow2(b),
            decreases q,
        {
            let ghost h = ((q + 1) / 2) as nat;
            proof {
                lemma_pow2_at_least_bounds(h, 0);
                assert(pow2_at_least(q as nat) == 2 * pow2_at_least(h));
                assert(p * 2 <= p * pow2_at_least(q as nat)) by (nonlinear_arith)
                    requires
                        pow2_at_least(q as nat) >= 2,
                ;
                assert(p * pow2_at_least(q as nat) == (p * 2) * pow2_at_least(h))
                    by (nonlinear_arith)
                    requires
                        pow2_at_least(q as nat) == 2 * pow2_at_least(h),
                ;
                lemma_pow2_unfold(b + 1);
            }
            p = p * 2;
            q = q - q / 2;
            proof {
                b = b + 1;
            }
        }
        proof {
            assert(pow2_at_least(q as nat) == 1);
            assert(p * pow2_at_least(q as nat) == p) by (nonlinear_arith)
                requires
                    pow2_at_least(q as nat) == 1,
            ;
            assert(p == pow2_at_least(size as nat));
            lemma_pow2_unfold(b + 1);
            lemma_pow2_unfold(b + 2);
            if b > 28 {
                vstd::arithmetic::power2::lemma_pow2_strictly_increases(28, b);
            }
            assert(b <= 28);
        }
        let cap: usize = 4 * p;
        let mut key: Vec<u64> = Vec::new();
        let mut val: Vec<u32> = Vec::new();
        let mut i: usize = 0;
        while i < cap
            invariant
                i <= cap,
                key@.len() == i,
                val@.len() == i,
                forall|j: int| 0 <= j < i ==> key@[j] == EMPTY,
                count_used(key@) == 0,
            decreases cap - i,
        {
            let ghost before = key@;
            key.push(EMPTY);
            val.push(0);
            proof {
                assert(key@.drop_last() =~= before);
            }
            i = i + 1;
        }
        let r = Table256bit {
            key,
            val,
            size: cap - 1,
            bits: Ghost(b + 2),
            contents: Ghost(Map::empty()),
        };
        proof {
            assert forall|k: u32|
                #[trigger] r.contents@.contains_key(k) <==> exists|i: int|
                    0 <= i < r.capacity() && r.key@[i] == k as u64 by {
                if exists|i: int| 0 <= i < r.capacity() && r.key@[i] == k as u64 {
                    let i = choose|i: int| 0 <= i < r.capacity() && r.key@[i] == k as u64;
                    assert(r.key@[i] == EMPTY);
                }
            }
        }
        assert(r.size as nat == low_bits_mask(r.bits@));
        assert(r.capacity() == pow2(r.bits@));
        r
    }

    proof fn lemma_home(&self, x: usize)
        requires
            self.wf(),
        ensures
            x & self.size == self.home(x as u64),
            0 <= self.home(x as u64) < self.capacity(),
    {
        lemma_usize_low_bits_mask_is_mod(x, self.bits@);
    }

    proof fn lemma_has_empty(&self) -> (e: int)
        requires
            self.wf(),
        ensures
            0 <= e < self.capacity(),
            !self.occ(e),
    {
        lemma_count_has_empty(self.key@);
        choose|i: int| 0 <= i < self.key@.len() && self.key@[i] == EMPTY
    }

    /// Probes from the key's home slot in blocks of four slots. Within a
    /// block a slot holding the key wins over an empty one; a block with
    /// neither sends the probe on to the next four slots.
    fn locate(&self, key: u32) -> (r: Probe)
        requires
            self.wf(),
        ensures
            match r {
                Probe::Found(p) => p < self.capacity() && self.key@[p as int] == key as u64,
                Probe::Vacant(p) => {
                    &&& p < self.capacity()
                    &&& self.key@[p as int] == EMPTY
                    &&& !self@.contains_key(key)
                    &&& forall|t: int|
                        0 <= t < self.dist(self.home(key as u64), p as int) ==> self.occ(
                            #[trigger] self.probe(self.home(key as u64), t),
                        )
                },
            },
    {
        let k: u64 = key as u64;
        proof {
            self.lemma_home(key as usize);
        }
        let ghost h = self.home(k);
        let mut pos: usize = (key as usize) & self.size;
        let ghost mut t: int = 0;
        loop
            invariant
                self.wf(),
                k == key as u64,
                h == self.home(k),
                0 <= h < self.capacity(),
                0 <= t < self.capacity(),
                pos as int == self.probe(h, t),
                forall|t2: int|
                    0 <= t2 < t ==> self.occ(#[trigger] self.probe(h, t2)) && self.key@[self.probe(
                        h,
                        t2,
                    )] != k,
            decreases self.capacity() - t,
        {
            let mut j: usize = 0;
            while j < 4
                invariant
                    self.wf(),
                    k == key as u64,
                    h == self.home(k),
                    0 <= h < self.capacity(),
                    0 <= t < self.capacity(),
                    pos as int == self.probe(h, t),
                    j <= 4,
                    forall|j2: int| 0 <= j2 < j ==> self.key@[#[trigger] self.probe(pos as int, j2)] != k,
                decreases 4 - j,
            {
                let q = self.step(pos, j);
                if self.key[q] == k {
                    return Probe::Found(q);
                }
                j = j + 1;
            }
            j = 0;
            while j < 4
                invariant
                    self.wf(),
                    k == key as u64,
                    h == self.home(k),
                    0 <= h < self.capacity(),
                    0 <= t < self.capacity(),
                    pos as int == self.probe(h, t),
                    j <= 4,
                    forall|j2: int| 0 <= j2 < 4 ==> self.key@[#[trigger] self.probe(pos as int, j2)] != k,
                    forall|j2: int| 0 <= j2 < j ==> self.occ(#[trigger] self.probe(pos as int, j2)),
                    forall|t2: int|
                        0 <= t2 < t ==> self.occ(#[trigger] self.probe(h, t2)) && self.key@[self.probe(
                            h,
                            t2,
                        )] != k,
                decreases 4 - j,
            {
                let q = self.step(pos, j);
                if self.key[q] == EMPTY {
                    proof {
                        if t + j >= self.capacity() {
                            assert(q == self.probe(h, t + j - self.capacity()));
                        }
                        assert(q == self.probe(h, t + j));
                        assert(self.dist(h, q as int) == t + j);
                        assert forall|t2: int| 0 <= t2 < self.dist(h, q as int) implies self.occ(
                            #[trigger] self.probe(h, t2),
                        ) by {
                            if t2 >= t {
                                assert(self.probe(h, t2) == self.probe(pos as int, t2 - t));
                            }
                        }
                        if self@.contains_key(key) {
                            let i = choose|i: int| 0 <= i < self.capacity() && self.key@[i] == k;
                            let d = self.dist(h, i);
                            assert(self.probe(h, d) == i);
                            if d < t {
                                assert(self.key@[self.probe(h, d)] != k);
                            } else if d < t + 4 {
                                assert(self.probe(h, d) == self.probe(pos as int, d - t));
                            } else {
                                assert(self.occ(self.probe(self.home(self.key@[i]), t + j)));
                            }
                        }
                    }
                    return Probe::Vacant(q);
                }
                j = j + 1;
            }
            proof {
                assert forall|t2: int| t <= t2 < t + 4 && t2 < self.capacity() implies self.occ(
                    #[trigger] self.probe(h, t2),
                ) && self.key@[self.probe(h, t2)] != k by {
                    assert(self.probe(h, t2) == self.probe(pos as int, t2 - t));
                }
                if t + 4 >= self.capacity() {
                    let e = self.lemma_has_empty();
                    let d = self.dist(h, e);
                    assert(self.probe(h, d) == e);
                    assert(self.occ(self.probe(h, d)));
                }
            }
            pos = self.step(pos, 4);
            proof {
                t = t + 4;
            }
        }
    }

    /// Writes a key that the table does not hold into the empty slot `p`,
    /// which lies after an unbroken run of full slots from the key's home.
    fn fill(&mut self, p: usize, key: u32, v: u32)
        requires
            old(self).wf(),
            old(self).occupancy() + 1 < old(self).capacity(),
            p < old(self).capacity(),
            old(self).key@[p as int] == EMPTY,
            !old(self)@.contains_key(key),
            forall|t: int|
                0 <= t < old(self).dist(old(self).home(key as u64), p as int) ==> old(self).occ(
                    #[trigger] old(self).probe(old(self).home(key as u64), t),
                ),
        ensures
            final(self).wf(),
            final(self)@ == old(self)@.insert(key, v),
            final(self).capacity() == old(self).capacity(),
            final(self).occupancy() == old(self).occupancy() + 1,
    {
        let ghost pre = *self;
        proof {
            lemma_count_fill(self.key@, p as int, key as u64);
        }
        self.key.set(p, key as u64);
        self.val.set(p, v);
        self.contents = Ghost(pre.contents@.insert(key, v));
        let ghost h = self.home(key as u64);
        assert(self.key@ == pre.key@.update(p as int, key as u64));
        assert forall|i: int| 0 <= i < self.capacity() && self.occ(i) implies self.key@[i] <= u32::MAX by {
            if i != p {
                assert(pre.occ(i));
            }
        }
        assert forall|i: int, t: int|
            0 <= i < self.capacity() && self.occ(i) && 0 <= t < self.dist(
                self.home(self.key@[i]),
                i,
            ) implies self.occ(#[trigger] self.probe(self.home(self.key@[i]), t)) by {
            if i != p {
                assert(pre.occ(i));
                assert(pre.occ(pre.probe(pre.home(pre.key@[i]), t)));
            } else {
                assert(self.key@[i] == key as u64);
                assert(t < old(self).dist(old(self).home(key as u64), p as int));
                assert(old(self).occ(old(self).probe(old(self).home(key as u64), t)));
            }
        }
        assert forall|i: int, j: int|
            0 <= i < self.capacity() && 0 <= j < self.capacity() && self.occ(i)
                && #[trigger] self.key@[i] == #[trigger] self.key@[j] implies i == j by {
            if i == p && j != p {
                assert(pre.key@[j] == key as u64);
            } else if j == p && i != p {
                assert(pre.key@[i] == key as u64);
            }
        }
        assert forall|k: u32|
            #[trigger] self.contents@.contains_key(k) <==> exists|i: int|
                0 <= i < self.capacity() && self.key@[i] == k as u64 by {
            if k == key {
                assert(self.key@[p as int] == k as u64);
            } else if pre.contents@.contains_key(k) {
                let i = choose|i: int| 0 <= i < pre.capacity() && pre.key@[i] == k as u64;
                assert(self.key@[i] == k as u64);
            } else if exists|i: int| 0 <= i < self.capacity() && self.key@[i] == k as u64 {
                let i = choose|i: int| 0 <= i < self.capacity() && self.key@[i] == k as u64;
                assert(pre.key@[i] == k as u64);
            }
        }
        assert forall|i: int| 0 <= i < self.capacity() && self.occ(i) implies self.contents@.contains_key(
            #[trigger] self.key@[i] as u32,
        ) && self.contents@[self.key@[i] as u32] == self.val@[i] by {
            if i != p {
                assert(pre.occ(i));
                assert(pre.contents@.contains_key(pre.key@[i] as u32));
                if pre.key@[i] as u32 == key {
                    assert(pre.key@[i] == key as u64);
                }
            }
        }
    }

    /// Stores `v` under `key`, replacing what the key held before.
    pub fn insert(&mut self, key: u32, v: u32)
        requires
            old(self).wf(),
            old(self).occupancy() + 1 < old(self).capacity(),
        ensures
            final(self).wf(),
            final(self)@ == old(self)@.insert(key, v),
            final(self).capacity() == old(self).capacity(),
            final(self).occupancy() == old(self).occupancy() + if old(self)@.contains_key(key) {
                0nat
            } else {
                1nat
            },
    {
        proof {
            self.lemma_home(key as usize);
        }
        let home: usize = (key as usize) & self.size;
        if self.key[home] == EMPTY {
            proof {
                let h = self.home(key as u64);
                if self@.contains_key(key) {
                    let i = choose|i: int| 0 <= i < self.capacity() && self.key@[i] == key as u64;
                    assert(self.occ(self.probe(self.home(self.key@[i]), 0)));
                }
                assert(self.dist(h, home as int) == 0);
            }
            self.fill(home, key, v);
            return;
        }
        match self.locate(key) {
            Probe::Found(p) => {
                let ghost pre = *self;
                self.val.set(p, v);
                self.contents = Ghost(pre.contents@.insert(key, v));
                proof {
                    assert(self.key@ == pre.key@);
                    assert(self.size == pre.size && self.bits@ == pre.bits@);
                    assert(pre.contents@.contains_key(key));
                    assert(self.contents@ == pre.contents@.insert(key, v));
                    assert forall|i: int| 0 <= i < self.capacity() && self.occ(i) implies self.contents@.contains_key(
                        #[trigger] self.key@[i] as u32,
                    ) && self.contents@[self.key@[i] as u32] == self.val@[i] by {
                        assert(pre.occ(i));
                        assert(pre.key@[i] <= u32::MAX);
                        assert(pre.contents@.contains_key(pre.key@[i] as u32));
                        if i != p && pre.key@[i] as u32 == key {
                            assert(pre.key@[i] == key as u64);
                            assert(pre.key@[i] == pre.key@[p as int]);
                        }
                    }
                    assert forall|k: u32|
                        #[trigger] self.contents@.contains_key(k) <==> exists|i: int|
                            0 <= i < self.capacity() && self.key@[i] == k as u64 by {
                        assert(self.key@ == pre.key@);
                        assert(pre.contents@.contains_key(k) == self.contents@.contains_key(k));
                    }
                    assert forall|i: int| 0 <= i < self.capacity() && self.occ(i) implies self.key@[i] <= u32::MAX by {
                        assert(pre.occ(i));
                    }
                    assert forall|i: int, t: int|
                        0 <= i < self.capacity() && self.occ(i) && 0 <= t < self.dist(
                            self.home(self.key@[i]),
                            i,
                        ) implies self.occ(#[trigger] self.probe(self.home(self.key@[i]), t)) by {
                        assert(pre.occ(i));
                        assert(pre.occ(pre.probe(pre.home(pre.key@[i]), t)));
                    }
                }
            },
            Probe::Vacant(p) => {
                self.fill(p, key, v);
            },
        }
    }

    /// The value stored under `key`, if any.
    pub fn search(&self, key: u32) -> (r: Option<u32>)
        requires
            self.wf(),
        ensures
            r == if self@.contains_key(key) {
                Some(self@[key])
            } else {
                None
            },
    {
        match self.locate(key) {
            Probe::Found(p) => {
                proof {
                    assert(self.occ(p as int));
                    assert(self.key@[p as int] as u32 == key);
                }
                Some(self.val[p])
            },
            Probe::Vacant(_) => None,
        }
    }

    /// A table sized for `entries` that holds them, inserted in order.
    pub fn build(entries: &Vec<(u32, u32)>) -> (r: Self)
        requires
            entries@.len() <= MAX_HINT,
        ensures
            r.wf(),
            r@ == inserts_map(entries@),
            r.capacity() == slot_count(entries@.len()),
            r.capacity() >= 4 * entries@.len(),
            r.occupancy() <= entries@.len(),
    {
        let n = entries.len();
        let mut t = Table256bit::new(n);
        let mut i: usize = 0;
        while i < n
            invariant
                n == entries@.len() <= MAX_HINT,
                i <= n,
                t.wf(),
                t@ == inserts_map(entries@.subrange(0, i as int)),
                t.capacity() == slot_count(n as nat),
                t.capacity() >= 4 * n,
                t.occupancy() <= i,
            decreases n - i,
        {
            let (k, v) = entries[i];
            t.insert(k, v);
            proof {
                assert(entries@.subrange(0, i + 1).drop_last() =~= entries@.subrange(0, i as int));
            }
            i = i + 1;
        }
        proof {
            assert(entries@.subrange(0, n as int) =~= entries@);
        }
        t
    }

    /// The slot `j` steps after slot `p`.
    fn step(&self, p: usize, j: usize) -> (r: usize)
        requires
            self.wf(),
            p < self.capacity(),
            j <= 4,
        ensures
            r as int == self.probe(p as int, j as int),
            r < self.capacity(),
    {
        proof {
            self.lemma_mask((p + j) as usize);
        }
        (p + j) & self.size
    }
}

} // verus!
