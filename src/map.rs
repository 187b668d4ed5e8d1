use vstd::prelude::*;

use crate::key::HashKey;
use crate::table::{
    count_occ, count_tomb, dist, holds, home, home_index, key_of, lemma_absent, lemma_bury,
    lemma_count_bound, lemma_count_empty, lemma_count_update, lemma_home_bound, lemma_overwrite,
    lemma_place, lemma_prefix_count, lemma_slot_dist, lemma_view_exact, reachable, slot,
    slot_index, table_holds, val_of, view_of, Bucket, same_slot, lemma_copy,
};

verus! {

/// The map after inserting each pair of `s` in turn into `m`.
pub open spec fn after_inserts<K, V>(m: Map<K, V>, s: Seq<(K, V)>) -> Map<K, V>
    decreases s.len(),
{
    if s.len() == 0 {
        m
    } else {
        after_inserts(m, s.drop_last()).insert(s.last().0, s.last().1)
    }
}

/// The table grows once more than `MAX_LOAD_NUM / MAX_LOAD_DEN` of its
/// slots are occupied or tombstones.
pub const MAX_LOAD_NUM: u128 = 3;

pub const MAX_LOAD_DEN: u128 = 4;

/// `used` slots out of `cap` is more than the table may fill before it grows.
pub open spec fn overloaded(used: nat, cap: nat) -> bool {
    used * MAX_LOAD_DEN > cap * MAX_LOAD_NUM
}

/// The capacity after one growth step: twice the old one, at least one,
/// at most `usize::MAX`.
pub open spec fn grown(c: nat) -> nat {
    if c == 0 {
        1
    } else if 2 * c > usize::MAX {
        usize::MAX as nat
    } else {
        2 * c
    }
}

/// The capacity that `reserve` picks when `n` entries overload `c` slots:
/// double until they do not, or until `usize::MAX`.
pub open spec fn grown_until(c: nat, n: nat) -> nat
    decreases usize::MAX - c,
{
    let g = grown(c);
    if c < usize::MAX && g < usize::MAX && overloaded(n, g) {
        grown_until(g, n)
    } else {
        g
    }
}

/// `shrink_to_fit` halves the table while the entries fill at most
/// `SHRINK_LOAD_NUM / SHRINK_LOAD_DEN` of the smaller table. At one, a shrunk
/// table may be full; the next insert of a new key then grows it first.
pub const SHRINK_LOAD_NUM: u128 = 1;

pub const SHRINK_LOAD_DEN: u128 = 1;

/// `n` entries fit in `c` slots by the shrink load.
pub open spec fn fits_shrunk(n: nat, c: nat) -> bool {
    n * SHRINK_LOAD_DEN <= c * SHRINK_LOAD_NUM
}

/// The capacity that `shrink_to_fit` picks for `n` entries in `c` slots:
/// halve while the entries still fit and the result stays at least one.
pub open spec fn shrunk(c: nat, n: nat) -> nat
    decreases c,
{
    if c > 1 && fits_shrunk(n, c / 2) {
        shrunk(c / 2, n)
    } else {
        c
    }
}

/// Where a probe for a key ended.
enum Probe {
    /// The slot that holds the key.
    Found(usize),
    /// The key is absent; this is the first free slot of its probe sequence.
    Vacant(usize),
    /// The key is absent and every slot is occupied.
    Full,
}

/// A hash map with open addressing, linear probing and tombstones.
#[verifier::reject_recursive_types(K)]
pub struct CHashMap<K, V> {
    buckets: Vec<Bucket<K, V>>,
    len: usize,
    tombstones: usize,
    keys: Ghost<Set<K>>,
}

impl<K: HashKey, V> View for CHashMap<K, V> {
    type V = Map<K, V>;

    closed spec fn view(&self) -> Map<K, V> {
        view_of(self.buckets@, self.keys@)
    }
}

impl<K: HashKey, V> CHashMap<K, V> {
    /// The representation invariant.
    pub closed spec fn wf(&self) -> bool {
        &&& table_holds(self.buckets@, self@)
        &&& self@.dom() == self.keys@
        &&& self.keys@.finite()
        &&& self.len == self.keys@.len()
        &&& self.len == count_occ(self.buckets@)
        &&& self.tombstones == count_tomb(self.buckets@)
    }

    /// Number of slots.
    pub closed spec fn cap(&self) -> nat {
        self.buckets@.len()
    }

    /// Number of slots left behind by removals.
    pub closed spec fn tombs(&self) -> nat {
        self.tombstones as nat
    }

    proof fn lemma_wf_facts(&self)
        requires
            self.wf(),
        ensures
            self@.len() + self.tombs() <= self.cap(),
            self@.len() + self.tombs() < self.cap() ==> exists|i: int|
                0 <= i < self.cap() && self.buckets@[i] is Empty,
            self.cap() == 0 ==> self@.len() == 0,
    {
        lemma_count_bound(self.buckets@);
    }

    /// A table of `cap` empty slots.
    fn empty_table(cap: usize) -> (r: Self)
        ensures
            r.wf(),
            r@ == Map::<K, V>::empty(),
            r.cap() == cap,
            r.tombs() == 0,
    {
        let mut buckets: Vec<Bucket<K, V>> = Vec::new();
        let mut i: usize = 0;
        while i < cap
            invariant
                i <= cap,
                buckets@.len() == i,
                forall|j: int| 0 <= j < i ==> buckets@[j] is Empty,
            decreases cap - i,
        {
            buckets.push(Bucket::Empty);
            i += 1;
        }
        let r = CHashMap { buckets, len: 0, tombstones: 0, keys: Ghost(Set::empty()) };
        proof {
            lemma_count_empty(buckets@);
            assert(r@.dom() =~= Set::<K>::empty());
            assert(r@ =~= Map::<K, V>::empty());
        }
        r
    }

    /// Runs the probe sequence of `k`.
    fn find(&self, k: &K) -> (r: Probe)
        requires
            self.wf(),
        ensures
            match r {
                Probe::Found(i) => holds(self.buckets@, i as int, *k) && self@.contains_key(*k)
                    && self@[*k] == val_of(self.buckets@[i as int]),
                Probe::Vacant(i) => {
                    &&& i < self.cap()
                    &&& !(self.buckets@[i as int] is Occupied)
                    &&& !self@.contains_key(*k)
                    &&& forall|t: int|
                        0 <= t < dist(home(*k, self.cap() as int), i as int, self.cap() as int)
                            ==> (#[trigger] self.buckets@[slot(
                            home(*k, self.cap() as int),
                            t,
                            self.cap() as int,
                        )]) is Occupied
                },
                Probe::Full => !self@.contains_key(*k) && forall|i: int|
                    0 <= i < self.cap() ==> (#[trigger] self.buckets@[i]) is Occupied,
            },
    {
        let cap = self.buckets.len();
        if cap == 0 {
            proof {
                self.lemma_wf_facts();
                if self@.contains_key(*k) {
                    assert(self@.dom().contains(*k));
                }
            }
            return Probe::Full;
        }
        let ghost s = self.buckets@;
        let ghost c = cap as int;
        let h = home_index(k, cap);
        let mut free: Option<usize> = None;
        let mut t: usize = 0;
        while t < cap
            invariant
                self.wf(),
                s == self.buckets@,
                c == cap,
                cap == s.len(),
                cap > 0,
                h == home(*k, c),
                h < cap,
                t <= cap,
                forall|u: int| 0 <= u < t ==> !holds(s, #[trigger] slot(h as int, u, c), *k),
                forall|u: int| 0 <= u < t ==> !(s[#[trigger] slot(h as int, u, c)] is Empty),
                free is None ==> forall|u: int|
                    0 <= u < t ==> (s[#[trigger] slot(h as int, u, c)] is Occupied),
                free matches Some(f) ==> {
                    &&& f < cap
                    &&& !(s[f as int] is Occupied)
                    &&& dist(h as int, f as int, c) < t
                    &&& forall|u: int|
                        0 <= u < dist(h as int, f as int, c) ==> (s[#[trigger] slot(
                            h as int,
                            u,
                            c,
                        )] is Occupied)
                },
            decreases cap - t,
        {
            let i = slot_index(h, t, cap);
            proof {
                lemma_slot_dist(h as int, 0, t as int, c);
            }
            match &self.buckets[i] {
                Bucket::Empty => {
                    proof {
                        lemma_absent(s, self@, *k, t as int);
                    }
                    match free {
                        Some(f) => {
                            return Probe::Vacant(f);
                        },
                        None => {
                            return Probe::Vacant(i);
                        },
                    }
                },
                Bucket::Tombstone => {
                    if free.is_none() {
                        free = Some(i);
                    }
                },
                Bucket::Occupied(key, _) => {
                    if key.key_eq(k) {
                        return Probe::Found(i);
                    }
                },
            }
            t += 1;
        }
        proof {
            lemma_absent(s, self@, *k, c);
        }
        match free {
            Some(f) => Probe::Vacant(f),
            None => {
                proof {
                    assert forall|i: int| 0 <= i < c implies (#[trigger] s[i]) is Occupied by {
                        lemma_slot_dist(h as int, i, 0, c);
                        assert(s[slot(h as int, dist(h as int, i, c), c)] is Occupied);
                    }
                }
                Probe::Full
            },
        }
    }

    /// Writes `v` over the value of the key held in slot `i`.
    fn overwrite_at(&mut self, i: usize, k: K, v: V) -> (r: V)
        requires
            old(self).wf(),
            holds(old(self).buckets@, i as int, k),
        ensures
            final(self).wf(),
            final(self)@ == old(self)@.insert(k, v),
            r == old(self)@[k],
            final(self).cap() == old(self).cap(),
            final(self).tombs() == old(self).tombs(),
    {
        let ghost s = self.buckets@;
        let ghost m = self@;
        let ghost gk = k;
        let ghost gv = v;
        let mut b = Bucket::Occupied(k, v);
        self.buckets.set_and_swap(i, &mut b);
        proof {
            lemma_overwrite(s, m, i as int, gk, gv);
            lemma_count_update(s, i as int, Bucket::Occupied(gk, gv));
            assert(m.insert(gk, gv).dom() =~= self.keys@);
            lemma_view_exact(self.buckets@, m.insert(gk, gv));
        }
        b.into_value()
    }

    /// Inserts into a table that has an empty slot, without resizing.
    fn insert_within(&mut self, k: K, v: V) -> (r: Option<V>)
        requires
            old(self).wf(),
            old(self)@.len() + old(self).tombs() < old(self).cap(),
        ensures
            final(self).wf(),
            final(self)@ == old(self)@.insert(k, v),
            r == (if old(self)@.contains_key(k) {
                Some(old(self)@[k])
            } else {
                None::<V>
            }),
            final(self).cap() == old(self).cap(),
            final(self).tombs() <= old(self).tombs(),
            final(self)@.len() + final(self).tombs() <= old(self)@.len() + old(self).tombs() + 1,
    {
        proof {
            self.lemma_wf_facts();
        }
        match self.find(&k) {
            Probe::Found(i) => Some(self.overwrite_at(i, k, v)),
            Probe::Vacant(i) => {
                let cap = self.buckets.len();
                let ghost s = self.buckets@;
                let ghost m = self@;
                let ghost gk = k;
                let ghost gv = v;
                let mut b = Bucket::Occupied(k, v);
                self.buckets.set_and_swap(i, &mut b);
                proof {
                    lemma_home_bound(gk, s.len() as int);
                    lemma_place(s, m, i as int, gk, gv);
                    lemma_count_update(s, i as int, Bucket::Occupied(gk, gv));
                    self.keys = Ghost(self.keys@.insert(gk));
                    assert(m.insert(gk, gv).dom() =~= self.keys@);
                    lemma_view_exact(self.buckets@, m.insert(gk, gv));
                }
                if let Bucket::Tombstone = b {
                    self.tombstones = self.tombstones - 1;
                }
                assert(self.len < cap);
                self.len = self.len + 1;
                None
            },
            Probe::Full => {
                proof {
                    let i = choose|i: int| 0 <= i < self.cap() && self.buckets@[i] is Empty;
                    assert(self.buckets@[i] is Occupied);
                }
                None
            },
        }
    }

    /// Moves every entry into a fresh table of `new_cap` slots, dropping the
    /// tombstones.
    fn rehash(&mut self, new_cap: usize)
        requires
            old(self).wf(),
            old(self)@.len() <= new_cap,
        ensures
            final(self).wf(),
            final(self)@ == old(self)@,
            final(self).cap() == new_cap,
            final(self).tombs() == 0,
    {
        let mut fresh: Self = Self::empty_table(new_cap);
        let ghost s0 = self.buckets@;
        let ghost m0 = self@;
        let cap = self.buckets.len();
        let mut j: usize = 0;
        while j < cap
            invariant
                fresh.wf(),
                fresh.cap() == new_cap,
                fresh.tombs() == 0,
                self.buckets@.len() == cap,
                s0.len() == cap,
                table_holds(s0, m0),
                m0.dom().finite(),
                m0.len() <= new_cap,
                j <= cap,
                forall|i: int| j <= i < cap ==> self.buckets@[i] == s0[i],
                forall|kk: K|
                    #[trigger] fresh@.contains_key(kk) ==> m0.contains_key(kk) && fresh@[kk] == m0[kk]
                        && exists|i: int| 0 <= i < j && holds(s0, i, kk),
                forall|i: int|
                    0 <= i < j && (#[trigger] s0[i]) is Occupied ==> fresh@.contains_key(key_of(s0[i])),
            decreases cap - j,
        {
            let mut b = Bucket::Empty;
            self.buckets.set_and_swap(j, &mut b);
            match b {
                Bucket::Occupied(k, v) => {
                    proof {
                        assert(s0[j as int] is Occupied);
                        if fresh@.contains_key(k) {
                            let i = choose|i: int| 0 <= i < j && holds(s0, i, k);
                            assert(s0[i] is Occupied);
                        }
                        assert(fresh@.dom().subset_of(m0.dom().remove(k)));
                        vstd::set_lib::lemma_len_subset(fresh@.dom(), m0.dom().remove(k));
                        fresh.lemma_wf_facts();
                    }
                    fresh.insert_within(k, v);
                    proof {
                        assert forall|kk: K| #[trigger] fresh@.contains_key(kk) implies m0.contains_key(kk)
                            && fresh@[kk] == m0[kk] && exists|i: int| 0 <= i < j + 1 && holds(s0, i, kk) by {
                            if kk == k {
                                assert(holds(s0, j as int, kk));
                            }
                        }
                    }
                },
                _ => {},
            }
            j += 1;
        }
        proof {
            assert forall|kk: K| #[trigger] m0.contains_key(kk) implies fresh@.contains_key(kk) by {
                let i = choose|i: int| holds(s0, i, kk);
                assert(s0[i] is Occupied);
            }
            assert(fresh@ =~= m0);
        }
        *self = fresh;
    }

    /// An empty map with no slots.
    pub fn new() -> (r: Self)
        ensures
            r.wf(),
            r@ == Map::<K, V>::empty(),
            r.cap() == 0,
            r.tombs() == 0,
    {
        Self::empty_table(0)
    }

    /// An empty map that holds `n` entries before it grows: the fewest
    /// slots that `n` entries do not overload.
    pub fn with_capacity(n: usize) -> (r: Self)
        requires
            n * MAX_LOAD_DEN <= usize::MAX * MAX_LOAD_NUM,
        ensures
            r.wf(),
            r@ == Map::<K, V>::empty(),
            !overloaded(n as nat, r.cap()),
            r.cap() == 0 || overloaded(n as nat, (r.cap() - 1) as nat),
            r.tombs() == 0,
    {
        let want = (n as u128) * MAX_LOAD_DEN;
        let cap = (want + MAX_LOAD_NUM - 1) / MAX_LOAD_NUM;
        proof {
            assert(cap * 3 >= want && (cap == 0 || (cap - 1) * 3 < want)) by (nonlinear_arith)
                requires
                    cap == (want + 2) / 3,
                    want >= 0,
            ;
        }
        Self::empty_table(cap as usize)
    }

    /// Number of entries.
    pub fn len(&self) -> (r: usize)
        requires
            self.wf(),
        ensures
            r == self@.len(),
    {
        self.len
    }

    pub fn is_empty(&self) -> (r: bool)
        requires
            self.wf(),
        ensures
            r == (self@.len() == 0),
            r == (self@ == Map::<K, V>::empty()),
    {
        proof {
            if self@.len() == 0 {
                assert(self@.dom() =~= Set::<K>::empty());
                assert(self@ =~= Map::<K, V>::empty());
            }
        }
        self.len == 0
    }

    /// Number of slots.
    pub fn capacity(&self) -> (r: usize)
        requires
            self.wf(),
        ensures
            r == self.cap(),
            r >= self@.len(),
    {
        proof {
            self.lemma_wf_facts();
        }
        self.buckets.len()
    }

    /// The value under `k`, if any.
    pub fn get(&self, k: &K) -> (r: Option<&V>)
        requires
            self.wf(),
        ensures
            r is Some == self@.contains_key(*k),
            r matches Some(v) ==> *v == self@[*k],
    {
        match self.find(k) {
            Probe::Found(i) => match &self.buckets[i] {
                Bucket::Occupied(_, v) => Some(v),
                _ => None,
            },
            _ => None,
        }
    }

    pub fn contains_key(&self, k: &K) -> (r: bool)
        requires
            self.wf(),
        ensures
            r == self@.contains_key(*k),
    {
        match self.find(k) {
            Probe::Found(_) => true,
            _ => false,
        }
    }

    /// The value under `k`, to be changed in place. Whatever the caller
    /// writes through it is the value under `k` afterwards.
    pub fn get_mut(&mut self, k: &K) -> (r: Option<&mut V>)
        requires
            old(self).wf(),
        ensures
            r is Some == old(self)@.contains_key(*k),
            r matches Some(v) ==> *v == old(self)@[*k],
            r matches Some(v) ==> final(self).wf() && final(self)@ == old(self)@.insert(*k, *final(v))
                && final(self).cap() == old(self).cap(),
            r is None ==> *final(self) == *old(self),
    {
        match self.find(k) {
            Probe::Found(i) => {
                let ghost s = self.buckets@;
                let ghost m = self@;
                proof {
                    assert forall|v: V| #![trigger s.update(i as int, Bucket::Occupied(*k, v))]
                        table_holds(s.update(i as int, Bucket::Occupied(*k, v)), m.insert(*k, v))
                            && view_of(s.update(i as int, Bucket::Occupied(*k, v)), self.keys@)
                            == m.insert(*k, v) && m.insert(*k, v).dom() == self.keys@ && count_occ(
                            s.update(i as int, Bucket::Occupied(*k, v)),
                        ) == count_occ(s) && count_tomb(s.update(i as int, Bucket::Occupied(*k, v)))
                            == count_tomb(s) by {
                        lemma_overwrite(s, m, i as int, *k, v);
                        lemma_count_update(s, i as int, Bucket::Occupied(*k, v));
                        assert(m.insert(*k, v).dom() =~= self.keys@);
                        lemma_view_exact(s.update(i as int, Bucket::Occupied(*k, v)), m.insert(*k, v));
                    }
                }
                let b = &mut self.buckets[i];
                match b {
                    Bucket::Occupied(_, x) => Some(x),
                    _ => None,
                }
            },
            _ => None,
        }
    }

    /// Grows to `grown(capacity)` slots.
    fn grow(&mut self)
        requires
            old(self).wf(),
        ensures
            final(self).wf(),
            final(self)@ == old(self)@,
            final(self).cap() == grown(old(self).cap()),
            final(self).tombs() == 0,
    {
        proof {
            self.lemma_wf_facts();
        }
        let cap = self.buckets.len();
        let new_cap = if cap == 0 {
            1
        } else if cap > usize::MAX / 2 {
            usize::MAX
        } else {
            cap * 2
        };
        self.rehash(new_cap);
    }

    /// Puts `v` under `k` and returns the value that was there. A table with
    /// no empty slot doubles first; one left overloaded doubles afterwards.
    pub fn insert(&mut self, k: K, v: V) -> (r: Option<V>)
        requires
            old(self).wf(),
            old(self)@.len() < usize::MAX || old(self)@.contains_key(k),
        ensures
            final(self).wf(),
            final(self)@ == old(self)@.insert(k, v),
            r == (if old(self)@.contains_key(k) {
                Some(old(self)@[k])
            } else {
                None::<V>
            }),
            final(self).cap() >= old(self).cap(),
            final(self).cap() == old(self).cap() || final(self).cap() == grown(old(self).cap())
                || final(self).cap() == grown(grown(old(self).cap())),
            old(self)@.contains_key(k) ==> final(self).cap() == old(self).cap(),
            final(self).tombs() <= old(self).tombs(),
            !old(self)@.contains_key(k) && old(self).tombs() == 0 && old(self)@.len() < old(
                self,
            ).cap() ==> final(self).cap() == if overloaded(
                (old(self)@.len() + 1) as nat,
                old(self).cap(),
            ) {
                grown(old(self).cap())
            } else {
                old(self).cap()
            },
            old(self).cap() == 0 ==> final(self).cap() == grown(grown(0)),
            !overloaded((old(self)@.len() + old(self).tombs() + 1) as nat, old(self).cap())
                ==> final(self).cap() == old(self).cap(),
    {
        match self.find(&k) {
            Probe::Found(i) => Some(self.overwrite_at(i, k, v)),
            _ => {
                proof {
                    self.lemma_wf_facts();
                }
                let cap = self.buckets.len();
                if self.len + self.tombstones == cap {
                    self.grow();
                }
                proof {
                    self.lemma_wf_facts();
                }
                let ghost before = self@;
                let ghost gk = k;
                let r = self.insert_within(k, v);
                proof {
                    self.lemma_wf_facts();
                    assert(self@.dom() =~= before.dom().insert(gk));
                }
                let cap = self.buckets.len();
                let used = (self.len + self.tombstones) as u128;
                if used * MAX_LOAD_DEN > (cap as u128) * MAX_LOAD_NUM {
                    self.grow();
                }
                r
            },
        }
    }

    /// Takes `k` out and returns its value. The slot becomes a tombstone;
    /// the capacity stays.
    pub fn remove(&mut self, k: &K) -> (r: Option<V>)
        requires
            old(self).wf(),
        ensures
            final(self).wf(),
            final(self)@ == old(self)@.remove(*k),
            r == (if old(self)@.contains_key(*k) {
                Some(old(self)@[*k])
            } else {
                None::<V>
            }),
            final(self).cap() == old(self).cap(),
            final(self).tombs() == if old(self)@.contains_key(*k) {
                old(self).tombs() + 1
            } else {
                old(self).tombs()
            },
    {
        match self.find(k) {
            Probe::Found(i) => {
                let cap = self.buckets.len();
                let ghost s = self.buckets@;
                let ghost m = self@;
                proof {
                    self.lemma_wf_facts();
                    lemma_bury(s, m, i as int, *k);
                    lemma_count_update(s, i as int, Bucket::Tombstone);
                    m.lemma_remove_key_len(*k);
                }
                let mut b = Bucket::Tombstone;
                self.buckets.set_and_swap(i, &mut b);
                proof {
                    self.keys = Ghost(self.keys@.remove(*k));
                    assert(m.remove(*k).dom() =~= self.keys@);
                    lemma_view_exact(self.buckets@, m.remove(*k));
                }
                self.len = self.len - 1;
                self.tombstones = self.tombstones + 1;
                Some(b.into_value())
            },
            _ => {
                proof {
                    assert(self@.remove(*k) =~= self@);
                }
                None
            },
        }
    }

    /// Makes room for `additional` more entries: when they would overload
    /// the table, doubles until they do not and rehashes. Never shrinks.
    pub fn reserve(&mut self, additional: usize)
        requires
            old(self).wf(),
        ensures
            final(self).wf(),
            final(self)@ == old(self)@,
            if overloaded(
                (old(self)@.len() + old(self).tombs() + additional) as nat,
                old(self).cap(),
            ) {
                &&& final(self).cap() == grown_until(
                    old(self).cap(),
                    (old(self)@.len() + additional) as nat,
                )
                &&& final(self).tombs() == 0
            } else {
                &&& final(self).cap() == old(self).cap()
                &&& final(self).tombs() == old(self).tombs()
            },
            final(self).cap() >= old(self).cap(),
            !overloaded((final(self)@.len() + final(self).tombs() + additional) as nat, final(self).cap())
                || final(self).cap() == usize::MAX,
    {
        proof {
            self.lemma_wf_facts();
        }
        let cap = self.buckets.len();
        let used = (self.len as u128) + (self.tombstones as u128) + (additional as u128);
        if used * MAX_LOAD_DEN <= (cap as u128) * MAX_LOAD_NUM {
            return;
        }
        if cap == usize::MAX {
            self.rehash(cap);
            return;
        }
        let ghost n = (self@.len() + additional) as nat;
        let need = ((self.len as u128) + (additional as u128)) * MAX_LOAD_DEN;
        let mut new_cap = cap;
        loop
            invariant_except_break
                new_cap < usize::MAX,
                grown_until(new_cap as nat, n) == grown_until(cap as nat, n),
            invariant
                new_cap >= cap,
                new_cap >= self.len,
                self.wf(),
                need == n * MAX_LOAD_DEN,
            ensures
                new_cap >= cap,
                new_cap >= self.len,
                new_cap == grown_until(cap as nat, n),
                new_cap == usize::MAX || need <= (new_cap as u128) * MAX_LOAD_NUM,
            decreases usize::MAX - new_cap,
        {
            let g = if new_cap == 0 {
                1
            } else if new_cap > usize::MAX / 2 {
                usize::MAX
            } else {
                new_cap * 2
            };
            assert(g == grown(new_cap as nat));
            if g < usize::MAX && need > (g as u128) * MAX_LOAD_NUM {
                new_cap = g;
            } else {
                new_cap = g;
                break;
            }
        }
        self.rehash(new_cap);
    }

    /// Halves the table while the entries still fit, down to one slot, and
    /// rehashes when that made it smaller.
    pub fn shrink_to_fit(&mut self)
        requires
            old(self).wf(),
        ensures
            final(self).wf(),
            final(self)@ == old(self)@,
            final(self).cap() == shrunk(old(self).cap(), old(self)@.len()),
            final(self).cap() <= old(self).cap(),
            final(self).cap() >= final(self)@.len(),
            final(self).tombs() == if final(self).cap() < old(self).cap() {
                0
            } else {
                old(self).tombs()
            },
    {
        proof {
            self.lemma_wf_facts();
        }
        let cap = self.buckets.len();
        let n = self.len;
        let mut target = cap;
        while target > 1 && (n as u128) * SHRINK_LOAD_DEN <= ((target / 2) as u128) * SHRINK_LOAD_NUM
            invariant
                shrunk(target as nat, n as nat) == shrunk(cap as nat, n as nat),
                target <= cap,
                n <= target,
            decreases target,
        {
            target = target / 2;
        }
        if target < cap {
            self.rehash(target);
        }
    }

    /// An iterator over the entries, in slot order.
    pub fn iter(&self) -> (r: Iter<'_, K, V>)
        requires
            self.wf(),
        ensures
            r.wf(),
            r.map_view() == self@,
            r.rest() == self@.len(),
            forall|i: int|
                0 <= i < r.rest() ==> self@.contains_key((#[trigger] r.remaining()[i]).0)
                    && self@[r.remaining()[i].0] == r.remaining()[i].1,
            forall|i: int, j: int|
                0 <= i < j < r.rest() ==> (#[trigger] r.remaining()[i]).0 != (
                #[trigger] r.remaining()[j]).0,
    {
        proof {
            assert(self.buckets@.subrange(0, 0) =~= Seq::<Bucket<K, V>>::empty());
            lemma_entries_from(self.buckets@, self@, 0);
            assert forall|i: int| 0 <= i < entries_from(self.buckets@, 0).len() implies self@.contains_key(
                (#[trigger] entries_from(self.buckets@, 0)[i]).0,
            ) && self@[entries_from(self.buckets@, 0)[i].0] == entries_from(self.buckets@, 0)[i].1 by {
                assert(held_from(self.buckets@, 0, entries_from(self.buckets@, 0)[i]));
                let q = choose|q: int|
                    0 <= q < self.buckets@.len() && holds(
                        self.buckets@,
                        q,
                        entries_from(self.buckets@, 0)[i].0,
                    ) && entries_from(self.buckets@, 0)[i].1 == val_of(self.buckets@[q]);
                assert(self.buckets@[q] is Occupied);
            }
        }
        Iter { map: self, pos: 0 }
    }

    /// The keys, in slot order.
    pub fn keys(&self) -> (r: Vec<&K>)
        requires
            self.wf(),
        ensures
            r@.len() == self@.len(),
            forall|i: int| 0 <= i < r@.len() ==> self@.contains_key(*r@[i]),
            forall|k: K| self@.contains_key(k) ==> exists|i: int| 0 <= i < r@.len() && *r@[i] == k,
    {
        let ghost s = self.buckets@;
        let cap = self.buckets.len();
        let mut r: Vec<&K> = Vec::new();
        let mut j: usize = 0;
        while j < cap
            invariant
                self.wf(),
                s == self.buckets@,
                cap == s.len(),
                j <= cap,
                r@.len() == count_occ(s.subrange(0, j as int)),
                forall|i: int| 0 <= i < r@.len() ==> self@.contains_key(*r@[i]),
                forall|p: int|
                    0 <= p < j && (#[trigger] s[p]) is Occupied ==> exists|i: int|
                        0 <= i < r@.len() && *r@[i] == key_of(s[p]),
            decreases cap - j,
        {
            proof {
                assert(s.subrange(0, j + 1).drop_last() =~= s.subrange(0, j as int));
            }
            let ghost r0 = r@;
            match &self.buckets[j] {
                Bucket::Occupied(k, _) => {
                    r.push(k);
                },
                _ => {},
            }
            proof {
                assert forall|p: int| 0 <= p < j + 1 && (#[trigger] s[p]) is Occupied implies exists|
                    i: int,
                | 0 <= i < r@.len() && *r@[i] == key_of(s[p]) by {
                    if p < j {
                        let i = choose|i: int| 0 <= i < r0.len() && *r0[i] == key_of(s[p]);
                        assert(r@[i] == r0[i]);
                    } else {
                        assert(*r@[r@.len() - 1] == key_of(s[p]));
                    }
                }
            }
            j += 1;
        }
        proof {
            assert(s.subrange(0, cap as int) =~= s);
            assert forall|k: K| self@.contains_key(k) implies exists|i: int|
                0 <= i < r@.len() && *r@[i] == k by {
                let p = choose|p: int| holds(s, p, k);
                assert(s[p] is Occupied);
            }
        }
        r
    }

    /// The values, in slot order.
    pub fn values(&self) -> (r: Vec<&V>)
        requires
            self.wf(),
        ensures
            r@.len() == self@.len(),
            forall|i: int| 0 <= i < r@.len() ==> self@.values().contains(*#[trigger] r@[i]),
            forall|k: K|
                self@.contains_key(k) ==> exists|i: int| 0 <= i < r@.len() && *r@[i] == self@[k],
    {
        let ghost s = self.buckets@;
        let cap = self.buckets.len();
        let mut r: Vec<&V> = Vec::new();
        let mut j: usize = 0;
        while j < cap
            invariant
                self.wf(),
                s == self.buckets@,
                cap == s.len(),
                j <= cap,
                r@.len() == count_occ(s.subrange(0, j as int)),
                forall|i: int| 0 <= i < r@.len() ==> self@.values().contains(*#[trigger] r@[i]),
                forall|p: int|
                    0 <= p < j && (#[trigger] s[p]) is Occupied ==> exists|i: int|
                        0 <= i < r@.len() && *r@[i] == val_of(s[p]),
            decreases cap - j,
        {
            proof {
                assert(s.subrange(0, j + 1).drop_last() =~= s.subrange(0, j as int));
            }
            let ghost r0 = r@;
            match &self.buckets[j] {
                Bucket::Occupied(_, v) => {
                    r.push(v);
                },
                _ => {},
            }
            proof {
                assert forall|p: int| 0 <= p < j + 1 && (#[trigger] s[p]) is Occupied implies exists|
                    i: int,
                | 0 <= i < r@.len() && *r@[i] == val_of(s[p]) by {
                    if p < j {
                        let i = choose|i: int| 0 <= i < r0.len() && *r0[i] == val_of(s[p]);
                        assert(r@[i] == r0[i]);
                    } else {
                        assert(*r@[r@.len() - 1] == val_of(s[p]));
                    }
                }
                assert forall|i: int| 0 <= i < r@.len() implies self@.values().contains(
                    *#[trigger] r@[i],
                ) by {
                    if i < r0.len() {
                        assert(r@[i] == r0[i]);
                    } else {
                        let k = key_of(s[j as int]);
                        assert(self@.contains_key(k) && self@[k] == *r@[i]);
                    }
                }
            }
            j += 1;
        }
        proof {
            assert(s.subrange(0, cap as int) =~= s);
            assert forall|k: K| self@.contains_key(k) implies exists|i: int|
                0 <= i < r@.len() && *r@[i] == self@[k] by {
                let p = choose|p: int| holds(s, p, k);
                assert(s[p] is Occupied);
            }
        }
        r
    }

    /// Takes the map apart into its entries, in slot order.
    pub fn into_entries(self) -> (r: Vec<(K, V)>)
        requires
            self.wf(),
        ensures
            r@.len() == self@.len(),
            forall|i: int|
                0 <= i < r@.len() ==> self@.contains_key(r@[i].0) && self@[r@[i].0] == r@[i].1,
            forall|k: K| self@.contains_key(k) ==> exists|i: int| 0 <= i < r@.len() && r@[i].0 == k,
    {
        let ghost s = self.buckets@;
        let ghost m = self@;
        let mut buckets = self.buckets;
        let cap = buckets.len();
        let mut r: Vec<(K, V)> = Vec::new();
        let mut j: usize = 0;
        while j < cap
            invariant
                table_holds(s, m),
                cap == s.len(),
                buckets@.len() == cap,
                forall|p: int| j <= p < cap ==> buckets@[p] == s[p],
                j <= cap,
                r@.len() == count_occ(s.subrange(0, j as int)),
                forall|i: int|
                    0 <= i < r@.len() ==> m.contains_key(r@[i].0) && m[r@[i].0] == r@[i].1,
                forall|p: int|
                    0 <= p < j && (#[trigger] s[p]) is Occupied ==> exists|i: int|
                        0 <= i < r@.len() && r@[i].0 == key_of(s[p]),
            decreases cap - j,
        {
            proof {
                assert(s.subrange(0, j + 1).drop_last() =~= s.subrange(0, j as int));
            }
            let mut b = Bucket::Empty;
            buckets.set_and_swap(j, &mut b);
            let ghost r0 = r@;
            match b {
                Bucket::Occupied(k, v) => {
                    r.push((k, v));
                },
                _ => {},
            }
            proof {
                assert forall|p: int| 0 <= p < j + 1 && (#[trigger] s[p]) is Occupied implies exists|
                    i: int,
                | 0 <= i < r@.len() && r@[i].0 == key_of(s[p]) by {
                    if p < j {
                        let i = choose|i: int| 0 <= i < r0.len() && r0[i].0 == key_of(s[p]);
                        assert(r@[i] == r0[i]);
                    } else {
                        assert(r@[r@.len() - 1].0 == key_of(s[p]));
                    }
                }
                assert forall|i: int| 0 <= i < r@.len() implies m.contains_key(r@[i].0) && m[r@[i].0]
                    == r@[i].1 by {
                    if i < r0.len() {
                        assert(r@[i] == r0[i]);
                    } else {
                        assert(s[j as int] is Occupied);
                        assert(r@[i] == (key_of(s[j as int]), val_of(s[j as int])));
                    }
                }
            }
            j += 1;
        }
        proof {
            assert(s.subrange(0, cap as int) =~= s);
            assert forall|k: K| m.contains_key(k) implies exists|i: int|
                0 <= i < r@.len() && r@[i].0 == k by {
                let p = choose|p: int| holds(s, p, k);
                assert(s[p] is Occupied);
            }
        }
        r
    }

    /// A map holding the pairs of `pairs`, inserted in order: a later pair
    /// overwrites an earlier one with the same key.
    pub fn from_pairs(pairs: Vec<(K, V)>) -> (r: Self)
        ensures
            r.wf(),
            r@ == after_inserts(Map::<K, V>::empty(), pairs@),
    {
        let ghost p = pairs@;
        let mut pairs = pairs;
        let mut rev: Vec<(K, V)> = Vec::new();
        while pairs.len() > 0
            invariant
                p.len() == pairs@.len() + rev@.len(),
                forall|i: int| 0 <= i < pairs@.len() ==> pairs@[i] == p[i],
                forall|i: int|
                    0 <= i < rev@.len() ==> rev@[i] == p[p.len() - 1 - i],
            decreases pairs@.len(),
        {
            let x = pairs.pop().unwrap();
            rev.push(x);
        }
        let mut map = Self::new();
        let n = rev.len();
        while rev.len() > 0
            invariant
                map.wf(),
                n == p.len(),
                rev@.len() <= n,
                forall|i: int| 0 <= i < rev@.len() ==> rev@[i] == p[p.len() - 1 - i],
                map@ == after_inserts(Map::<K, V>::empty(), p.subrange(0, n - rev@.len())),
                map@.len() <= n - rev@.len(),
            decreases rev@.len(),
        {
            let ghost done = (n - rev@.len()) as int;
            let (k, v) = rev.pop().unwrap();
            proof {
                assert(p.subrange(0, done + 1).drop_last() =~= p.subrange(0, done));
                assert(p.subrange(0, done + 1).last() == (k, v));
                if !map@.contains_key(k) {
                    assert(map@.insert(k, v).dom() =~= map@.dom().insert(k));
                } else {
                    assert(map@.insert(k, v).dom() =~= map@.dom());
                }
            }
            map.insert(k, v);
        }
        proof {
            assert(p.subrange(0, n as int) =~= p);
        }
        map
    }
}

impl<K: HashKey, V: Clone> Clone for CHashMap<K, V> {
    /// An independent copy: the same slots and keys, each value cloned.
    fn clone(&self) -> (r: Self)
        ensures
            self.wf() ==> {
                &&& r.wf()
                &&& r@.dom() == self@.dom()
                &&& forall|k: K| #[trigger] self@.contains_key(k) ==> cloned(self@[k], r@[k])
                &&& r.cap() == self.cap()
                &&& r.tombs() == self.tombs()
            },
    {
        let ghost s = self.buckets@;
        let cap = self.buckets.len();
        let mut buckets: Vec<Bucket<K, V>> = Vec::new();
        let mut j: usize = 0;
        while j < cap
            invariant
                s == self.buckets@,
                cap == s.len(),
                j <= cap,
                buckets@.len() == j,
                forall|i: int| 0 <= i < j ==> same_slot(#[trigger] s[i], buckets@[i]),
                forall|i: int|
                    0 <= i < j && (#[trigger] s[i]) is Occupied ==> cloned(val_of(s[i]), val_of(buckets@[i])),
            decreases cap - j,
        {
            let b = match &self.buckets[j] {
                Bucket::Empty => Bucket::Empty,
                Bucket::Tombstone => Bucket::Tombstone,
                Bucket::Occupied(k, v) => Bucket::Occupied(k.clone_key(), v.clone()),
            };
            buckets.push(b);
            j += 1;
        }
        let r = CHashMap {
            buckets,
            len: self.len,
            tombstones: self.tombstones,
            keys: Ghost(self.keys@),
        };
        proof {
            if self.wf() {
                lemma_copy(s, r.buckets@, self@);
                assert forall|k: K| #[trigger] self@.contains_key(k) implies cloned(self@[k], r@[k]) by {
                    let i = choose|i: int| holds(s, i, k);
                    assert(s[i] is Occupied);
                    assert(holds(s, i, key_of(s[i])));
                }
            }
        }
        r
    }
}

/// The entries in the slots from `p` on, in slot order.
pub open spec fn entries_from<K, V>(s: Seq<Bucket<K, V>>, p: int) -> Seq<(K, V)>
    decreases s.len() - p,
{
    if p < 0 || p >= s.len() {
        Seq::empty()
    } else if s[p] is Occupied {
        seq![(key_of(s[p]), val_of(s[p]))] + entries_from(s, p + 1)
    } else {
        entries_from(s, p + 1)
    }
}

/// Entry `e` is held in some slot from `p` on.
pub open spec fn held_from<K, V>(s: Seq<Bucket<K, V>>, p: int, e: (K, V)) -> bool {
    exists|q: int| p <= q < s.len() && holds(s, q, e.0) && e.1 == val_of(s[q])
}

/// The entries from slot `p` on are the occupied slots there, counted, each
/// from a slot of its own, with pairwise distinct keys.
proof fn lemma_entries_from<K: HashKey, V>(s: Seq<Bucket<K, V>>, m: Map<K, V>, p: int)
    requires
        table_holds(s, m),
        0 <= p <= s.len(),
    ensures
        entries_from(s, p).len() == count_occ(s) - count_occ(s.subrange(0, p)),
        forall|i: int|
            0 <= i < entries_from(s, p).len() ==> held_from(s, p, #[trigger] entries_from(s, p)[i]),
        forall|i: int, j: int|
            0 <= i < j < entries_from(s, p).len() ==> (#[trigger] entries_from(s, p)[i]).0
                != (#[trigger] entries_from(s, p)[j]).0,
    decreases s.len() - p,
{
    if p == s.len() {
        assert(s.subrange(0, p) =~= s);
        assert(entries_from(s, p).len() == 0);
    } else {
        lemma_entries_from(s, m, p + 1);
        assert(s.subrange(0, p + 1).drop_last() =~= s.subrange(0, p));
        let e = entries_from(s, p);
        let t = entries_from(s, p + 1);
        if s[p] is Occupied {
            assert(e == seq![(key_of(s[p]), val_of(s[p]))] + t);
            assert forall|i: int| 0 <= i < e.len() implies held_from(s, p, #[trigger] e[i]) by {
                if i == 0 {
                    assert(e[0] == (key_of(s[p]), val_of(s[p])));
                    assert(holds(s, p, e[0].0));
                } else {
                    assert(e[i] == t[i - 1]);
                    assert(held_from(s, p + 1, t[i - 1]));
                    let q = choose|q: int|
                        p + 1 <= q < s.len() && holds(s, q, t[i - 1].0) && t[i - 1].1 == val_of(s[q]);
                    assert(holds(s, q, e[i].0));
                }
            }
            assert forall|i: int, j: int| 0 <= i < j < e.len() implies (#[trigger] e[i]).0
                != (#[trigger] e[j]).0 by {
                assert(e[j] == t[j - 1]);
                if i == 0 {
                    assert(held_from(s, p + 1, t[j - 1]));
                    let q = choose|q: int|
                        p + 1 <= q < s.len() && holds(s, q, t[j - 1].0) && t[j - 1].1 == val_of(
                            s[q],
                        );
                    assert(s[q] is Occupied && s[p] is Occupied);
                } else {
                    assert(e[i] == t[i - 1]);
                }
            }
        } else {
            assert(e == t);
            assert forall|i: int| 0 <= i < e.len() implies held_from(s, p, #[trigger] e[i]) by {
                assert(held_from(s, p + 1, t[i]));
                let q = choose|q: int|
                    p + 1 <= q < s.len() && holds(s, q, t[i].0) && t[i].1 == val_of(s[q]);
                assert(holds(s, q, e[i].0));
            }
        }
    }
}

/// A cursor over the entries of a map, in slot order.
#[verifier::reject_recursive_types(K)]
pub struct Iter<'a, K, V> {
    map: &'a CHashMap<K, V>,
    pos: usize,
}

impl<'a, K: HashKey, V> Iter<'a, K, V> {
    pub closed spec fn wf(&self) -> bool {
        self.map.wf() && self.pos <= self.map.buckets@.len()
    }

    /// The map being walked.
    pub closed spec fn map_view(&self) -> Map<K, V> {
        self.map@
    }

    /// The entries not yet handed out, in the order they will come.
    pub closed spec fn remaining(&self) -> Seq<(K, V)> {
        entries_from(self.map.buckets@, self.pos as int)
    }

    /// Number of entries not yet handed out.
    pub open spec fn rest(&self) -> nat {
        self.remaining().len()
    }

    /// The next entry, if any.
    pub fn next(&mut self) -> (r: Option<(&'a K, &'a V)>)
        requires
            old(self).wf(),
        ensures
            final(self).wf(),
            final(self).map_view() == old(self).map_view(),
            r is None <==> old(self).rest() == 0,
            r is None ==> final(self).remaining() == old(self).remaining(),
            r matches Some(e) ==> (*e.0, *e.1) == old(self).remaining()[0]
                && final(self).remaining() == old(self).remaining().drop_first(),
            r matches Some(e) ==> old(self).map_view().contains_key(*e.0) && old(
                self,
            ).map_view()[*e.0] == *e.1,
    {
        let map: &'a CHashMap<K, V> = self.map;
        let ghost s = map.buckets@;
        let cap = map.buckets.len();
        while self.pos < cap
            invariant
                self.wf(),
                self.map == map,
                map == old(self).map,
                s == map.buckets@,
                cap == s.len(),
                self.remaining() == old(self).remaining(),
            decreases cap - self.pos,
        {
            let i = self.pos;
            self.pos = self.pos + 1;
            match &map.buckets[i] {
                Bucket::Occupied(k, v) => {
                    proof {
                        assert(s[i as int] is Occupied);
                        assert(map@.contains_key(key_of(s[i as int])));
                        assert(old(self).remaining() == seq![(key_of(s[i as int]), val_of(s[i as int]))]
                            + self.remaining());
                        assert(old(self).remaining().drop_first() =~= self.remaining());
                    }
                    return Some((k, v));
                },
                _ => {},
            }
        }
        None
    }

    /// Number of entries not yet handed out.
    pub fn len(&self) -> (r: usize)
        requires
            self.wf(),
        ensures
            r == self.rest(),
    {
        let map: &'a CHashMap<K, V> = self.map;
        let ghost s = map.buckets@;
        let cap = map.buckets.len();
        let mut j: usize = 0;
        let mut before: usize = 0;
        while j < self.pos
            invariant
                self.wf(),
                s == map.buckets@,
                self.map == map,
                j <= self.pos,
                before == count_occ(s.subrange(0, j as int)),
                before <= j,
            decreases self.pos - j,
        {
            proof {
                assert(s.subrange(0, j + 1).drop_last() =~= s.subrange(0, j as int));
            }
            if let Bucket::Occupied(_, _) = &map.buckets[j] {
                before = before + 1;
            }
            j += 1;
        }
        proof {
            lemma_prefix_count(s, self.pos as int, cap as int);
            lemma_entries_from(s, map@, self.pos as int);
        }
        map.len - before
    }

    /// The bounds on the number of entries left: both exact.
    pub fn size_hint(&self) -> (r: (usize, Option<usize>))
        requires
            self.wf(),
        ensures
            r.0 == self.rest(),
            r.1 == Some(r.0),
    {
        let n = self.len();
        (n, Some(n))
    }
}

} // verus!
