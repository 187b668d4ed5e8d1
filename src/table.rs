use vstd::prelude::*;

use crate::key::HashKey;

verus! {

/// One slot of the table.
pub enum Bucket<K, V> {
    Empty,
    Tombstone,
    Occupied(K, V),
}

impl<K, V> Bucket<K, V> {
    /// The value of an occupied slot.
    pub fn into_value(self) -> (r: V)
        requires
            self is Occupied,
        ensures
            r == val_of(self),
    {
        match self {
            Bucket::Occupied(_, v) => v,
            _ => unreached(),
        }
    }
}

pub open spec fn occ_ind<K, V>(b: Bucket<K, V>) -> nat {
    if b is Occupied {
        1
    } else {
        0
    }
}

pub open spec fn tomb_ind<K, V>(b: Bucket<K, V>) -> nat {
    if b is Tombstone {
        1
    } else {
        0
    }
}

/// Number of occupied slots.
pub open spec fn count_occ<K, V>(s: Seq<Bucket<K, V>>) -> nat
    decreases s.len(),
{
    if s.len() == 0 {
        0
    } else {
        count_occ(s.drop_last()) + occ_ind(s.last())
    }
}

/// Number of tombstones.
pub open spec fn count_tomb<K, V>(s: Seq<Bucket<K, V>>) -> nat
    decreases s.len(),
{
    if s.len() == 0 {
        0
    } else {
        count_tomb(s.drop_last()) + tomb_ind(s.last())
    }
}

/// The slot that the probe sequence starting at `h` visits at step `t`
/// (linear probing, wrapping round once).
pub open spec fn slot(h: int, t: int, cap: int) -> int {
    if h + t < cap {
        h + t
    } else {
        h + t - cap
    }
}

/// The step at which the probe sequence starting at `h` reaches slot `i`.
pub open spec fn dist(h: int, i: int, cap: int) -> int {
    if i >= h {
        i - h
    } else {
        i + cap - h
    }
}

/// The first slot that a key's probe sequence visits.
pub open spec fn home<K: HashKey>(k: K, cap: int) -> int {
    (k.spec_hash() as int) % cap
}

pub open spec fn key_of<K, V>(b: Bucket<K, V>) -> K {
    b->Occupied_0
}

pub open spec fn val_of<K, V>(b: Bucket<K, V>) -> V {
    b->Occupied_1
}

/// Slot `i` is occupied by key `k`.
pub open spec fn holds<K, V>(s: Seq<Bucket<K, V>>, i: int, k: K) -> bool {
    0 <= i < s.len() && s[i] is Occupied && key_of(s[i]) == k
}

/// No empty slot stands between the home of the key in slot `i` and slot `i`.
pub open spec fn reachable<K: HashKey, V>(s: Seq<Bucket<K, V>>, i: int) -> bool {
    let h = home(key_of(s[i]), s.len() as int);
    forall|t: int|
        0 <= t < dist(h, i, s.len() as int) ==> !(#[trigger] s[slot(h, t, s.len() as int)] is Empty)
}

/// The slots hold exactly the entries of `m`, each key once, each where a
/// probe from its home finds it.
pub open spec fn table_holds<K: HashKey, V>(s: Seq<Bucket<K, V>>, m: Map<K, V>) -> bool {
    &&& forall|i: int|
        0 <= i < s.len() && (#[trigger] s[i]) is Occupied ==> m.contains_key(key_of(s[i]))
            && m[key_of(s[i])] == val_of(s[i]) && reachable(s, i)
    &&& forall|k: K| #[trigger] m.contains_key(k) ==> exists|i: int| holds(s, i, k)
    &&& forall|i: int, j: int|
        #[trigger] s[i] is Occupied && #[trigger] s[j] is Occupied && 0 <= i < s.len() && 0 <= j
            < s.len() && key_of(s[i]) == key_of(s[j]) ==> i == j
}

/// The value in the slot that holds `k`.
pub open spec fn value_at<K, V>(s: Seq<Bucket<K, V>>, k: K) -> V {
    val_of(s[choose|i: int| holds(s, i, k)])
}

/// The map that the slots `s` hold for the keys `ks`.
pub open spec fn view_of<K, V>(s: Seq<Bucket<K, V>>, ks: Set<K>) -> Map<K, V> {
    Map::new(|k: K| ks.contains(k), |k: K| value_at(s, k))
}

/// Slots that hold the entries of `m` read back as `m`.
pub proof fn lemma_view_exact<K: HashKey, V>(s: Seq<Bucket<K, V>>, m: Map<K, V>)
    requires
        table_holds(s, m),
    ensures
        view_of(s, m.dom()) == m,
{
    let w = view_of(s, m.dom());
    assert(w.dom() =~= m.dom());
    assert forall|k: K| #[trigger] m.contains_key(k) implies w[k] == m[k] by {
        let i = choose|i: int| holds(s, i, k);
        assert(s[i] is Occupied);
    }
    assert(w =~= m);
}

/// Slot `i` of `s2` has the same state and key as slot `i` of `s`.
pub open spec fn same_slot<K, V>(a: Bucket<K, V>, b: Bucket<K, V>) -> bool {
    &&& (a is Empty <==> b is Empty)
    &&& (a is Tombstone <==> b is Tombstone)
    &&& (a is Occupied <==> b is Occupied)
    &&& (a is Occupied ==> key_of(a) == key_of(b))
}

/// A copy with the same slot states and keys holds the same keys, each
/// with the value of its own slot.
pub proof fn lemma_copy<K: HashKey, V>(s: Seq<Bucket<K, V>>, s2: Seq<Bucket<K, V>>, m: Map<K, V>)
    requires
        table_holds(s, m),
        s2.len() == s.len(),
        forall|i: int| 0 <= i < s.len() ==> same_slot(#[trigger] s[i], s2[i]),
    ensures
        table_holds(s2, view_of(s2, m.dom())),
        view_of(s2, m.dom()).dom() == m.dom(),
        count_occ(s2) == count_occ(s),
        count_tomb(s2) == count_tomb(s),
        forall|i: int| #[trigger] holds(s, i, key_of(s[i])) && s[i] is Occupied ==> view_of(s2, m.dom())[key_of(s[i])] == val_of(s2[i]),
{
    let w = view_of(s2, m.dom());
    assert(w.dom() =~= m.dom());
    assert forall|i: int| 0 <= i < s.len() && s[i] is Occupied implies w[key_of(s[i])] == val_of(s2[i]) by {
        let k = key_of(s[i]);
        assert(same_slot(s[i], s2[i]));
        assert(holds(s2, i, k));
        let j = choose|j: int| holds(s2, j, k);
        assert(same_slot(s[j], s2[j]));
        assert(s[j] is Occupied);
    }
    assert forall|i: int| 0 <= i < s2.len() && (#[trigger] s2[i]) is Occupied implies w.contains_key(
        key_of(s2[i]),
    ) && w[key_of(s2[i])] == val_of(s2[i]) && reachable(s2, i) by {
        assert(same_slot(s[i], s2[i]));
        assert(s[i] is Occupied);
        assert(reachable(s, i));
        let h = home(key_of(s2[i]), s.len() as int);
        assert forall|t: int| 0 <= t < dist(h, i, s.len() as int) implies !(
        #[trigger] s2[slot(h, t, s.len() as int)] is Empty) by {
            assert(!(s[slot(h, t, s.len() as int)] is Empty));
            if 0 <= slot(h, t, s.len() as int) < s.len() {
                assert(same_slot(s[slot(h, t, s.len() as int)], s2[slot(h, t, s.len() as int)]));
            }
        }
    }
    assert forall|k: K| #[trigger] w.contains_key(k) implies exists|j: int| holds(s2, j, k) by {
        let j = choose|j: int| holds(s, j, k);
        assert(same_slot(s[j], s2[j]));
        assert(holds(s2, j, k));
    }
    assert forall|a: int, b: int|
        #[trigger] s2[a] is Occupied && #[trigger] s2[b] is Occupied && 0 <= a < s2.len() && 0 <= b
            < s2.len() && key_of(s2[a]) == key_of(s2[b]) implies a == b by {
        assert(same_slot(s[a], s2[a]) && same_slot(s[b], s2[b]));
        assert(s[a] is Occupied && s[b] is Occupied);
    }
    lemma_copy_counts(s, s2);
}

proof fn lemma_copy_counts<K, V>(s: Seq<Bucket<K, V>>, s2: Seq<Bucket<K, V>>)
    requires
        s2.len() == s.len(),
        forall|i: int| 0 <= i < s.len() ==> same_slot(#[trigger] s[i], s2[i]),
    ensures
        count_occ(s2) == count_occ(s),
        count_tomb(s2) == count_tomb(s),
    decreases s.len(),
{
    if s.len() > 0 {
        assert(same_slot(s[s.len() - 1], s2[s.len() - 1]));
        lemma_copy_counts(s.drop_last(), s2.drop_last());
    }
}

pub proof fn lemma_slot_dist(h: int, i: int, t: int, cap: int)
    requires
        0 <= h < cap,
        0 <= i < cap,
        0 <= t < cap,
    ensures
        0 <= dist(h, i, cap) < cap,
        slot(h, dist(h, i, cap), cap) == i,
        0 <= slot(h, t, cap) < cap,
        dist(h, slot(h, t, cap), cap) == t,
{
}

pub proof fn lemma_home_bound<K: HashKey>(k: K, cap: int)
    requires
        cap > 0,
    ensures
        0 <= home(k, cap) < cap,
{
}

pub proof fn lemma_count_update<K, V>(s: Seq<Bucket<K, V>>, i: int, b: Bucket<K, V>)
    requires
        0 <= i < s.len(),
    ensures
        count_occ(s.update(i, b)) + occ_ind(s[i]) == count_occ(s) + occ_ind(b),
        count_tomb(s.update(i, b)) + tomb_ind(s[i]) == count_tomb(s) + tomb_ind(b),
    decreases s.len(),
{
    let u = s.update(i, b);
    if i == s.len() - 1 {
        assert(u.drop_last() =~= s.drop_last());
    } else {
        lemma_count_update(s.drop_last(), i, b);
        assert(u.drop_last() =~= s.drop_last().update(i, b));
    }
}

pub proof fn lemma_count_bound<K, V>(s: Seq<Bucket<K, V>>)
    ensures
        count_occ(s) + count_tomb(s) <= s.len(),
        count_occ(s) + count_tomb(s) < s.len() ==> exists|i: int| 0 <= i < s.len() && s[i] is Empty,
        count_occ(s) == s.len() ==> forall|i: int| 0 <= i < s.len() ==> s[i] is Occupied,
    decreases s.len(),
{
    if s.len() > 0 {
        lemma_count_bound(s.drop_last());
        if count_occ(s) + count_tomb(s) < s.len() && !(s.last() is Empty) {
            let i = choose|i: int| 0 <= i < s.drop_last().len() && s.drop_last()[i] is Empty;
            assert(s[i] is Empty);
        }
        if count_occ(s) == s.len() {
            assert forall|i: int| 0 <= i < s.len() implies s[i] is Occupied by {
                if i < s.len() - 1 {
                    assert(s[i] == s.drop_last()[i]);
                }
            }
        }
    }
}

/// The occupied slots of a prefix are no more than those of the whole.
pub proof fn lemma_prefix_count<K, V>(s: Seq<Bucket<K, V>>, j: int, n: int)
    requires
        0 <= j <= n,
        n == s.len(),
    ensures
        count_occ(s.subrange(0, j)) <= count_occ(s),
    decreases n - j,
{
    if j < n {
        assert(s.subrange(0, j + 1).drop_last() =~= s.subrange(0, j));
        lemma_prefix_count(s, j + 1, n);
    } else {
        assert(s.subrange(0, j) =~= s);
    }
}

pub proof fn lemma_count_empty<K, V>(s: Seq<Bucket<K, V>>)
    requires
        forall|i: int| 0 <= i < s.len() ==> s[i] is Empty,
    ensures
        count_occ(s) == 0,
        count_tomb(s) == 0,
    decreases s.len(),
{
    if s.len() > 0 {
        lemma_count_empty(s.drop_last());
    }
}

/// A probe from the home of `k` that passed steps `0..t` without meeting `k`,
/// and then met an empty slot or went round the whole table, shows that `k` is
/// absent.
pub proof fn lemma_absent<K: HashKey, V>(s: Seq<Bucket<K, V>>, m: Map<K, V>, k: K, t: int)
    requires
        table_holds(s, m),
        s.len() > 0,
        0 <= t <= s.len(),
        forall|u: int|
            0 <= u < t ==> !holds(s, #[trigger] slot(home(k, s.len() as int), u, s.len() as int), k),
        t < s.len() ==> s[slot(home(k, s.len() as int), t, s.len() as int)] is Empty,
    ensures
        !m.contains_key(k),
{
    let cap = s.len() as int;
    let h = home(k, cap);
    if m.contains_key(k) {
        let i = choose|i: int| holds(s, i, k);
        lemma_home_bound(k, cap);
        lemma_slot_dist(h, i, 0, cap);
        let d = dist(h, i, cap);
        if d < t {
            assert(!holds(s, slot(h, d, cap), k));
        } else if d > t {
            assert(s[i] is Occupied);
            assert(reachable(s, i));
            lemma_slot_dist(h, i, t, cap);
            assert(!(s[slot(h, t, cap)] is Empty));
        }
    }
}

/// Writing a new value over the slot that holds `k`.
pub proof fn lemma_overwrite<K: HashKey, V>(s: Seq<Bucket<K, V>>, m: Map<K, V>, i: int, k: K, v: V)
    requires
        table_holds(s, m),
        holds(s, i, k),
    ensures
        table_holds(s.update(i, Bucket::Occupied(k, v)), m.insert(k, v)),
{
    let s2 = s.update(i, Bucket::Occupied(k, v));
    let m2 = m.insert(k, v);
    assert forall|j: int| 0 <= j < s2.len() && (#[trigger] s2[j]) is Occupied implies m2.contains_key(
        key_of(s2[j]),
    ) && m2[key_of(s2[j])] == val_of(s2[j]) && reachable(s2, j) by {
        assert(s[j] is Occupied);
        assert(reachable(s, j));
        let h = home(key_of(s2[j]), s.len() as int);
        assert forall|t: int| 0 <= t < dist(h, j, s.len() as int) implies !(
        #[trigger] s2[slot(h, t, s.len() as int)] is Empty) by {
            assert(!(s[slot(h, t, s.len() as int)] is Empty));
        }
    }
    assert forall|kk: K| #[trigger] m2.contains_key(kk) implies exists|j: int| holds(s2, j, kk) by {
        if kk == k {
            assert(holds(s2, i, kk));
        } else {
            let j = choose|j: int| holds(s, j, kk);
            assert(holds(s2, j, kk));
        }
    }
    assert forall|a: int, b: int|
        #[trigger] s2[a] is Occupied && #[trigger] s2[b] is Occupied && 0 <= a < s2.len() && 0 <= b
            < s2.len() && key_of(s2[a]) == key_of(s2[b]) implies a == b by {
        assert(s[a] is Occupied && s[b] is Occupied);
    }
}

/// Placing an absent key in the first free slot of its probe sequence.
pub proof fn lemma_place<K: HashKey, V>(s: Seq<Bucket<K, V>>, m: Map<K, V>, i: int, k: K, v: V)
    requires
        table_holds(s, m),
        0 <= i < s.len(),
        !(s[i] is Occupied),
        !m.contains_key(k),
        forall|t: int|
            0 <= t < dist(home(k, s.len() as int), i, s.len() as int) ==> (#[trigger] s[slot(
                home(k, s.len() as int),
                t,
                s.len() as int,
            )]) is Occupied,
    ensures
        table_holds(s.update(i, Bucket::Occupied(k, v)), m.insert(k, v)),
{
    let s2 = s.update(i, Bucket::Occupied(k, v));
    let m2 = m.insert(k, v);
    let c = s.len() as int;
    assert forall|j: int| 0 <= j < s2.len() && (#[trigger] s2[j]) is Occupied implies m2.contains_key(
        key_of(s2[j]),
    ) && m2[key_of(s2[j])] == val_of(s2[j]) && reachable(s2, j) by {
        let h = home(key_of(s2[j]), c);
        if j == i {
            assert forall|t: int| 0 <= t < dist(h, j, c) implies !(
            #[trigger] s2[slot(h, t, c)] is Empty) by {
                assert(s[slot(h, t, c)] is Occupied);
            }
        } else {
            assert(s[j] is Occupied);
            assert(reachable(s, j));
            assert(key_of(s[j]) != k);
            assert forall|t: int| 0 <= t < dist(h, j, c) implies !(
            #[trigger] s2[slot(h, t, c)] is Empty) by {
                assert(!(s[slot(h, t, c)] is Empty));
            }
        }
    }
    assert forall|kk: K| #[trigger] m2.contains_key(kk) implies exists|j: int| holds(s2, j, kk) by {
        if kk == k {
            assert(holds(s2, i, kk));
        } else {
            let j = choose|j: int| holds(s, j, kk);
            assert(holds(s2, j, kk));
        }
    }
    assert forall|a: int, b: int|
        #[trigger] s2[a] is Occupied && #[trigger] s2[b] is Occupied && 0 <= a < s2.len() && 0 <= b
            < s2.len() && key_of(s2[a]) == key_of(s2[b]) implies a == b by {
        if a != i && b != i {
            assert(s[a] is Occupied && s[b] is Occupied);
        } else if a != i {
            assert(s[a] is Occupied);
            assert(m.contains_key(key_of(s[a])));
        } else if b != i {
            assert(s[b] is Occupied);
            assert(m.contains_key(key_of(s[b])));
        }
    }
}

/// Turning the slot that holds `k` into a tombstone removes `k`.
pub proof fn lemma_bury<K: HashKey, V>(s: Seq<Bucket<K, V>>, m: Map<K, V>, i: int, k: K)
    requires
        table_holds(s, m),
        holds(s, i, k),
    ensures
        table_holds(s.update(i, Bucket::Tombstone), m.remove(k)),
{
    let s2 = s.update(i, Bucket::Tombstone);
    let m2 = m.remove(k);
    let c = s.len() as int;
    assert forall|j: int| 0 <= j < s2.len() && (#[trigger] s2[j]) is Occupied implies m2.contains_key(
        key_of(s2[j]),
    ) && m2[key_of(s2[j])] == val_of(s2[j]) && reachable(s2, j) by {
        assert(s[j] is Occupied);
        assert(reachable(s, j));
        let h = home(key_of(s2[j]), c);
        assert forall|t: int| 0 <= t < dist(h, j, c) implies !(
        #[trigger] s2[slot(h, t, c)] is Empty) by {
            assert(!(s[slot(h, t, c)] is Empty));
        }
    }
    assert forall|kk: K| #[trigger] m2.contains_key(kk) implies exists|j: int| holds(s2, j, kk) by {
        let j = choose|j: int| holds(s, j, kk);
        assert(j != i);
        assert(holds(s2, j, kk));
    }
    assert forall|a: int, b: int|
        #[trigger] s2[a] is Occupied && #[trigger] s2[b] is Occupied && 0 <= a < s2.len() && 0 <= b
            < s2.len() && key_of(s2[a]) == key_of(s2[b]) implies a == b by {
        assert(s[a] is Occupied && s[b] is Occupied);
    }
}

/// Slot `t` of the probe sequence from `h`, computed without overflow.
pub fn slot_index(h: usize, t: usize, cap: usize) -> (r: usize)
    requires
        h < cap,
        t < cap,
    ensures
        r == slot(h as int, t as int, cap as int),
        r < cap,
{
    if t < cap - h {
        h + t
    } else {
        t - (cap - h)
    }
}

/// The home slot of `k` in a table of `cap` slots.
pub fn home_index<K: HashKey>(k: &K, cap: usize) -> (r: usize)
    requires
        cap > 0,
    ensures
        r == home(*k, cap as int),
        r < cap,
{
    let h = k.hash_key();
    (h % (cap as u64)) as usize
}

} // verus!
