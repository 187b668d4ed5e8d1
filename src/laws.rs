use vstd::prelude::*;

use crate::map::after_inserts;

verus! {

/// The map after applying each step of `ops` in turn: `(k, Some(v))` puts
/// `v` under `k`, `(k, None)` takes `k` out.
pub open spec fn after_ops<K, V>(m: Map<K, V>, ops: Seq<(K, Option<V>)>) -> Map<K, V>
    decreases ops.len(),
{
    if ops.len() == 0 {
        m
    } else {
        let prev = after_ops(m, ops.drop_last());
        match ops.last().1 {
            Some(v) => prev.insert(ops.last().0, v),
            None => prev.remove(ops.last().0),
        }
    }
}

/// Inserting pairs with pairwise distinct keys into an empty map gives a map
/// with one entry per pair.
pub proof fn lemma_distinct_inserts_len<K, V>(s: Seq<(K, V)>)
    requires
        forall|i: int, j: int| 0 <= i < j < s.len() ==> s[i].0 != s[j].0,
    ensures
        after_inserts(Map::<K, V>::empty(), s).dom().finite(),
        after_inserts(Map::<K, V>::empty(), s).len() == s.len(),
        forall|i: int| 0 <= i < s.len() ==> after_inserts(Map::<K, V>::empty(), s).contains_key(s[i].0),
    decreases s.len(),
{
    if s.len() > 0 {
        let t = s.drop_last();
        lemma_distinct_inserts_len(t);
        let m = after_inserts(Map::<K, V>::empty(), t);
        lemma_keys_of_inserts(t);
        assert(!m.contains_key(s.last().0));
        assert(m.insert(s.last().0, s.last().1).dom() =~= m.dom().insert(s.last().0));
        assert forall|i: int| 0 <= i < s.len() implies after_inserts(
            Map::<K, V>::empty(),
            s,
        ).contains_key(s[i].0) by {
            if i < s.len() - 1 {
                assert(m.contains_key(t[i].0));
            }
        }
    }
}

/// Every key of a map built by inserts was inserted.
pub proof fn lemma_keys_of_inserts<K, V>(s: Seq<(K, V)>)
    ensures
        forall|k: K|
            #[trigger] after_inserts(Map::<K, V>::empty(), s).contains_key(k) ==> exists|i: int|
                0 <= i < s.len() && s[i].0 == k,
    decreases s.len(),
{
    if s.len() > 0 {
        lemma_keys_of_inserts(s.drop_last());
        assert forall|k: K| #[trigger]
            after_inserts(Map::<K, V>::empty(), s).contains_key(k) implies exists|i: int|
            0 <= i < s.len() && s[i].0 == k by {
            if k != s.last().0 {
                assert(after_inserts(Map::<K, V>::empty(), s.drop_last()).contains_key(k));
                let i = choose|i: int| 0 <= i < s.drop_last().len() && s.drop_last()[i].0 == k;
                assert(s[i].0 == k);
            } else {
                assert(s[s.len() - 1].0 == k);
            }
        }
    }
}

/// Inserting a key that is already present keeps the number of entries.
pub proof fn lemma_overwrite_keeps_len<K, V>(m: Map<K, V>, k: K, v: V)
    requires
        m.dom().finite(),
        m.contains_key(k),
    ensures
        m.insert(k, v).len() == m.len(),
{
    assert(m.insert(k, v).dom() =~= m.dom());
}

/// After putting `v` under `k`, `k` keeps `v` through any steps that neither
/// overwrite nor remove `k`.
pub proof fn lemma_round_trip<K, V>(m: Map<K, V>, k: K, v: V, ops: Seq<(K, Option<V>)>)
    requires
        forall|i: int| 0 <= i < ops.len() ==> ops[i].0 != k,
    ensures
        after_ops(m.insert(k, v), ops).contains_key(k),
        after_ops(m.insert(k, v), ops)[k] == v,
    decreases ops.len(),
{
    if ops.len() > 0 {
        lemma_round_trip(m, k, v, ops.drop_last());
    }
}

/// Once `k` is removed, removing it again finds nothing and changes nothing.
pub proof fn lemma_remove_again<K, V>(m: Map<K, V>, k: K)
    ensures
        !m.remove(k).contains_key(k),
        m.remove(k).remove(k) == m.remove(k),
{
    assert(m.remove(k).remove(k) =~= m.remove(k));
}

/// A key that was never inserted by a sequence of steps from the empty map,
/// or whose last step removed it, is absent.
pub proof fn lemma_absent_key<K, V>(ops: Seq<(K, Option<V>)>, k: K)
    requires
        forall|i: int| 0 <= i < ops.len() && ops[i].0 == k ==> {
            &&& ops[i].1 is None
            &&& forall|j: int| i < j < ops.len() ==> ops[j].0 != k
        } || exists|j: int| i < j < ops.len() && ops[j].0 == k && ops[j].1 is None && forall|
            l: int,
        | j < l < ops.len() ==> ops[l].0 != k,
    ensures
        !after_ops(Map::<K, V>::empty(), ops).contains_key(k),
    decreases ops.len(),
{
    if ops.len() > 0 {
        let t = ops.drop_last();
        if ops.last().0 != k {
            assert forall|i: int| 0 <= i < t.len() && t[i].0 == k implies {
                &&& t[i].1 is None
                &&& forall|j: int| i < j < t.len() ==> t[j].0 != k
            } || exists|j: int| i < j < t.len() && t[j].0 == k && t[j].1 is None && forall|
                l: int,
            | j < l < t.len() ==> t[l].0 != k by {
                assert(ops[i].0 == k);
                if !(ops[i].1 is None && forall|j: int| i < j < ops.len() ==> ops[j].0 != k) {
                    let j = choose|j: int|
                        i < j < ops.len() && ops[j].0 == k && ops[j].1 is None && forall|l: int|
                            j < l < ops.len() ==> ops[l].0 != k;
                    assert(j < t.len());
                    assert(t[j] == ops[j]);
                    assert forall|l: int| j < l < t.len() implies t[l].0 != k by {
                        assert(t[l] == ops[l]);
                    }
                } else {
                    assert forall|j: int| i < j < t.len() implies t[j].0 != k by {
                        assert(t[j] == ops[j]);
                    }
                }
            }
            lemma_absent_key(t, k);
        } else {
            let i = ops.len() - 1;
            assert(ops[i].0 == k);
            if !(ops[i].1 is None) {
                let j = choose|j: int|
                    i < j < ops.len() && ops[j].0 == k && ops[j].1 is None && forall|l: int|
                        j < l < ops.len() ==> ops[l].0 != k;
            }
        }
    }
}

} // verus!
