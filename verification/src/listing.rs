//! A listing of the keys of a map: the stores keep, beside their key-value
//! map, a sequence of the keys in insertion order, so that their contents can
//! be enumerated. These lemmas maintain the correspondence between the two.
use vstd::prelude::*;

verus! {

/// `ks` lists exactly the keys of `m`, each once.
pub open spec fn listed_keys<V>(m: Map<Seq<char>, V>, ks: Seq<Seq<char>>) -> bool {
    &&& ks.no_duplicates()
    &&& forall|i: int| 0 <= i < ks.len() ==> m.contains_key(#[trigger] ks[i])
    &&& forall|k: Seq<char>| m.contains_key(k) ==> #[trigger] ks.contains(k)
}

/// A key absent from the map is absent from the listing.
pub proof fn lemma_listed_absent<V>(m: Map<Seq<char>, V>, ks: Seq<Seq<char>>, k: Seq<char>)
    requires
        listed_keys(m, ks),
        !m.contains_key(k),
    ensures
        !ks.contains(k),
{
    if ks.contains(k) {
        let i = choose|i: int| 0 <= i < ks.len() && ks[i] == k;
        assert(m.contains_key(ks[i]));
    }
}

/// Binding a fresh key extends the listing by that key.
pub proof fn lemma_listed_insert<V>(m: Map<Seq<char>, V>, ks: Seq<Seq<char>>, k: Seq<char>, v: V)
    requires
        listed_keys(m, ks),
        !m.contains_key(k),
    ensures
        listed_keys(m.insert(k, v), ks.push(k)),
{
    lemma_listed_absent(m, ks, k);
    let ks2 = ks.push(k);
    assert forall|a: int, b: int|
        0 <= a < ks2.len() && 0 <= b < ks2.len() && a != b implies ks2[a] != ks2[b] by {
        if a < ks.len() && b < ks.len() {
            assert(ks2[a] == ks[a] && ks2[b] == ks[b]);
        } else if a == ks.len() {
            assert(ks2[a] == k && ks2[b] == ks[b]);
            if ks[b] == k {
                assert(ks.contains(k));
            }
        } else {
            assert(ks2[b] == k && ks2[a] == ks[a]);
            if ks[a] == k {
                assert(ks.contains(k));
            }
        }
    }
    assert forall|q: Seq<char>| m.insert(k, v).contains_key(q) implies ks2.contains(q) by {
        if q == k {
            assert(ks2[ks2.len() - 1] == k);
        } else {
            assert(m.contains_key(q));
            assert(ks.contains(q));
            let i = choose|i: int| 0 <= i < ks.len() && ks[i] == q;
            assert(ks2[i] == q);
        }
    }
}

/// Rebinding a key already present leaves the listing as it is.
pub proof fn lemma_listed_update<V>(m: Map<Seq<char>, V>, ks: Seq<Seq<char>>, k: Seq<char>, v: V)
    requires
        listed_keys(m, ks),
        m.contains_key(k),
    ensures
        listed_keys(m.insert(k, v), ks),
{
    assert forall|q: Seq<char>| m.insert(k, v).contains_key(q) implies ks.contains(q) by {
        if q != k {
            assert(m.contains_key(q));
            assert(ks.contains(q));
        } else {
            assert(ks.contains(k));
        }
    }
}

/// Removing the key at position `i` of the listing removes it from the map.
pub proof fn lemma_listed_remove<V>(m: Map<Seq<char>, V>, ks: Seq<Seq<char>>, i: int)
    requires
        listed_keys(m, ks),
        0 <= i < ks.len(),
    ensures
        listed_keys(m.remove(ks[i]), ks.remove(i)),
{
    let k = ks[i];
    let ks2 = ks.remove(i);
    ks.remove_ensures(i);
    assert forall|a: int, b: int|
        0 <= a < ks2.len() && 0 <= b < ks2.len() && a != b implies ks2[a] != ks2[b] by {
        let pa = if a < i { a } else { a + 1 };
        let pb = if b < i { b } else { b + 1 };
        assert(ks2[a] == ks[pa] && ks2[b] == ks[pb]);
    }
    assert forall|j: int| 0 <= j < ks2.len() implies m.remove(k).contains_key(ks2[j]) by {
        let pj = if j < i { j } else { j + 1 };
        assert(ks2[j] == ks[pj]);
        assert(m.contains_key(ks[pj]));
        assert(ks[pj] != k);
    }
    assert forall|q: Seq<char>| m.remove(k).contains_key(q) implies ks2.contains(q) by {
        assert(m.contains_key(q));
        assert(ks.contains(q));
        let j = choose|j: int| 0 <= j < ks.len() && ks[j] == q;
        assert(j != i);
        if j < i {
            assert(ks2[j] == q);
        } else {
            assert(ks2[j - 1] == q);
        }
    }
}

} // verus!
