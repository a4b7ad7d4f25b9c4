//! Lists of entities keyed by id, and the maps they denote.
use vstd::prelude::*;

verus! {

/// An entity that a list stores under a numeric id.
pub trait Keyed: View {
    spec fn key(&self) -> u64;
}

/// The map from id to content that a list denotes; a later entry overrides an earlier one.
pub open spec fn keyed_map<T: Keyed>(s: Seq<T>) -> Map<u64, T::V>
    decreases s.len(),
{
    if s.len() == 0 {
        Map::empty()
    } else {
        keyed_map(s.drop_last()).insert(s.last().key(), s.last()@)
    }
}

/// No two entries share an id.
pub open spec fn unique_keys<T: Keyed>(s: Seq<T>) -> bool {
    forall|i: int, j: int| 0 <= i < s.len() && 0 <= j < s.len() && i != j ==> (#[trigger] s[i]).key() != (#[trigger] s[j]).key()
}

/// An id is in the map exactly when some entry carries it.
pub proof fn lemma_keyed_dom<T: Keyed>(s: Seq<T>, k: u64)
    ensures
        keyed_map(s).contains_key(k) <==> exists|i: int| 0 <= i < s.len() && (#[trigger] s[i]).key() == k,
    decreases s.len(),
{
    if s.len() > 0 {
        lemma_keyed_dom(s.drop_last(), k);
        if keyed_map(s.drop_last()).contains_key(k) {
            let i = choose|i: int| 0 <= i < s.drop_last().len() && (#[trigger] s.drop_last()[i]).key() == k;
            assert(s[i] == s.drop_last()[i]);
        }
        if exists|i: int| 0 <= i < s.len() && (#[trigger] s[i]).key() == k {
            let i = choose|i: int| 0 <= i < s.len() && (#[trigger] s[i]).key() == k;
            if i < s.len() - 1 {
                assert(s.drop_last()[i] == s[i]);
            }
        }
    }
}

/// With unique ids, the content under an entry's id is that entry's.
pub proof fn lemma_keyed_index<T: Keyed>(s: Seq<T>, i: int)
    requires
        unique_keys(s),
        0 <= i < s.len(),
    ensures
        keyed_map(s).contains_key(s[i].key()),
        keyed_map(s)[s[i].key()] == s[i]@,
    decreases s.len(),
{
    if i < s.len() - 1 {
        let t = s.drop_last();
        assert forall|a: int, b: int| 0 <= a < t.len() && 0 <= b < t.len() && a != b implies (#[trigger] t[a]).key()
            != (#[trigger] t[b]).key() by {
            assert(t[a] == s[a] && t[b] == s[b]);
        }
        assert(t[i] == s[i]);
        assert(s.last() == s[s.len() - 1]);
        lemma_keyed_index(t, i);
    }
}

/// The index of the one entry carrying the id `k`, whose content is the map's value for `k`.
pub proof fn lemma_keyed_find<T: Keyed>(s: Seq<T>, k: u64) -> (i: int)
    requires
        unique_keys(s),
        keyed_map(s).contains_key(k),
    ensures
        0 <= i < s.len(),
        s[i].key() == k,
        keyed_map(s)[k] == s[i]@,
{
    lemma_keyed_dom(s, k);
    let i = choose|i: int| 0 <= i < s.len() && (#[trigger] s[i]).key() == k;
    lemma_keyed_index(s, i);
    i
}

/// Appending an entry under a new id adds it to the map.
pub proof fn lemma_keyed_push<T: Keyed>(s: Seq<T>, x: T)
    requires
        unique_keys(s),
        !keyed_map(s).contains_key(x.key()),
    ensures
        unique_keys(s.push(x)),
        keyed_map(s.push(x)) == keyed_map(s).insert(x.key(), x@),
{
    let t = s.push(x);
    assert(t.drop_last() =~= s);
    lemma_keyed_dom(s, x.key());
    assert forall|a: int, b: int| 0 <= a < t.len() && 0 <= b < t.len() && a != b implies (#[trigger] t[a]).key()
        != (#[trigger] t[b]).key() by {
        if a < s.len() && b < s.len() {
            assert(t[a] == s[a] && t[b] == s[b]);
        } else if a < s.len() {
            assert(t[a] == s[a]);
        } else {
            assert(t[b] == s[b]);
        }
    }
}

/// Replacing the entry at index `i` by one with the same id replaces its content.
pub proof fn lemma_keyed_update<T: Keyed>(s: Seq<T>, i: int, x: T)
    requires
        unique_keys(s),
        0 <= i < s.len(),
        x.key() == s[i].key(),
    ensures
        unique_keys(s.update(i, x)),
        keyed_map(s.update(i, x)) == keyed_map(s).insert(x.key(), x@),
{
    let t = s.update(i, x);
    assert forall|a: int, b: int| 0 <= a < t.len() && 0 <= b < t.len() && a != b implies (#[trigger] t[a]).key()
        != (#[trigger] t[b]).key() by {
        assert(t[a].key() == s[a].key() && t[b].key() == s[b].key());
    }
    assert forall|k: u64| #[trigger] keyed_map(t).contains_key(k) == keyed_map(s).insert(x.key(), x@).contains_key(k) by {
        lemma_keyed_dom(t, k);
        lemma_keyed_dom(s, k);
        if exists|j: int| 0 <= j < t.len() && (#[trigger] t[j]).key() == k {
            let j = choose|j: int| 0 <= j < t.len() && (#[trigger] t[j]).key() == k;
            assert(s[j].key() == k);
        }
        if exists|j: int| 0 <= j < s.len() && (#[trigger] s[j]).key() == k {
            let j = choose|j: int| 0 <= j < s.len() && (#[trigger] s[j]).key() == k;
            assert(t[j].key() == k);
        }
    }
    assert forall|k: u64| #[trigger] keyed_map(t).contains_key(k) implies keyed_map(t)[k] == keyed_map(s).insert(
        x.key(),
        x@,
    )[k] by {
        let j = lemma_keyed_find(t, k);
        if j == i {
            assert(t[j] == x);
        } else {
            assert(t[j] == s[j]);
            lemma_keyed_index(s, j);
        }
    }
    assert(keyed_map(t) =~= keyed_map(s).insert(x.key(), x@));
}

/// Removing the entry at index `i` removes its id from the map.
pub proof fn lemma_keyed_remove<T: Keyed>(s: Seq<T>, i: int)
    requires
        unique_keys(s),
        0 <= i < s.len(),
    ensures
        unique_keys(s.remove(i)),
        keyed_map(s.remove(i)) == keyed_map(s).remove(s[i].key()),
{
    let t = s.remove(i);
    let k0 = s[i].key();
    assert forall|a: int| 0 <= a < t.len() implies #[trigger] t[a] == (if a < i { s[a] } else { s[a + 1] }) by {}
    assert forall|a: int, b: int| 0 <= a < t.len() && 0 <= b < t.len() && a != b implies (#[trigger] t[a]).key()
        != (#[trigger] t[b]).key() by {
        let sa = if a < i { a } else { a + 1 };
        let sb = if b < i { b } else { b + 1 };
        assert(t[a] == s[sa] && t[b] == s[sb]);
    }
    assert forall|k: u64| #[trigger] keyed_map(t).contains_key(k) == keyed_map(s).remove(k0).contains_key(k) by {
        lemma_keyed_dom(t, k);
        lemma_keyed_dom(s, k);
        if exists|j: int| 0 <= j < t.len() && (#[trigger] t[j]).key() == k {
            let j = choose|j: int| 0 <= j < t.len() && (#[trigger] t[j]).key() == k;
            let sj = if j < i { j } else { j + 1 };
            assert(t[j] == s[sj]);
        }
        if k != k0 && exists|j: int| 0 <= j < s.len() && (#[trigger] s[j]).key() == k {
            let j = choose|j: int| 0 <= j < s.len() && (#[trigger] s[j]).key() == k;
            let tj = if j < i { j } else { j - 1 };
            assert(t[tj] == s[j]);
        }
    }
    assert forall|k: u64| #[trigger] keyed_map(t).contains_key(k) implies keyed_map(t)[k] == keyed_map(s).remove(
        k0,
    )[k] by {
        let j = lemma_keyed_find(t, k);
        let sj = if j < i { j } else { j + 1 };
        assert(t[j] == s[sj]);
        lemma_keyed_index(s, sj);
    }
    assert(keyed_map(t) =~= keyed_map(s).remove(k0));
}

} // verus!
