use vstd::prelude::*;

verus! {

/// The map that a list of (key, value) entries describes; later entries win.
pub open spec fn assoc_map<K, V>(s: Seq<(K, V)>) -> Map<K, V>
    decreases s.len(),
{
    if s.len() == 0 {
        Map::empty()
    } else {
        assoc_map(s.drop_last()).insert(s.last().0, s.last().1)
    }
}

pub open spec fn keys_unique<K, V>(s: Seq<(K, V)>) -> bool {
    forall|i: int, j: int| 0 <= i < j < s.len() ==> s[i].0 != s[j].0
}

pub proof fn lemma_assoc_contains<K, V>(s: Seq<(K, V)>, k: K)
    ensures
        assoc_map(s).contains_key(k) <==> exists|i: int| 0 <= i < s.len() && s[i].0 == k,
    decreases s.len(),
{
    if s.len() > 0 {
        lemma_assoc_contains(s.drop_last(), k);
        if assoc_map(s.drop_last()).contains_key(k) {
            let i = choose|i: int| 0 <= i < s.drop_last().len() && s.drop_last()[i].0 == k;
            assert(s[i].0 == k);
        }
        if exists|i: int| 0 <= i < s.len() && s[i].0 == k {
            let i = choose|i: int| 0 <= i < s.len() && s[i].0 == k;
            if i < s.len() - 1 {
                assert(s.drop_last()[i].0 == k);
            }
        }
    }
}

pub proof fn lemma_assoc_index<K, V>(s: Seq<(K, V)>, i: int)
    requires
        keys_unique(s),
        0 <= i < s.len(),
    ensures
        assoc_map(s).contains_key(s[i].0),
        assoc_map(s)[s[i].0] == s[i].1,
    decreases s.len(),
{
    if i < s.len() - 1 {
        assert(s.drop_last()[i] == s[i]);
        lemma_assoc_index(s.drop_last(), i);
    }
}

pub proof fn lemma_assoc_update<K, V>(s: Seq<(K, V)>, i: int, v: V)
    requires
        keys_unique(s),
        0 <= i < s.len(),
    ensures
        keys_unique(s.update(i, (s[i].0, v))),
        assoc_map(s.update(i, (s[i].0, v))) == assoc_map(s).insert(s[i].0, v),
    decreases s.len(),
{
    let t = s.update(i, (s[i].0, v));
    if i == s.len() - 1 {
        assert(t.drop_last() == s.drop_last());
        assert(assoc_map(t) =~= assoc_map(s).insert(s[i].0, v));
    } else {
        lemma_assoc_update(s.drop_last(), i, v);
        assert(t.drop_last() == s.drop_last().update(i, (s[i].0, v)));
        assert(assoc_map(t) =~= assoc_map(s).insert(s[i].0, v));
    }
}

pub proof fn lemma_assoc_push<K, V>(s: Seq<(K, V)>, k: K, v: V)
    requires
        keys_unique(s),
        !assoc_map(s).contains_key(k),
    ensures
        keys_unique(s.push((k, v))),
        assoc_map(s.push((k, v))) == assoc_map(s).insert(k, v),
{
    lemma_assoc_contains(s, k);
    assert(s.push((k, v)).drop_last() == s);
    assert forall|i: int, j: int| 0 <= i < j < s.push((k, v)).len() implies s.push((k, v))[i].0
        != s.push((k, v))[j].0 by {
        if j == s.len() {
            assert(s[i].0 != k);
        }
    }
}

pub proof fn lemma_assoc_remove<K, V>(s: Seq<(K, V)>, i: int)
    requires
        keys_unique(s),
        0 <= i < s.len(),
    ensures
        keys_unique(s.remove(i)),
        assoc_map(s.remove(i)) == assoc_map(s).remove(s[i].0),
    decreases s.len(),
{
    let k = s[i].0;
    let t = s.remove(i);
    assert(keys_unique(t)) by {
        assert forall|a: int, b: int| 0 <= a < b < t.len() implies t[a].0 != t[b].0 by {
            let a2 = if a < i { a } else { a + 1 };
            let b2 = if b < i { b } else { b + 1 };
            assert(t[a] == s[a2]);
            assert(t[b] == s[b2]);
        }
    }
    if i == s.len() - 1 {
        assert(t == s.drop_last());
        lemma_assoc_contains(s.drop_last(), k);
        assert(!assoc_map(s.drop_last()).contains_key(k));
        assert(assoc_map(t) =~= assoc_map(s).remove(k));
    } else {
        lemma_assoc_remove(s.drop_last(), i);
        assert(t.drop_last() == s.drop_last().remove(i));
        assert(t.last() == s.last());
        assert(s.last().0 != k);
        assert(assoc_map(t) =~= assoc_map(s).remove(k));
    }
}

/// Every entry of `a` is in `m` with the same value.
pub open spec fn covered<K, V>(a: Seq<(K, V)>, m: Map<K, V>) -> bool {
    forall|i: int| 0 <= i < a.len() ==> m.contains_key(#[trigger] a[i].0) && m[a[i].0] == a[i].1
}

/// Two lists with distinct keys describe the same map exactly when each one's
/// entries are found in the other's map.
pub proof fn lemma_covered_equal<K, V>(a: Seq<(K, V)>, b: Seq<(K, V)>)
    requires
        keys_unique(a),
        keys_unique(b),
    ensures
        (covered(a, assoc_map(b)) && covered(b, assoc_map(a))) <==> assoc_map(a) == assoc_map(b),
{
    if assoc_map(a) == assoc_map(b) {
        assert forall|i: int| 0 <= i < a.len() implies assoc_map(b).contains_key(#[trigger] a[i].0)
            && assoc_map(b)[a[i].0] == a[i].1 by {
            lemma_assoc_index(a, i);
        }
        assert forall|i: int| 0 <= i < b.len() implies assoc_map(a).contains_key(#[trigger] b[i].0)
            && assoc_map(a)[b[i].0] == b[i].1 by {
            lemma_assoc_index(b, i);
        }
    }
    if covered(a, assoc_map(b)) && covered(b, assoc_map(a)) {
        assert forall|k: K| #[trigger] assoc_map(a).contains_key(k) implies assoc_map(
            b,
        ).contains_key(k) && assoc_map(a)[k] == assoc_map(b)[k] by {
            lemma_assoc_contains(a, k);
            let i = choose|i: int| 0 <= i < a.len() && a[i].0 == k;
            lemma_assoc_index(a, i);
        }
        assert forall|k: K| #[trigger] assoc_map(b).contains_key(k) implies assoc_map(
            a,
        ).contains_key(k) by {
            lemma_assoc_contains(b, k);
            let i = choose|i: int| 0 <= i < b.len() && b[i].0 == k;
            assert(covered(b, assoc_map(a)));
            assert(assoc_map(a).contains_key(b[i].0));
        }
        assert(assoc_map(a) =~= assoc_map(b));
    }
}

} // verus!
