//! Association lists with unique keys, the executable representation of the
//! storage adapter's keyspaces, together with the lemmas that connect them
//! to their `Map` views.

use vstd::prelude::*;

verus! {

/// The map held by an association list: later entries shadow earlier ones,
/// but the lists kept by the store never repeat a key.
pub open spec fn assoc_map<K: View, V: View>(s: Seq<(K, V)>) -> Map<K::V, V::V>
    decreases s.len(),
{
    if s.len() == 0 {
        Map::empty()
    } else {
        assoc_map(s.drop_last()).insert(s.last().0@, s.last().1@)
    }
}

/// No two entries share a key.
pub open spec fn assoc_unique<K: View, V>(s: Seq<(K, V)>) -> bool {
    forall|i: int, j: int| 0 <= i < j < s.len() ==> (#[trigger] s[i]).0@ != (#[trigger] s[j]).0@
}

pub proof fn lemma_assoc_contains<K: View, V: View>(s: Seq<(K, V)>, k: K::V)
    ensures
        assoc_map(s).contains_key(k) <==> exists|i: int| 0 <= i < s.len() && (#[trigger] s[i]).0@
            == k,
    decreases s.len(),
{
    if s.len() != 0 {
        lemma_assoc_contains(s.drop_last(), k);
        if exists|i: int| 0 <= i < s.len() && (#[trigger] s[i]).0@ == k {
            let i = choose|i: int| 0 <= i < s.len() && (#[trigger] s[i]).0@ == k;
            if i < s.len() - 1 {
                assert(s.drop_last()[i] == s[i]);
            }
        }
        if assoc_map(s).contains_key(k) {
            if k == s.last().0@ {
                assert(s[s.len() - 1].0@ == k);
            } else {
                let i = choose|i: int|
                    0 <= i < s.drop_last().len() && (#[trigger] s.drop_last()[i]).0@ == k;
                assert(s[i].0@ == k);
            }
        }
    }
}

pub proof fn lemma_assoc_get<K: View, V: View>(s: Seq<(K, V)>, i: int)
    requires
        assoc_unique(s),
        0 <= i < s.len(),
    ensures
        assoc_map(s).contains_key(s[i].0@),
        assoc_map(s)[s[i].0@] == s[i].1@,
    decreases s.len(),
{
    if i == s.len() - 1 {
    } else {
        lemma_assoc_get(s.drop_last(), i);
        assert(s.drop_last()[i] == s[i]);
        assert(s[i].0@ != s.last().0@);
    }
}

pub proof fn lemma_assoc_push<K: View, V: View>(s: Seq<(K, V)>, k: K, v: V)
    ensures
        assoc_map(s.push((k, v))) == assoc_map(s).insert(k@, v@),
{
    assert(s.push((k, v)).drop_last() =~= s);
}

pub proof fn lemma_assoc_remove<K: View, V: View>(s: Seq<(K, V)>, i: int)
    requires
        assoc_unique(s),
        0 <= i < s.len(),
    ensures
        assoc_map(s.remove(i)) =~= assoc_map(s).remove(s[i].0@),
        assoc_unique(s.remove(i)),
    decreases s.len(),
{
    assert forall|x: int, y: int| 0 <= x < y < s.remove(i).len() implies (#[trigger] s.remove(
        i,
    )[x]).0@ != (#[trigger] s.remove(i)[y]).0@ by {
        let xo = if x < i {
            x
        } else {
            x + 1
        };
        let yo = if y < i {
            y
        } else {
            y + 1
        };
        assert(s.remove(i)[x] == s[xo]);
        assert(s.remove(i)[y] == s[yo]);
    }
    if i == s.len() - 1 {
        assert(s.remove(i) =~= s.drop_last());
        lemma_assoc_not_contains_absent(s.drop_last(), s[i].0@);
        assert(assoc_map(s) == assoc_map(s.drop_last()).insert(s.last().0@, s.last().1@));
        assert(assoc_map(s).remove(s[i].0@) =~= assoc_map(s.drop_last()));
    } else {
        lemma_assoc_remove(s.drop_last(), i);
        assert(s.remove(i).drop_last() =~= s.drop_last().remove(i));
        assert(s.remove(i).last() == s.last());
        assert(assoc_map(s.remove(i)) == assoc_map(s.drop_last().remove(i)).insert(
            s.last().0@,
            s.last().1@,
        ));
        assert(s.drop_last()[i] == s[i]);
        assert(s[i].0@ != s.last().0@);
        assert(assoc_map(s.drop_last()).remove(s[i].0@).insert(s.last().0@, s.last().1@)
            =~= assoc_map(s.drop_last()).insert(s.last().0@, s.last().1@).remove(s[i].0@));
    }
}

proof fn lemma_assoc_not_contains_absent<K: View, V: View>(s: Seq<(K, V)>, k: K::V)
    requires
        forall|i: int| 0 <= i < s.len() ==> (#[trigger] s[i]).0@ != k,
    ensures
        !assoc_map(s).contains_key(k),
{
    lemma_assoc_contains(s, k);
}

/// A sequence with no repeated elements.
pub open spec fn no_dups<A>(s: Seq<A>) -> bool {
    forall|i: int, j: int| 0 <= i < j < s.len() ==> s[i] != s[j]
}

pub proof fn lemma_to_set_push<A>(s: Seq<A>, a: A)
    ensures
        s.push(a).to_set() =~= s.to_set().insert(a),
{
    assert forall|x: A| s.push(a).to_set().contains(x) implies s.to_set().insert(a).contains(
        x,
    ) by {
        let i = choose|i: int| 0 <= i < s.push(a).len() && s.push(a)[i] == x;
        if i < s.len() {
            assert(s[i] == x);
        }
    }
    assert forall|x: A| s.to_set().insert(a).contains(x) implies s.push(a).to_set().contains(
        x,
    ) by {
        if x == a {
            assert(s.push(a)[s.len() as int] == x);
        } else {
            let i = choose|i: int| 0 <= i < s.len() && s[i] == x;
            assert(s.push(a)[i] == x);
        }
    }
}

pub proof fn lemma_to_set_remove<A>(s: Seq<A>, i: int)
    requires
        no_dups(s),
        0 <= i < s.len(),
    ensures
        s.remove(i).to_set() =~= s.to_set().remove(s[i]),
        no_dups(s.remove(i)),
{
    assert forall|x: int, y: int| 0 <= x < y < s.remove(i).len() implies s.remove(i)[x] != s.remove(
        i,
    )[y] by {
        let xo = if x < i {
            x
        } else {
            x + 1
        };
        let yo = if y < i {
            y
        } else {
            y + 1
        };
        assert(s.remove(i)[x] == s[xo]);
        assert(s.remove(i)[y] == s[yo]);
    }
    assert forall|x: A| s.remove(i).to_set().contains(x) implies s.to_set().remove(
        s[i],
    ).contains(x) by {
        let j = choose|j: int| 0 <= j < s.remove(i).len() && s.remove(i)[j] == x;
        let jo = if j < i {
            j
        } else {
            j + 1
        };
        assert(s.remove(i)[j] == s[jo]);
        assert(s[jo] == x && jo != i);
    }
    assert forall|x: A| s.to_set().remove(s[i]).contains(x) implies s.remove(
        i,
    ).to_set().contains(x) by {
        let j = choose|j: int| 0 <= j < s.len() && s[j] == x;
        assert(j != i);
        let jn = if j < i {
            j
        } else {
            j - 1
        };
        assert(s.remove(i)[jn] == s[j]);
    }
}

} // verus!
