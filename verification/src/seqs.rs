//! Facts about sequences and maps that the rest of the library leans on.
use vstd::prelude::*;

verus! {

/// Filtering a sequence that grew by one element.
pub proof fn lemma_filter_push<A>(s: Seq<A>, a: A, keep: spec_fn(A) -> bool)
    ensures
        s.push(a).filter(keep) == if keep(a) {
            s.filter(keep).push(a)
        } else {
            s.filter(keep)
        },
{
    reveal(Seq::filter);
    assert(s.push(a).drop_last() =~= s);
}

/// Every element of a filtered sequence is an element of the sequence that passes the filter.
pub proof fn lemma_filter_member<A>(s: Seq<A>, keep: spec_fn(A) -> bool)
    ensures
        forall|i: int|
            0 <= i < s.filter(keep).len() ==> keep(#[trigger] s.filter(keep)[i]) && s.contains(
                s.filter(keep)[i],
            ),
    decreases s.len(),
{
    reveal(Seq::filter);
    if s.len() > 0 {
        let init = s.drop_last();
        lemma_filter_member(init, keep);
        assert(s =~= init.push(s.last()));
        lemma_filter_push(init, s.last(), keep);
        assert forall|i: int| 0 <= i < s.filter(keep).len() implies keep(
            #[trigger] s.filter(keep)[i],
        ) && s.contains(s.filter(keep)[i]) by {
            if i < init.filter(keep).len() {
                assert(s.filter(keep)[i] == init.filter(keep)[i]);
                let j = choose|j: int| 0 <= j < init.len() && init[j] == init.filter(keep)[i];
                assert(s[j] == s.filter(keep)[i]);
            } else {
                assert(s[s.len() - 1] == s.last());
            }
        }
    }
}

/// An element passes into the filtered sequence if it was there and passes the filter.
pub proof fn lemma_filter_contains<A>(s: Seq<A>, a: A, keep: spec_fn(A) -> bool)
    ensures
        s.filter(keep).contains(a) <==> s.contains(a) && keep(a),
    decreases s.len(),
{
    lemma_filter_member(s, keep);
    if s.len() > 0 && s.contains(a) && keep(a) {
        let init = s.drop_last();
        assert(s =~= init.push(s.last()));
        lemma_filter_push(init, s.last(), keep);
        if init.contains(a) {
            lemma_filter_contains(init, a, keep);
            let f = init.filter(keep);
            let i = choose|i: int| 0 <= i < f.len() && f[i] == a;
            assert(s.filter(keep)[i] == a);
        } else {
            let i = choose|i: int| 0 <= i < s.len() && s[i] == a;
            if i < init.len() {
                assert(init[i] == a);
            }
            assert(s.filter(keep).last() == a);
        }
    }
}

/// What is in a sequence with one more element put in.
pub proof fn lemma_insert_contains<A>(s: Seq<A>, at: int, a: A, x: A)
    requires
        0 <= at <= s.len(),
    ensures
        s.insert(at, a).contains(x) <==> s.contains(x) || x == a,
{
    let all = s.insert(at, a);
    assert(all[at] == a);
    if s.contains(x) {
        let i = choose|i: int| 0 <= i < s.len() && s[i] == x;
        if i < at {
            assert(all[i] == x);
        } else {
            assert(all[i + 1] == x);
        }
    }
    if all.contains(x) && x != a {
        let i = choose|i: int| 0 <= i < all.len() && all[i] == x;
        if i < at {
            assert(s[i] == x);
        } else {
            assert(s[i - 1] == x);
        }
    }
}

/// Putting in an element that was not there makes no duplicate.
pub proof fn lemma_insert_no_duplicates<A>(s: Seq<A>, at: int, a: A)
    requires
        0 <= at <= s.len(),
        s.no_duplicates(),
        !s.contains(a),
    ensures
        s.insert(at, a).no_duplicates(),
{
    let all = s.insert(at, a);
    assert forall|i: int, j: int| 0 <= i < all.len() && 0 <= j < all.len() && i != j implies all[i]
        != all[j] by {
        let back = |k: int|
            if k < at {
                k
            } else {
                k - 1
            };
        if i != at {
            assert(all[i] == s[back(i)]);
        }
        if j != at {
            assert(all[j] == s[back(j)]);
        }
    }
}

/// Filtering keeps a sequence of which every element passes.
pub proof fn lemma_filter_absent<A>(s: Seq<A>, keep: spec_fn(A) -> bool)
    requires
        forall|i: int| 0 <= i < s.len() ==> keep(#[trigger] s[i]),
    ensures
        s.filter(keep) == s,
    decreases s.len(),
{
    reveal(Seq::filter);
    if s.len() > 0 {
        lemma_filter_absent(s.drop_last(), keep);
        assert(keep(s[s.len() - 1]));
        assert(s =~= s.drop_last().push(s.last()));
    } else {
        assert(s.filter(keep) =~= s);
    }
}

/// Filtering a sequence without duplicates leaves none.
pub proof fn lemma_filter_no_duplicates<A>(s: Seq<A>, keep: spec_fn(A) -> bool)
    requires
        s.no_duplicates(),
    ensures
        s.filter(keep).no_duplicates(),
    decreases s.len(),
{
    reveal(Seq::filter);
    if s.len() > 0 {
        let init = s.drop_last();
        lemma_filter_no_duplicates(init, keep);
        lemma_filter_member(init, keep);
        assert(s =~= init.push(s.last()));
        lemma_filter_push(init, s.last(), keep);
        if keep(s.last()) {
            let f = init.filter(keep);
            assert forall|i: int| 0 <= i < f.len() implies f[i] != s.last() by {
                assert(init.contains(f[i]));
                let j = choose|j: int| 0 <= j < init.len() && init[j] == f[i];
                assert(s[j] == f[i]);
            }
        }
    }
}

/// Changing every value of a map commutes with inserting.
pub proof fn lemma_map_values_insert<K, V, W>(m: Map<K, V>, k: K, v: V, f: spec_fn(V) -> W)
    ensures
        m.insert(k, v).map_values(f) == m.map_values(f).insert(k, f(v)),
{
    assert(m.insert(k, v).map_values(f) =~= m.map_values(f).insert(k, f(v)));
}

/// Changing every value of a map commutes with removing.
pub proof fn lemma_map_values_remove<K, V, W>(m: Map<K, V>, k: K, f: spec_fn(V) -> W)
    ensures
        m.remove(k).map_values(f) == m.map_values(f).remove(k),
{
    assert(m.remove(k).map_values(f) =~= m.map_values(f).remove(k));
}

} // verus!
