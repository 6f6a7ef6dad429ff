//! Facts about counting with `Seq::filter` and about sequences that hold the
//! same multiset of elements (permutations).
use vstd::prelude::*;

verus! {

broadcast use vstd::seq_lib::group_to_multiset_ensures, vstd::multiset::group_multiset_axioms;

/// Taking out position `j` takes one element out of every count that held it.
pub proof fn lemma_filter_len_remove<A>(s: Seq<A>, j: int, p: spec_fn(A) -> bool)
    requires
        0 <= j < s.len(),
    ensures
        s.filter(p).len() == s.remove(j).filter(p).len() + if p(s[j]) {
            1int
        } else {
            0int
        },
    decreases s.len(),
{
    let last = s.last();
    let init = s.drop_last();
    assert(init.push(last) =~= s);
    init.lemma_filter_push(last, p);
    if j == s.len() - 1 {
        assert(s.remove(j) =~= init);
    } else {
        lemma_filter_len_remove(init, j, p);
        assert(init.remove(j).push(last) =~= s.remove(j));
        init.remove(j).lemma_filter_push(last, p);
    }
}

/// Overwriting position `j` with `y` moves one element from the count of
/// `s[j]` to that of `y`.
pub proof fn lemma_filter_len_update<A>(s: Seq<A>, j: int, y: A, p: spec_fn(A) -> bool)
    requires
        0 <= j < s.len(),
    ensures
        s.update(j, y).filter(p).len() + (if p(s[j]) {
            1int
        } else {
            0int
        }) == s.filter(p).len() + (if p(y) {
            1int
        } else {
            0int
        }),
{
    let t = s.update(j, y);
    lemma_filter_len_remove(s, j, p);
    lemma_filter_len_remove(t, j, p);
    assert(t.remove(j) =~= s.remove(j));
}

/// Sequences with the same elements, counted with multiplicity, have the same
/// number of elements of every kind.
pub proof fn lemma_filter_len_perm<A>(a: Seq<A>, b: Seq<A>, p: spec_fn(A) -> bool)
    requires
        a.to_multiset() == b.to_multiset(),
    ensures
        a.filter(p).len() == b.filter(p).len(),
    decreases a.len(),
{
    if a.len() == 0 {
        assert(a.len() == a.to_multiset().len());
        assert(b.len() == b.to_multiset().len());
        assert(b.len() == 0);
        a.lemma_filter_len(p);
        b.lemma_filter_len(p);
    } else {
        let x = a.last();
        let init = a.drop_last();
        assert(init.push(x) =~= a);
        assert(a.to_multiset().count(x) > 0);
        assert(b.contains(x));
        let j = choose|j: int| 0 <= j < b.len() && b[j] == x;
        let rest = b.remove(j);
        assert(rest.to_multiset() =~= init.to_multiset());
        lemma_filter_len_perm(init, rest, p);
        init.lemma_filter_push(x, p);
        lemma_filter_len_remove(b, j, p);
    }
}

/// The multiset of `s` with position `j` overwritten by `y`.
pub proof fn lemma_update_multiset<A>(s: Seq<A>, j: int, y: A)
    requires
        0 <= j < s.len(),
    ensures
        s.update(j, y).to_multiset() == s.to_multiset().remove(s[j]).insert(y),
{
    let t = s.update(j, y);
    assert(t.remove(j) =~= s.remove(j));
    assert(t[j] == y);
    assert(t.to_multiset().count(y) > 0);
    assert(t.to_multiset() =~= t.to_multiset().remove(y).insert(y));
}

/// Every element of one of two permutations is an element of the other.
pub proof fn lemma_perm_contains<A>(a: Seq<A>, b: Seq<A>, x: A)
    requires
        a.to_multiset() == b.to_multiset(),
    ensures
        a.contains(x) == b.contains(x),
{
    assert(a.contains(x) == (a.to_multiset().count(x) > 0));
    assert(b.contains(x) == (b.to_multiset().count(x) > 0));
}

/// A permutation of a sequence without repeats has none either.
pub proof fn lemma_perm_no_duplicates<A>(a: Seq<A>, b: Seq<A>)
    requires
        a.to_multiset() == b.to_multiset(),
        a.no_duplicates(),
    ensures
        b.no_duplicates(),
{
    a.lemma_multiset_has_no_duplicates();
    b.lemma_multiset_has_no_duplicates_conv();
}

/// The elements for which `p` does not hold.
pub open spec fn neg<A>(p: spec_fn(A) -> bool) -> spec_fn(A) -> bool {
    |x: A| !p(x)
}

/// The elements for which both `p` and `q` hold.
pub open spec fn both<A>(p: spec_fn(A) -> bool, q: spec_fn(A) -> bool) -> spec_fn(A) -> bool {
    |x: A| p(x) && q(x)
}

/// Every element is counted either by `p` or by its negation.
pub proof fn lemma_filter_split<A>(s: Seq<A>, p: spec_fn(A) -> bool)
    ensures
        s.len() == s.filter(p).len() + s.filter(neg(p)).len(),
    decreases s.len(),
{
    if s.len() == 0 {
        reveal(Seq::filter);
    } else {
        let t = s.drop_last();
        let x = s.last();
        lemma_filter_split(t, p);
        assert(t.push(x) =~= s);
        t.lemma_filter_push(x, p);
        t.lemma_filter_push(x, neg(p));
    }
}

/// Filtering twice is filtering by both predicates.
pub proof fn lemma_filter_filter<A>(s: Seq<A>, p: spec_fn(A) -> bool, q: spec_fn(A) -> bool)
    ensures
        s.filter(p).filter(q) == s.filter(both(p, q)),
    decreases s.len(),
{
    if s.len() == 0 {
        reveal(Seq::filter);
        assert(s.filter(p) =~= Seq::<A>::empty());
        assert(s.filter(p).filter(q) =~= Seq::<A>::empty());
        assert(s.filter(both(p, q)) =~= Seq::<A>::empty());
    } else {
        let t = s.drop_last();
        let x = s.last();
        lemma_filter_filter(t, p, q);
        assert(t.push(x) =~= s);
        t.lemma_filter_push(x, p);
        t.lemma_filter_push(x, both(p, q));
        t.filter(p).lemma_filter_push(x, q);
    }
}

/// Nothing passes a filter that no element satisfies.
pub proof fn lemma_filter_none<A>(s: Seq<A>, p: spec_fn(A) -> bool)
    requires
        forall|i: int| 0 <= i < s.len() ==> !p(#[trigger] s[i]),
    ensures
        s.filter(p).len() == 0,
{
    if s.filter(p).len() > 0 {
        s.lemma_filter_pred(p, 0);
        assert(s.filter(p).contains(s.filter(p)[0]));
        s.lemma_filter_contains_rev(p, s.filter(p)[0]);
    }
}

/// A filter of a sequence without repeats has none either.
pub proof fn lemma_filter_no_duplicates<A>(s: Seq<A>, p: spec_fn(A) -> bool)
    requires
        s.no_duplicates(),
    ensures
        s.filter(p).no_duplicates(),
    decreases s.len(),
{
    if s.len() > 0 {
        let t = s.drop_last();
        let x = s.last();
        assert(t.push(x) =~= s);
        assert(t.no_duplicates()) by {
            assert forall|a: int, b: int| 0 <= a < b < t.len() implies t[a] != t[b] by {
                assert(s[a] != s[b]);
            }
        }
        lemma_filter_no_duplicates(t, p);
        t.lemma_filter_push(x, p);
        if p(x) {
            if t.filter(p).contains(x) {
                t.lemma_filter_contains_rev(p, x);
                let j = choose|j: int| 0 <= j < t.len() && t[j] == x;
                assert(s[j] == s[s.len() - 1]);
            }
            let f = t.filter(p);
            assert forall|a: int, b: int| 0 <= a < b < f.push(x).len() implies f.push(x)[a]
                != f.push(x)[b] by {
                if b == f.len() {
                    assert(f.contains(f[a]));
                }
            }
        }
    }
}

/// A sequence without repeats whose elements all occur in another sequence
/// without repeats is no longer than it.
pub proof fn lemma_len_by_inclusion<A>(a: Seq<A>, b: Seq<A>)
    requires
        a.no_duplicates(),
        b.no_duplicates(),
        forall|x: A| a.contains(x) ==> b.contains(x),
    ensures
        a.len() <= b.len(),
{
    a.unique_seq_to_set();
    b.unique_seq_to_set();
    assert(a.to_set().subset_of(b.to_set()));
    vstd::set_lib::lemma_len_subset(a.to_set(), b.to_set());
}

} // verus!
