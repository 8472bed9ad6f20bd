//! Laws that relate several calls on a `DisjointSet`, proved from the
//! contracts of its operations.
use crate::disjoint_set::DisjointSet;
use vstd::prelude::*;

verus! {

/// Whether the pairs joined so far, in order, link `x` and `y`: the smallest
/// equivalence that holds every pair, built up one pair at a time.
pub open spec fn linked(pairs: Seq<(u64, u64)>, x: u64, y: u64) -> bool
    decreases pairs.len(),
{
    if pairs.len() == 0 {
        x == y
    } else {
        let q = pairs.drop_last();
        let a = pairs.last().0;
        let b = pairs.last().1;
        linked(q, x, y) || (linked(q, x, a) && linked(q, b, y)) || (linked(q, x, b) && linked(
            q,
            a,
            y,
        ))
    }
}

/// Every element given at construction is its own representative, so a
/// lookup of it right after construction returns it.
pub proof fn lemma_built_elements_are_roots(v: Seq<u64>, s: DisjointSet, e: u64, r: u64)
    requires
        s@ == Map::new(|x: u64| v.contains(x), |x: u64| x),
        v.contains(e),
        r == s.rep(e),
    ensures
        r == e,
{
}

/// The first lookup of an element not seen before returns the element, and so
/// does the lookup after it.
pub proof fn lemma_first_lookup_is_own_root(
    s0: DisjointSet,
    s1: DisjointSet,
    s2: DisjointSet,
    e: u64,
    r1: u64,
    r2: u64,
)
    requires
        !s0@.contains_key(e),
        DisjointSet::after_find(s0, s1, e),
        r1 == s0.rep(e),
        DisjointSet::after_find(s1, s2, e),
        r2 == s1.rep(e),
    ensures
        r1 == e,
        r2 == e,
{
}

/// A lookup of an element not seen before makes it a set of its own, with
/// itself as representative, and the count grows by one.
pub proof fn lemma_lookup_registers_new_element(s0: DisjointSet, s1: DisjointSet, e: u64)
    requires
        !s0@.contains_key(e),
        DisjointSet::after_find(s0, s1, e),
    ensures
        s1@.contains_key(e),
        s1.rep(e) == e,
        s1.spec_count() == s0.spec_count() + 1,
{
}

/// A union of two distinct elements not seen before registers both, joins
/// them, and so leaves the count one higher: two new sets, one merge.
pub proof fn lemma_union_registers_new_elements(
    s0: DisjointSet,
    s1: DisjointSet,
    a: u64,
    b: u64,
    r: bool,
)
    requires
        !s0@.contains_key(a),
        !s0@.contains_key(b),
        a != b,
        DisjointSet::after_union(s0, s1, a, b, r),
    ensures
        r,
        s1@.contains_key(a) && s1@.contains_key(b),
        s1.joins(a, b),
        s1.spec_count() == s0.spec_count() + 1,
{
    assert(s1.rep(a) == s0.merged_root(a, b));
    assert(s1.rep(b) == s0.merged_root(a, b));
}

/// Once `e` represents its own set (right after construction from a list
/// holding it, or after its first lookup), a lookup of it after any number
/// of lookups and `connected` queries, with no union between, returns `e`;
/// if `e` was registered at the start, that lookup leaves the count as it was.
pub proof fn lemma_own_root_until_union(
    states: Seq<DisjointSet>,
    post: DisjointSet,
    e: u64,
    r: u64,
)
    requires
        states.len() >= 1,
        states[0].rep(e) == e,
        forall|i: int|
            0 <= i < states.len() - 1 ==> DisjointSet::keeps_sets(
                #[trigger] states[i],
                states[i + 1],
            ),
        DisjointSet::after_find(states.last(), post, e),
        r == states.last().rep(e),
    ensures
        r == e,
        states[0]@.contains_key(e) ==> post.spec_count() == states.last().spec_count(),
    decreases states.len(),
{
    if states.len() > 1 {
        let earlier = states.drop_last();
        let prev = earlier.last();
        assert(earlier[earlier.len() - 1] == states[states.len() - 2]);
        assert(DisjointSet::keeps_sets(prev, states.last()));
        assert forall|i: int| 0 <= i < earlier.len() - 1 implies DisjointSet::keeps_sets(
            #[trigger] earlier[i],
            earlier[i + 1],
        ) by {
            assert(earlier[i] == states[i]);
            assert(earlier[i + 1] == states[i + 1]);
        }
        lemma_own_root_prefix(earlier, e);
        assert(states.last().rep(e) == prev.rep(e));
    }
}

/// Along a run of steps that keep the sets, `e` stays its own representative
/// and stays registered once registered.
proof fn lemma_own_root_prefix(states: Seq<DisjointSet>, e: u64)
    requires
        states.len() >= 1,
        states[0].rep(e) == e,
        forall|i: int|
            0 <= i < states.len() - 1 ==> DisjointSet::keeps_sets(
                #[trigger] states[i],
                states[i + 1],
            ),
    ensures
        states.last().rep(e) == e,
        states[0]@.contains_key(e) ==> states.last()@.contains_key(e),
    decreases states.len(),
{
    if states.len() > 1 {
        let earlier = states.drop_last();
        assert(earlier[earlier.len() - 1] == states[states.len() - 2]);
        assert forall|i: int| 0 <= i < earlier.len() - 1 implies DisjointSet::keeps_sets(
            #[trigger] earlier[i],
            earlier[i + 1],
        ) by {
            assert(earlier[i] == states[i]);
            assert(earlier[i + 1] == states[i + 1]);
        }
        lemma_own_root_prefix(earlier, e);
        assert(DisjointSet::keeps_sets(states[states.len() - 2], states.last()));
    }
}

/// After a union that merged, `connected` reports the two elements as
/// joined, and the count has dropped by one (for elements already registered).
pub proof fn lemma_union_then_connected(
    s0: DisjointSet,
    s1: DisjointSet,
    a: u64,
    b: u64,
    c: bool,
)
    requires
        DisjointSet::after_union(s0, s1, a, b, true),
        c == s1.joins(a, b),
    ensures
        c,
        s1.spec_count() + 1 == s0.spec_count() + s0.fresh(a, b),
        s0@.contains_key(a) && s0@.contains_key(b) ==> s1.spec_count() + 1 == s0.spec_count(),
{
    assert(s1.rep(a) == s0.merged_root(a, b));
    assert(s1.rep(b) == s0.merged_root(a, b));
}

/// A second union of the same two elements returns false and changes
/// neither the sets nor the count.
pub proof fn lemma_union_again_changes_nothing(
    s0: DisjointSet,
    s1: DisjointSet,
    s2: DisjointSet,
    a: u64,
    b: u64,
    r1: bool,
    r2: bool,
)
    requires
        DisjointSet::after_union(s0, s1, a, b, r1),
        DisjointSet::after_union(s1, s2, a, b, r2),
    ensures
        !r2,
        s2@ == s1@,
        s2.spec_count() == s1.spec_count(),
{
    assert(s1.rep(a) == s1.rep(b)) by {
        if r1 {
            assert(s1.rep(a) == s0.merged_root(a, b));
            assert(s1.rep(b) == s0.merged_root(a, b));
        }
    }
    assert forall|x: u64| s2@.contains_key(x) implies s2@[x] == s1@[x] by {
        assert(s2.rep(x) == s1.rep(x));
    }
    assert(s2@ =~= s1@);
}

/// Repeated lookups with no union between them return the same
/// representative and leave the count as the first lookup left it.
pub proof fn lemma_lookup_is_idempotent(
    s0: DisjointSet,
    s1: DisjointSet,
    s2: DisjointSet,
    e: u64,
    r1: u64,
    r2: u64,
)
    requires
        DisjointSet::after_find(s0, s1, e),
        DisjointSet::keeps_sets(s0, s1),
        r1 == s0.rep(e),
        DisjointSet::after_find(s1, s2, e),
        r2 == s1.rep(e),
    ensures
        r1 == r2,
        s2.spec_count() == s1.spec_count(),
        s2@ == s1@,
{
}

/// Repeated `connected` queries with no union between them give the same
/// answer and leave the count as the first query left it.
pub proof fn lemma_connected_is_idempotent(
    s0: DisjointSet,
    s1: DisjointSet,
    s2: DisjointSet,
    a: u64,
    b: u64,
    c1: bool,
    c2: bool,
)
    requires
        c1 == s0.joins(a, b),
        DisjointSet::keeps_sets(s0, s1),
        s1@.dom() == s0@.dom().insert(a).insert(b),
        s1.spec_count() == s0.spec_count() + s0.fresh(a, b),
        c2 == s1.joins(a, b),
        DisjointSet::keeps_sets(s1, s2),
        s2@.dom() == s1@.dom().insert(a).insert(b),
        s2.spec_count() == s1.spec_count() + s1.fresh(a, b),
    ensures
        c1 == c2,
        s2.spec_count() == s1.spec_count(),
{
    assert(s1@.contains_key(a) && s1@.contains_key(b));
}

/// Starting from sets of one element each, after any run of unions and
/// lookups two elements lie in one set exactly when the joined pairs link
/// them, however the trees were compressed on the way. Step `i` joins
/// `pairs[i]` with result `results[i]`; a lookup is a step whose pair is an
/// element with itself.
pub proof fn lemma_sets_are_closure_of_unions(
    states: Seq<DisjointSet>,
    pairs: Seq<(u64, u64)>,
    results: Seq<bool>,
)
    requires
        states.len() == pairs.len() + 1,
        results.len() == pairs.len(),
        forall|x: u64| #[trigger] states[0]@.contains_key(x) ==> states[0]@[x] == x,
        forall|i: int|
            0 <= i < pairs.len() ==> DisjointSet::after_union(
                #[trigger] states[i],
                states[i + 1],
                pairs[i].0,
                pairs[i].1,
                results[i],
            ) || (pairs[i].0 == pairs[i].1 && DisjointSet::keeps_sets(states[i], states[i + 1])),
    ensures
        forall|x: u64, y: u64| #[trigger] states.last().joins(x, y) <==> linked(pairs, x, y),
    decreases pairs.len(),
{
    let n = pairs.len();
    if n == 0 {
        assert forall|x: u64, y: u64| #[trigger] states.last().joins(x, y) <==> linked(
            pairs,
            x,
            y,
        ) by {
            if states[0]@.contains_key(x) {
                assert(states[0]@[x] == x);
            }
            if states[0]@.contains_key(y) {
                assert(states[0]@[y] == y);
            }
        }
    } else {
        let q = pairs.drop_last();
        let earlier = states.drop_last();
        let rs = results.drop_last();
        assert forall|i: int|
            0 <= i < q.len() implies DisjointSet::after_union(
                #[trigger] earlier[i],
                earlier[i + 1],
                q[i].0,
                q[i].1,
                rs[i],
            ) || (q[i].0 == q[i].1 && DisjointSet::keeps_sets(earlier[i], earlier[i + 1])) by {
            assert(earlier[i] == states[i]);
            assert(earlier[i + 1] == states[i + 1]);
            assert(q[i] == pairs[i]);
            assert(rs[i] == results[i]);
        }
        lemma_sets_are_closure_of_unions(earlier, q, rs);
        let s = states[n - 1];
        let t = states[n as int];
        assert(earlier.last() == s);
        let a = pairs.last().0;
        let b = pairs.last().1;
        let r = results.last();
        assert(pairs[n - 1] == pairs.last());
        assert(states[n - 1] == s);
        if DisjointSet::after_union(s, t, a, b, r) {
            assert forall|x: u64, y: u64| #[trigger] t.joins(x, y) <==> linked(pairs, x, y) by {
                assert(t.rep(x) == if r && (s.rep(x) == s.rep(a) || s.rep(x) == s.rep(b)) {
                    s.merged_root(a, b)
                } else {
                    s.rep(x)
                });
                assert(t.rep(y) == if r && (s.rep(y) == s.rep(a) || s.rep(y) == s.rep(b)) {
                    s.merged_root(a, b)
                } else {
                    s.rep(y)
                });
                assert(s.joins(x, y) == linked(q, x, y));
                assert(s.joins(x, a) == linked(q, x, a));
                assert(s.joins(b, y) == linked(q, b, y));
                assert(s.joins(x, b) == linked(q, x, b));
                assert(s.joins(a, y) == linked(q, a, y));
            }
        } else {
            assert forall|x: u64, y: u64| #[trigger] t.joins(x, y) <==> linked(pairs, x, y) by {
                assert(t.rep(x) == s.rep(x));
                assert(t.rep(y) == s.rep(y));
                assert(s.joins(x, y) == linked(q, x, y));
                assert(s.joins(x, a) == linked(q, x, a));
                assert(s.joins(a, y) == linked(q, a, y));
            }
        }
    }
}

} // verus!
