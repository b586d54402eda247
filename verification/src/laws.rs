//! Laws of the structure that relate several operations, stated over the
//! public model (`root_of`, `same`, `merged`) and proved once and for all.

use crate::forest::DisjointSet;
use vstd::prelude::*;

verus! {

/// Finding a representative is idempotent: `find_root` returns the
/// representative of `i`'s subset and leaves every representative as it
/// was, so a second call on any state the first may leave behind returns
/// the same index again.
pub proof fn lemma_find_root_idempotent<T>(
    before: DisjointSet<T>,
    after: DisjointSet<T>,
    i: int,
)
    requires
        before.valid(i),
        after.n() == before.n(),
        forall|j: int| before.valid(j) ==> #[trigger] after.root_of(j) == before.root_of(j),
    ensures
        after.root_of(i) == before.root_of(i),
{
}

/// Merging is symmetric: a state that merges the subsets of `a` and `b`
/// equally merges the subsets of `b` and `a`, and in it `a` and `b` share
/// a subset — so `union(a, b)` and `union(b, a)` leave `same_set(a, b)`
/// true regardless of the call's order.
pub proof fn lemma_union_symmetric<T>(pre: DisjointSet<T>, post: DisjointSet<T>, a: int, b: int)
    requires
        pre.valid(a),
        pre.valid(b),
        DisjointSet::<T>::merged(pre, post, a, b),
    ensures
        DisjointSet::<T>::merged(pre, post, b, a),
        post.same(a, b),
{
    assert(post.same(a, b) <==> pre.same(a, b) || (pre.same(a, a) && pre.same(b, b)) || (pre.same(
        a,
        b,
    ) && pre.same(b, a)));
    assert forall|j: int, k: int| pre.valid(j) && pre.valid(k) implies (#[trigger] post.same(j, k)
        <==> pre.same(j, k) || (pre.same(j, b) && pre.same(k, a)) || (pre.same(j, a) && pre.same(
        k,
        b,
    ))) by {
        assert(post.same(j, k) <==> pre.same(j, k) || (pre.same(j, a) && pre.same(k, b)) || (
        pre.same(j, b) && pre.same(k, a)));
    }
}

/// Merging is blind to which member of a subset names it: merging via any
/// members `a2`, `b2` of the subsets of `a` and `b` yields the same
/// partition as merging via `a` and `b` themselves.
pub proof fn lemma_union_by_any_member<T>(
    pre: DisjointSet<T>,
    post: DisjointSet<T>,
    a: int,
    b: int,
    a2: int,
    b2: int,
)
    requires
        pre.valid(a),
        pre.valid(b),
        pre.valid(a2),
        pre.valid(b2),
        pre.same(a, a2),
        pre.same(b, b2),
        DisjointSet::<T>::merged(pre, post, a, b),
    ensures
        DisjointSet::<T>::merged(pre, post, a2, b2),
{
    assert forall|j: int, k: int| pre.valid(j) && pre.valid(k) implies (#[trigger] post.same(j, k)
        <==> pre.same(j, k) || (pre.same(j, a2) && pre.same(k, b2)) || (pre.same(j, b2)
        && pre.same(k, a2))) by {
        assert(post.same(j, k) <==> pre.same(j, k) || (pre.same(j, a) && pre.same(k, b)) || (
        pre.same(j, b) && pre.same(k, a)));
    }
}

} // verus!
