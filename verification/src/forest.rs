//! The arena of nodes, the union-find forest over it, the root registry and
//! the per-subset traversal chains, together with the invariant tying the
//! four together.

use std::collections::HashSet;
use vstd::prelude::*;
use vstd::std_specs::cmp::PartialEqSpec;

verus! {

broadcast use vstd::std_specs::hash::group_hash_axioms;

/// One arena slot: the payload, the parent pointer of the union-find
/// forest, the rank bound used by union by rank, and the successor in the
/// subset's circular traversal chain.
struct Node<T> {
    elem: T,
    parent_idx: usize,
    rank: usize,
    next: usize,
}

/// A disjoint-set structure: an append-only arena of nodes addressed by
/// dense indices `0..n`, partitioned into subsets.
///
/// Ghost state carries the mathematical model: `rt` labels every index with
/// the representative (root) of its subset, and `chains` records, for every
/// root, the order in which the subset's circular traversal chain visits
/// its members.
pub struct DisjointSet<T> {
    nodes: Vec<Node<T>>,
    roots: HashSet<usize>,
    rt: Ghost<Seq<int>>,
    chains: Ghost<Map<int, Seq<int>>>,
}

impl<T> DisjointSet<T> {
    /// How many elements the arena holds.
    pub closed spec fn n(self) -> int {
        self.nodes@.len() as int
    }

    /// Whether `i` addresses an element of the arena.
    pub open spec fn valid(self, i: int) -> bool {
        0 <= i < self.n()
    }

    /// The representative (root index) of the subset `i` belongs to.
    pub closed spec fn root_of(self, i: int) -> int {
        self.rt@[i]
    }

    /// Whether `i` is the representative of its subset.
    pub open spec fn is_root(self, i: int) -> bool {
        self.valid(i) && self.root_of(i) == i
    }

    /// Whether `i` and `j` belong to the same subset.
    pub open spec fn same(self, i: int, j: int) -> bool {
        self.root_of(i) == self.root_of(j)
    }

    /// Whether everything the model observes — the payloads, the
    /// partition, the ranks, the traversal chains and the root registry —
    /// is the same in both states.  Path splitting inside `find_root`
    /// changes none of it.
    pub open spec fn model_unchanged(pre: Self, post: Self) -> bool {
        &&& post.n() == pre.n()
        &&& post.elems() == pre.elems()
        &&& (forall|j: int|
            pre.valid(j) ==> #[trigger] post.root_of(j) == pre.root_of(j) && post.rank_of(j)
                == pre.rank_of(j) && post.next_of(j) == pre.next_of(j))
        &&& post.root_set() == pre.root_set()
    }

    /// How a merge of the subsets of `a` and `b` changes the partition:
    /// two indices lie in the same subset afterwards exactly when they
    /// already did, or when they lie on opposite sides of the merge.
    pub open spec fn merged(pre: Self, post: Self, a: int, b: int) -> bool {
        &&& post.n() == pre.n()
        &&& (forall|j: int, k: int|
            pre.valid(j) && pre.valid(k) ==> (#[trigger] post.same(j, k) <==> pre.same(j, k) || (
            pre.same(j, a) && pre.same(k, b)) || (pre.same(j, b) && pre.same(k, a))))
    }

    /// The payloads of the arena, in index order.
    pub closed spec fn elems(self) -> Seq<T> {
        self.nodes@.map_values(|nd: Node<T>| nd.elem)
    }

    /// The rank stored at index `i`.
    pub closed spec fn rank_of(self, i: int) -> int {
        self.nodes@[i].rank as int
    }

    /// The successor of `i` in its subset's circular traversal chain.
    pub closed spec fn next_of(self, i: int) -> int {
        self.nodes@[i].next as int
    }

    /// The parent pointer at index `i` (internal to the find structure).
    spec fn parent_of(self, i: int) -> int {
        self.nodes@[i].parent_idx as int
    }

    /// How many elements lie in the same subset as `i`.
    pub open spec fn subset_card(self, i: int) -> nat {
        Set::new(|j: int| self.valid(j) && self.same(j, i)).len()
    }

    /// The set of indices that are currently subset representatives.
    pub open spec fn root_set(self) -> Set<usize> {
        Set::new(|i: usize| self.is_root(i as int))
    }

    /// The members of each subset, in traversal-chain order, keyed by root.
    spec fn chain(self, r: int) -> Seq<int> {
        self.chains@[r]
    }

    /// The chain recorded for root `r` starts at `r`, stays within the
    /// subset of `r`, covers that subset without repetition, and the `next`
    /// pointers walk it in order, wrapping around to `r` at the end.
    spec fn chain_ok(self, r: int) -> bool {
        let c = self.chain(r);
        &&& self.chains@.contains_key(r)
        &&& c.len() >= 1
        &&& c[0] == r
        &&& c.no_duplicates()
        &&& (forall|k: int|
            0 <= k < c.len() ==> self.valid(#[trigger] c[k]) && self.root_of(c[k]) == r)
        &&& (forall|j: int| self.valid(j) && self.root_of(j) == r ==> c.contains(j))
        &&& (forall|k: int| 0 <= k < c.len() - 1 ==> self.next_of(#[trigger] c[k]) == c[k + 1])
        &&& self.next_of(c[c.len() - 1]) == r
    }

    /// The structural invariant; it holds when the structure is created and
    /// every operation preserves it.
    pub closed spec fn wf(self) -> bool {
        &&& self.rt@.len() == self.n()
        &&& (forall|i: int| self.valid(i) ==> self.valid(#[trigger] self.parent_of(i)))
        &&& (forall|i: int| self.valid(i) ==> self.valid(#[trigger] self.next_of(i)))
        &&& (forall|i: int| self.valid(i) ==> self.valid(#[trigger] self.root_of(i)))
        &&& (forall|i: int|
            self.valid(i) ==> #[trigger] self.root_of(self.root_of(i)) == self.root_of(i))
        &&& (forall|i: int|
            self.valid(i) ==> ((#[trigger] self.parent_of(i)) == i <==> self.root_of(i) == i))
        &&& (forall|i: int|
            self.valid(i) ==> #[trigger] self.root_of(self.parent_of(i)) == self.root_of(i))
        &&& (forall|i: int|
            self.valid(i) && self.parent_of(i) != i ==> #[trigger] self.rank_of(i) < self.rank_of(
                self.parent_of(i),
            ))
        &&& (forall|i: int| self.valid(i) ==> #[trigger] self.rank_of(i) <= self.n())
        &&& (forall|r: int|
            self.is_root(r) ==> #[trigger] self.chain_ok(r) && self.rank_of(r) < self.chain(
                r,
            ).len())
        &&& self.roots@ == self.root_set()
        &&& self.roots@.finite()
    }

    /// Creates an empty structure: no elements, no subsets.
    pub fn new() -> (s: Self)
        ensures
            s.wf(),
            s.n() == 0,
            s.root_set().len() == 0,
            s.elems() == Seq::<T>::empty(),
    {
        let s = DisjointSet {
            nodes: Vec::new(),
            roots: HashSet::new(),
            rt: Ghost(Seq::empty()),
            chains: Ghost(Map::empty()),
        };
        proof {
            assert(s.root_set() =~= Set::<usize>::empty());
            assert(s.elems() =~= Seq::<T>::empty());
        }
        s
    }

    /// Creates an empty structure whose arena starts with room for
    /// `capacity` elements.
    pub fn with_capacity(capacity: usize) -> (s: Self)
        ensures
            s.wf(),
            s.n() == 0,
            s.root_set().len() == 0,
            s.elems() == Seq::<T>::empty(),
    {
        let s = DisjointSet {
            nodes: Vec::with_capacity(capacity),
            roots: HashSet::with_capacity(capacity),
            rt: Ghost(Seq::empty()),
            chains: Ghost(Map::empty()),
        };
        proof {
            assert(s.root_set() =~= Set::<usize>::empty());
            assert(s.elems() =~= Seq::<T>::empty());
        }
        s
    }

    /// The number of elements held, over all subsets.
    pub fn num_elements(&self) -> (r: usize)
        ensures
            r == self.n(),
    {
        self.nodes.len()
    }

    /// The number of disjoint subsets.
    pub fn num_subsets(&self) -> (r: usize)
        requires
            self.wf(),
        ensures
            r == self.root_set().len(),
    {
        self.roots.len()
    }

    /// Bounds-checked exclusive access to the payload at `i`.  While the
    /// returned borrow lives, the borrow checker rules out every other
    /// access into the arena; only the payload can change through it, so
    /// the partition, ranks, chains and registry are untouched.
    pub fn read_mut(&mut self, i: usize) -> (r: Option<&mut T>)
        requires
            old(self).wf(),
        ensures
            match r {
                Some(e) => {
                    &&& old(self).valid(i as int)
                    &&& *e == old(self).elems()[i as int]
                    &&& final(self).wf()
                    &&& final(self).n() == old(self).n()
                    &&& final(self).elems() == old(self).elems().update(i as int, *final(e))
                    &&& (forall|j: int|
                        old(self).valid(j) ==> #[trigger] final(self).root_of(j)
                            == old(self).root_of(j) && final(self).rank_of(j)
                            == old(self).rank_of(j) && final(self).next_of(j)
                            == old(self).next_of(j))
                    &&& final(self).root_set() == old(self).root_set()
                },
                None => {
                    &&& !old(self).valid(i as int)
                    &&& *final(self) == *old(self)
                },
            },
    {
        if i < self.nodes.len() {
            proof {
                let pre = *self;
                assert forall|post: DisjointSet<T>|
                    (post.nodes@.len() == pre.nodes@.len() && (forall|j: int|
                        0 <= j < pre.nodes@.len() && j != i as int
                            ==> #[trigger] post.nodes@[j] == pre.nodes@[j])
                        && post.nodes@[i as int].parent_idx == pre.nodes@[i as int].parent_idx
                        && post.nodes@[i as int].rank == pre.nodes@[i as int].rank
                        && post.nodes@[i as int].next == pre.nodes@[i as int].next && post.rt@
                        == pre.rt@ && post.chains@ == pre.chains@ && post.roots@
                        == pre.roots@) implies (#[trigger] post.wf() && post.elems()
                    == pre.elems().update(i as int, post.nodes@[i as int].elem) && post.root_set()
                    == pre.root_set() && (forall|j: int|
                    pre.valid(j) ==> #[trigger] post.root_of(j) == pre.root_of(j) && post.rank_of(
                        j,
                    ) == pre.rank_of(j) && post.next_of(j) == pre.next_of(j))) by {
                    assert forall|j: int| pre.valid(j) implies #[trigger] post.parent_of(j)
                        == pre.parent_of(j) && post.rank_of(j) == pre.rank_of(j) && post.next_of(
                        j,
                    ) == pre.next_of(j) by {
                        if j != i as int {
                            assert(post.nodes@[j] == pre.nodes@[j]);
                        }
                    }
                    lemma_same_links_wf(pre, post);
                    assert(post.elems() =~= pre.elems().update(
                        i as int,
                        post.nodes@[i as int].elem,
                    ));
                }
            }
            Some(&mut self.nodes[i].elem)
        } else {
            None
        }
    }

    /// Bounds-checked shared access to the payload at `i`.
    pub fn read(&self, i: usize) -> (r: Option<&T>)
        ensures
            match r {
                Some(e) => self.valid(i as int) && *e == self.elems()[i as int],
                None => !self.valid(i as int),
            },
    {
        if i < self.nodes.len() {
            Some(&self.nodes[i].elem)
        } else {
            None
        }
    }
}

/// A sequence of distinct indices drawn from `0..n` cannot be longer than
/// `n`.
proof fn lemma_distinct_indices_len(c: Seq<int>, n: int)
    requires
        0 <= n,
        c.no_duplicates(),
        forall|k: int| 0 <= k < c.len() ==> 0 <= #[trigger] c[k] < n,
    ensures
        c.len() <= n,
{
    broadcast use vstd::seq_lib::group_seq_properties;

    c.unique_seq_to_set();
    assert forall|x: int| c.to_set().contains(x) implies vstd::set_lib::set_int_range(
        0,
        n,
    ).contains(x) by {
        assert(c.contains(x));
        let k = choose|k: int| 0 <= k < c.len() && c[k] == x;
        assert(0 <= c[k] < n);
    }
    vstd::set_lib::lemma_int_range(0, n);
    vstd::set_lib::lemma_len_subset(c.to_set(), vstd::set_lib::set_int_range(0, n));
}

/// A subset's traversal chain only depends on the `next` links, the root
/// labelling and the arena length, so it survives any change to parent
/// pointers, ranks or payloads.
proof fn lemma_chain_transfer<T>(a: DisjointSet<T>, b: DisjointSet<T>, r: int)
    requires
        a.chain_ok(r),
        b.n() == a.n(),
        b.chains@ == a.chains@,
        b.rt@ == a.rt@,
        forall|j: int| a.valid(j) ==> #[trigger] b.next_of(j) == a.next_of(j),
    ensures
        b.chain_ok(r),
{
    let c = a.chain(r);
    assert(b.chain(r) == c);
    assert forall|k: int| 0 <= k < c.len() implies b.valid(#[trigger] c[k]) && b.root_of(c[k])
        == r by {
        assert(a.valid(c[k]));
    }
    assert forall|k: int| 0 <= k < c.len() - 1 implies b.next_of(#[trigger] c[k]) == c[k + 1] by {
        assert(a.valid(c[k]));
        assert(a.next_of(c[k]) == c[k + 1]);
    }
    assert(a.valid(c[c.len() - 1]));
    assert(b.next_of(c[c.len() - 1]) == r);
}

/// The invariant does not mention payloads, so any two states that agree
/// on everything but the payloads are equally well formed.
proof fn lemma_same_links_wf<T>(a: DisjointSet<T>, b: DisjointSet<T>)
    requires
        a.wf(),
        b.n() == a.n(),
        b.rt@ == a.rt@,
        b.chains@ == a.chains@,
        b.roots@ == a.roots@,
        forall|j: int| a.valid(j) ==> #[trigger] b.parent_of(j) == a.parent_of(j),
        forall|j: int| a.valid(j) ==> #[trigger] b.rank_of(j) == a.rank_of(j),
        forall|j: int| a.valid(j) ==> #[trigger] b.next_of(j) == a.next_of(j),
    ensures
        b.wf(),
        b.root_set() == a.root_set(),
{
    assert(b.root_set() =~= a.root_set());
    assert forall|i: int| b.valid(i) implies b.valid(#[trigger] b.parent_of(i)) by {
        assert(a.valid(a.parent_of(i)));
    }
    assert forall|i: int| b.valid(i) implies b.valid(#[trigger] b.next_of(i)) by {
        assert(a.valid(a.next_of(i)));
    }
    assert forall|i: int| b.valid(i) implies b.valid(#[trigger] b.root_of(i)) by {
        assert(a.valid(a.root_of(i)));
    }
    assert forall|i: int| b.valid(i) implies #[trigger] b.root_of(b.root_of(i)) == b.root_of(
        i,
    ) by {
        assert(a.root_of(a.root_of(i)) == a.root_of(i));
    }
    assert forall|i: int| b.valid(i) implies ((#[trigger] b.parent_of(i)) == i <==> b.root_of(i)
        == i) by {
        assert(a.parent_of(i) == i <==> a.root_of(i) == i);
    }
    assert forall|i: int| b.valid(i) implies #[trigger] b.root_of(b.parent_of(i)) == b.root_of(
        i,
    ) by {
        assert(a.root_of(a.parent_of(i)) == a.root_of(i));
        assert(a.valid(a.parent_of(i)));
    }
    assert forall|i: int| b.valid(i) && b.parent_of(i) != i implies #[trigger] b.rank_of(i)
        < b.rank_of(b.parent_of(i)) by {
        assert(a.rank_of(i) < a.rank_of(a.parent_of(i)));
        assert(a.valid(a.parent_of(i)));
    }
    assert forall|i: int| b.valid(i) implies #[trigger] b.rank_of(i) <= b.n() by {
        assert(a.rank_of(i) <= a.n());
    }
    assert forall|r: int| b.is_root(r) implies #[trigger] b.chain_ok(r) && b.rank_of(r) < b.chain(
        r,
    ).len() by {
        assert(a.is_root(r));
        assert(a.chain_ok(r));
        lemma_chain_transfer(a, b, r);
        assert(b.chain(r) == a.chain(r));
        assert(a.valid(r));
    }
    assert(b.rt@.len() == b.n());
    assert(b.roots@ == b.root_set());
    assert(b.roots@.finite());
    assert(b.wf());
}

/// Rewriting one non-root node's parent pointer to its grandparent (the
/// path-splitting step) preserves the invariant and the whole observable
/// model: payloads, partition, ranks, chains and the root registry.
proof fn lemma_parent_rewrite<T>(a: DisjointSet<T>, b: DisjointSet<T>, ci: int, gp: int)
    requires
        a.wf(),
        a.valid(ci),
        a.parent_of(ci) != ci,
        gp == a.parent_of(a.parent_of(ci)),
        b.n() == a.n(),
        b.rt@ == a.rt@,
        b.chains@ == a.chains@,
        b.roots@ == a.roots@,
        forall|j: int| a.valid(j) && j != ci ==> #[trigger] b.nodes@[j] == a.nodes@[j],
        b.parent_of(ci) == gp,
        b.rank_of(ci) == a.rank_of(ci),
        b.next_of(ci) == a.next_of(ci),
        b.nodes@[ci].elem == a.nodes@[ci].elem,
    ensures
        b.wf(),
        b.elems() == a.elems(),
        b.root_set() == a.root_set(),
        forall|j: int|
            a.valid(j) ==> #[trigger] b.root_of(j) == a.root_of(j) && b.rank_of(j) == a.rank_of(j)
                && b.next_of(j) == a.next_of(j),
{
    let p = a.parent_of(ci);
    assert(a.valid(p));
    assert(a.valid(gp));
    assert(a.rank_of(ci) < a.rank_of(p));
    assert(a.rank_of(p) <= a.rank_of(gp));
    assert(gp != ci);
    assert(a.root_of(gp) == a.root_of(p));
    assert(a.root_of(p) == a.root_of(ci));
    assert forall|j: int| a.valid(j) implies #[trigger] b.root_of(j) == a.root_of(j)
        && b.rank_of(j) == a.rank_of(j) && b.next_of(j) == a.next_of(j) by {}
    assert(b.elems() =~= a.elems());
    assert(b.root_set() =~= a.root_set());
    assert forall|i: int| b.valid(i) implies b.valid(#[trigger] b.parent_of(i)) by {
        if i != ci {
            assert(a.valid(a.parent_of(i)));
        }
    }
    assert forall|i: int| b.valid(i) implies b.valid(#[trigger] b.next_of(i)) by {
        assert(a.valid(a.next_of(i)));
    }
    assert forall|i: int| b.valid(i) implies b.valid(#[trigger] b.root_of(i)) by {
        assert(a.valid(a.root_of(i)));
    }
    assert forall|i: int| b.valid(i) implies #[trigger] b.root_of(b.root_of(i)) == b.root_of(
        i,
    ) by {
        assert(a.root_of(a.root_of(i)) == a.root_of(i));
        assert(a.valid(a.root_of(i)));
    }
    assert forall|i: int| b.valid(i) implies ((#[trigger] b.parent_of(i)) == i <==> b.root_of(i)
        == i) by {
        if i != ci {
            assert(a.parent_of(i) == i <==> a.root_of(i) == i);
        } else {
            assert(a.root_of(ci) != ci);
        }
    }
    assert forall|i: int| b.valid(i) implies #[trigger] b.root_of(b.parent_of(i)) == b.root_of(
        i,
    ) by {
        if i != ci {
            assert(a.root_of(a.parent_of(i)) == a.root_of(i));
            assert(a.valid(a.parent_of(i)));
        }
    }
    assert forall|i: int| b.valid(i) && b.parent_of(i) != i implies #[trigger] b.rank_of(i)
        < b.rank_of(b.parent_of(i)) by {
        if i != ci {
            assert(a.rank_of(i) < a.rank_of(a.parent_of(i)));
            assert(a.valid(a.parent_of(i)));
        }
    }
    assert forall|i: int| b.valid(i) implies #[trigger] b.rank_of(i) <= b.n() by {
        assert(a.rank_of(i) <= a.n());
    }
    assert forall|r: int| b.is_root(r) implies #[trigger] b.chain_ok(r) && b.rank_of(r) < b.chain(
        r,
    ).len() by {
        assert(a.is_root(r));
        assert(a.chain_ok(r));
        lemma_chain_transfer(a, b, r);
        assert(b.chain(r) == a.chain(r));
    }
}

/// The one merge step of `union` — reparenting the losing root under the
/// winning root, bumping the winner's rank on a tie, dropping the loser
/// from the root registry, relabelling the loser's subset, and splicing
/// the two traversal chains end to end — restores the invariant and merges
/// exactly the two subsets involved.
proof fn lemma_union_restores<T>(
    pre: DisjointSet<T>,
    post: DisjointSet<T>,
    a: int,
    b: int,
    w: usize,
    l: usize,
    lw: usize,
    ll: usize,
)
    requires
        pre.wf(),
        pre.valid(a),
        pre.valid(b),
        pre.is_root(w as int),
        pre.is_root(l as int),
        w != l,
        (pre.root_of(a) == w as int && pre.root_of(b) == l as int) || (pre.root_of(a) == l as int
            && pre.root_of(b) == w as int),
        pre.rank_of(w as int) >= pre.rank_of(l as int),
        lw as int == pre.chain(w as int).last(),
        ll as int == pre.chain(l as int).last(),
        post.n() == pre.n(),
        post.rt@ == Seq::new(
            pre.rt@.len(),
            |j: int| if pre.rt@[j] == l as int { w as int } else { pre.rt@[j] },
        ),
        post.chains@ == pre.chains@.remove(l as int).insert(
            w as int,
            pre.chain(w as int) + pre.chain(l as int),
        ),
        post.roots@ == pre.roots@.remove(l),
        forall|j: int| pre.valid(j) ==> #[trigger] post.nodes@[j].elem == pre.nodes@[j].elem,
        forall|j: int|
            pre.valid(j) ==> #[trigger] post.parent_of(j) == (if j == l as int {
                w as int
            } else {
                pre.parent_of(j)
            }),
        forall|j: int|
            pre.valid(j) ==> #[trigger] post.rank_of(j) == (if j == w as int && pre.rank_of(
                w as int,
            ) == pre.rank_of(l as int) {
                pre.rank_of(w as int) + 1
            } else {
                pre.rank_of(j)
            }),
        forall|j: int|
            pre.valid(j) ==> #[trigger] post.next_of(j) == (if j == lw as int {
                l as int
            } else if j == ll as int {
                w as int
            } else {
                pre.next_of(j)
            }),
    ensures
        post.wf(),
        post.elems() == pre.elems(),
        DisjointSet::<T>::merged(pre, post, a, b),
        post.same(a, b),
        post.root_of(a) == w as int,
        post.root_set().len() == pre.root_set().len() - 1,
{
    let wi = w as int;
    let li = l as int;
    let cw = pre.chain(wi);
    let cl = pre.chain(li);
    let tie = pre.rank_of(wi) == pre.rank_of(li);
    assert(pre.chain_ok(wi));
    assert(pre.chain_ok(li));
    lemma_distinct_indices_len(cw, pre.n());
    assert(pre.root_of(lw as int) == wi && pre.valid(lw as int));
    assert(pre.root_of(ll as int) == li && pre.valid(ll as int));
    assert(lw != ll);
    assert(lw as int != li);
    assert(ll as int != wi);
    // How the relabelling acts, pointwise.
    assert forall|j: int| pre.valid(j) implies #[trigger] post.root_of(j) == (if pre.root_of(j)
        == li {
        wi
    } else {
        pre.root_of(j)
    }) by {}
    assert(post.elems() =~= pre.elems());
    // The invariant, clause by clause.
    assert forall|i: int| post.valid(i) implies post.valid(#[trigger] post.parent_of(i)) by {
        if i != li {
            assert(pre.valid(pre.parent_of(i)));
        }
    }
    assert forall|i: int| post.valid(i) implies post.valid(#[trigger] post.next_of(i)) by {
        assert(pre.valid(pre.next_of(i)));
    }
    assert forall|i: int| post.valid(i) implies post.valid(#[trigger] post.root_of(i)) by {
        assert(pre.valid(pre.root_of(i)));
    }
    assert forall|i: int| post.valid(i) implies #[trigger] post.root_of(post.root_of(i))
        == post.root_of(i) by {
        assert(pre.valid(pre.root_of(i)));
        assert(pre.root_of(pre.root_of(i)) == pre.root_of(i));
    }
    assert forall|i: int| post.valid(i) implies ((#[trigger] post.parent_of(i)) == i
        <==> post.root_of(i) == i) by {
        assert(pre.parent_of(i) == i <==> pre.root_of(i) == i);
        if i == li {
            assert(post.parent_of(i) == wi && post.root_of(i) == wi);
        } else if pre.root_of(i) == li {
            assert(pre.root_of(i) != i);
            assert(post.root_of(i) == wi);
            assert(pre.root_of(wi) == wi);
        }
    }
    assert forall|i: int| post.valid(i) implies #[trigger] post.root_of(post.parent_of(i))
        == post.root_of(i) by {
        if i == li {
            assert(post.root_of(wi) == wi);
        } else {
            assert(pre.valid(pre.parent_of(i)));
            assert(pre.root_of(pre.parent_of(i)) == pre.root_of(i));
        }
    }
    assert forall|i: int| post.valid(i) && post.parent_of(i) != i implies #[trigger] post.rank_of(
        i,
    ) < post.rank_of(post.parent_of(i)) by {
        if i == li {
            assert(post.parent_of(i) == wi);
            assert(post.rank_of(li) == pre.rank_of(li));
        } else {
            assert(pre.parent_of(i) == i <==> pre.root_of(i) == i);
            assert(pre.rank_of(i) < pre.rank_of(pre.parent_of(i)));
            assert(pre.valid(pre.parent_of(i)));
            assert(i != wi);
        }
    }
    assert forall|i: int| post.valid(i) implies #[trigger] post.rank_of(i) <= post.n() by {
        assert(pre.rank_of(i) <= pre.n());
        if i == wi && tie {
            assert(pre.rank_of(wi) < cw.len());
            assert(cw.len() <= pre.n());
        }
    }
    // The merged traversal chain and the untouched ones.
    let cc = cw + cl;
    assert forall|k1: int, k2: int| 0 <= k1 < cw.len() && 0 <= k2 < cl.len() implies cw[k1]
        != cl[k2] by {
        assert(pre.root_of(cw[k1]) == wi);
        assert(pre.root_of(cl[k2]) == li);
    }
    vstd::seq_lib::lemma_no_dup_in_concat(cw, cl);
    assert forall|r: int| post.is_root(r) implies #[trigger] post.chain_ok(r) && post.rank_of(r)
        < post.chain(r).len() by {
        if r == wi {
            assert(post.chain(wi) == cc);
            assert(cc[0] == cw[0]);
            assert forall|k: int| 0 <= k < cc.len() implies post.valid(#[trigger] cc[k])
                && post.root_of(cc[k]) == wi by {
                if k < cw.len() {
                    assert(cc[k] == cw[k]);
                    assert(pre.root_of(cw[k]) == wi);
                } else {
                    assert(cc[k] == cl[k - cw.len()]);
                    assert(pre.root_of(cl[k - cw.len()]) == li);
                }
            }
            assert forall|j: int| post.valid(j) && post.root_of(j) == wi implies cc.contains(
                j,
            ) by {
                if pre.root_of(j) == li {
                    assert(cl.contains(j));
                    let k = choose|k: int| 0 <= k < cl.len() && cl[k] == j;
                    assert(cc[cw.len() + k] == j);
                } else {
                    assert(pre.root_of(j) == wi);
                    assert(cw.contains(j));
                    let k = choose|k: int| 0 <= k < cw.len() && cw[k] == j;
                    assert(cc[k] == j);
                }
            }
            assert forall|k: int| 0 <= k < cc.len() - 1 implies post.next_of(#[trigger] cc[k])
                == cc[k + 1] by {
                if k < cw.len() - 1 {
                    assert(cc[k] == cw[k] && cc[k + 1] == cw[k + 1]);
                    assert(cw[k] != cw[cw.len() - 1]);
                    assert(pre.root_of(cw[k]) == wi);
                    assert(pre.next_of(cw[k]) == cw[k + 1]);
                } else if k == cw.len() - 1 {
                    assert(cc[k] == lw as int);
                    assert(cc[k + 1] == cl[0]);
                    assert(cl[0] == li);
                    assert(post.next_of(lw as int) == li);
                } else {
                    let k2 = k - cw.len();
                    assert(cc[k] == cl[k2] && cc[k + 1] == cl[k2 + 1]);
                    assert(cl[k2] != cl[cl.len() - 1]);
                    assert(pre.root_of(cl[k2]) == li);
                    assert(pre.next_of(cl[k2]) == cl[k2 + 1]);
                }
            }
            assert(cc[cc.len() - 1] == cl[cl.len() - 1]);
            assert(post.next_of(ll as int) == wi);
            assert(post.rank_of(wi) < cc.len());
        } else {
            assert(r != li);
            assert(pre.root_of(r) == r) by {
                if pre.root_of(r) == li {
                    assert(post.root_of(r) == wi);
                }
            }
            assert(pre.is_root(r));
            assert(pre.chain_ok(r));
            let c = pre.chain(r);
            assert(post.chain(r) == c);
            assert forall|k: int| 0 <= k < c.len() implies post.valid(#[trigger] c[k])
                && post.root_of(c[k]) == r by {
                assert(pre.root_of(c[k]) == r);
            }
            assert forall|j: int| post.valid(j) && post.root_of(j) == r implies c.contains(j) by {
                assert(pre.root_of(j) == r);
            }
            assert forall|k: int| 0 <= k < c.len() - 1 implies post.next_of(#[trigger] c[k]) == c[k
                + 1] by {
                assert(pre.root_of(c[k]) == r);
                assert(c[k] != lw as int && c[k] != ll as int);
                assert(pre.next_of(c[k]) == c[k + 1]);
            }
            assert(pre.root_of(c[c.len() - 1]) == r);
            assert(c[c.len() - 1] != lw as int && c[c.len() - 1] != ll as int);
            assert(post.next_of(c[c.len() - 1]) == r);
            assert(post.rank_of(r) == pre.rank_of(r));
        }
    }
    // The root registry matches the relabelled partition.
    assert(post.root_set() =~= pre.root_set().remove(l));
    assert(post.roots@ == post.root_set());
    assert(pre.root_set().contains(l));
    assert(pre.root_set().finite());
    assert(post.root_set().len() == pre.root_set().len() - 1);
    // The partition afterwards is the old one with the two subsets merged.
    assert forall|j: int, k: int| pre.valid(j) && pre.valid(k) implies (#[trigger] post.same(j, k)
        <==> pre.same(j, k) || (pre.same(j, a) && pre.same(k, b)) || (pre.same(j, b) && pre.same(
        k,
        a,
    ))) by {
        assert(pre.valid(pre.root_of(j)) && pre.valid(pre.root_of(k)));
    }
    assert(post.root_of(a) == wi && post.root_of(b) == wi);
}

impl<T> DisjointSet<T> {
    /// The representative of the subset `i` belongs to, or `None` when `i`
    /// is out of range.  Walks the parent chain with path splitting: every
    /// visited non-root node is re-pointed at its grandparent, which
    /// shortens later walks but changes nothing observable: payloads,
    /// partition, ranks, traversal chains and the root registry all stay as
    /// they were.
    pub fn find_root(&mut self, i: usize) -> (r: Option<usize>)
        requires
            old(self).wf(),
        ensures
            final(self).wf(),
            Self::model_unchanged(*old(self), *final(self)),
            match r {
                Some(x) => old(self).valid(i as int) && x as int == old(self).root_of(i as int),
                None => !old(self).valid(i as int),
            },
    {
        if self.roots.contains(&i) {
            return Some(i);
        }
        if i >= self.nodes.len() {
            return None;
        }
        let ghost orig = *self;
        let mut curr: usize = i;
        while self.nodes[curr].parent_idx != curr
            invariant
                self.wf(),
                self.valid(curr as int),
                self.n() == orig.n(),
                self.elems() == orig.elems(),
                self.root_set() == orig.root_set(),
                self.root_of(curr as int) == orig.root_of(i as int),
                forall|j: int|
                    orig.valid(j) ==> #[trigger] self.root_of(j) == orig.root_of(j)
                        && self.rank_of(j) == orig.rank_of(j) && self.next_of(j) == orig.next_of(
                        j,
                    ),
            decreases self.n() - self.rank_of(curr as int),
        {
            let ghost pre = *self;
            let p = self.nodes[curr].parent_idx;
            let gp = self.nodes[p].parent_idx;
            self.nodes[curr].parent_idx = gp;
            proof {
                lemma_parent_rewrite(pre, *self, curr as int, gp as int);
            }
            curr = p;
        }
        proof {
            assert(self.parent_of(curr as int) == curr as int);
            assert(self.root_of(curr as int) == curr as int);
        }
        Some(curr)
    }

    /// The representative of `i`'s subset, found without touching the
    /// structure; `i` must be in range.
    fn root_index(&self, i: usize) -> (r: usize)
        requires
            self.wf(),
            self.valid(i as int),
        ensures
            r as int == self.root_of(i as int),
    {
        let mut curr: usize = i;
        while self.nodes[curr].parent_idx != curr
            invariant
                self.wf(),
                self.valid(curr as int),
                self.root_of(curr as int) == self.root_of(i as int),
            decreases self.n() - self.rank_of(curr as int),
        {
            curr = self.nodes[curr].parent_idx;
        }
        proof {
            assert(self.parent_of(curr as int) == curr as int);
            assert(self.root_of(curr as int) == curr as int);
        }
        curr
    }

    /// The last element of root `r`'s traversal chain: the member whose
    /// `next` pointer wraps around to `r`.
    fn chain_last(&self, r: usize) -> (last: usize)
        requires
            self.wf(),
            self.is_root(r as int),
        ensures
            self.valid(last as int),
            last as int == self.chain(r as int).last(),
            self.next_of(last as int) == r as int,
            self.root_of(last as int) == r as int,
    {
        let ghost c = self.chain(r as int);
        proof {
            assert(self.chain_ok(r as int));
        }
        let mut curr: usize = r;
        let ghost mut k: int = 0;
        while self.nodes[curr].next != r
            invariant
                self.wf(),
                self.is_root(r as int),
                c == self.chain(r as int),
                0 <= k < c.len(),
                curr as int == c[k],
                self.valid(curr as int),
            decreases c.len() - k,
        {
            proof {
                assert(self.chain_ok(r as int));
                assert(self.next_of(c[k]) != r as int);
                if k == c.len() - 1 {
                    assert(self.next_of(c[k]) == r as int);
                }
                assert(k < c.len() - 1);
                assert(self.next_of(c[k]) == c[k + 1]);
                k = k + 1;
            }
            curr = self.nodes[curr].next;
        }
        proof {
            assert(self.chain_ok(r as int));
            assert(self.next_of(c[k]) == r as int);
            if k < c.len() - 1 {
                assert(self.next_of(c[k]) == c[k + 1]);
                assert(c[k + 1] == c[0]);
                assert(false);
            }
            assert(k == c.len() - 1);
        }
        curr
    }

    /// Merges the subsets holding `a` and `b`.  Both roots are resolved
    /// through `find_root`, so the walks split paths as they go.  Returns
    /// `None` when either index is out of range and `Some(false)` when the
    /// two already share a root; in both cases nothing the model observes
    /// changes.  Returns `Some(true)` when a merge happened: the
    /// lower-ranked root is attached beneath the higher-ranked one (the
    /// winner's rank growing by exactly 1 on a tie), the loser leaves the
    /// root registry, and the two traversal chains are spliced into one.
    pub fn union(&mut self, a: usize, b: usize) -> (r: Option<bool>)
        requires
            old(self).wf(),
        ensures
            final(self).wf(),
            final(self).n() == old(self).n(),
            final(self).elems() == old(self).elems(),
            match r {
                None => {
                    &&& (!old(self).valid(a as int) || !old(self).valid(b as int))
                    &&& Self::model_unchanged(*old(self), *final(self))
                },
                Some(moved) => {
                    &&& old(self).valid(a as int)
                    &&& old(self).valid(b as int)
                    &&& (moved <==> !old(self).same(a as int, b as int))
                    &&& final(self).same(a as int, b as int)
                    &&& Self::merged(*old(self), *final(self), a as int, b as int)
                },
            },
            r == Some(true) ==> {
                let w = final(self).root_of(a as int);
                &&& (w == old(self).root_of(a as int) || w == old(self).root_of(b as int))
                &&& final(self).root_set().len() == old(self).root_set().len() - 1
                &&& (forall|j: int|
                    old(self).valid(j) && j != w ==> #[trigger] final(self).rank_of(j) == old(
                        self,
                    ).rank_of(j))
                &&& old(self).rank_of(w) >= old(self).rank_of(
                    if w == old(self).root_of(a as int) {
                        old(self).root_of(b as int)
                    } else {
                        old(self).root_of(a as int)
                    },
                )
                &&& final(self).rank_of(w) == (if old(self).rank_of(old(self).root_of(a as int))
                    == old(self).rank_of(old(self).root_of(b as int)) {
                    old(self).rank_of(w) + 1
                } else {
                    old(self).rank_of(w)
                })
            },
            r == Some(false) ==> Self::model_unchanged(*old(self), *final(self)),
    {
        let ghost orig = *old(self);
        let ra = match self.find_root(a) {
            Some(x) => x,
            None => {
                return None;
            },
        };
        let rb = match self.find_root(b) {
            Some(x) => x,
            None => {
                return None;
            },
        };
        if ra == rb {
            proof {
                assert(self.root_of(a as int) == orig.root_of(a as int));
                assert(self.root_of(b as int) == orig.root_of(b as int));
                assert forall|j: int, k: int| orig.valid(j) && orig.valid(k) implies (
                #[trigger] self.same(j, k) <==> orig.same(j, k) || (orig.same(j, a as int)
                    && orig.same(k, b as int)) || (orig.same(j, b as int) && orig.same(
                    k,
                    a as int,
                ))) by {
                    assert(self.root_of(j) == orig.root_of(j));
                    assert(self.root_of(k) == orig.root_of(k));
                }
            }
            return Some(false);
        }
        proof {
            assert(self.root_of(a as int) == orig.root_of(a as int));
            assert(self.root_of(b as int) == orig.root_of(b as int));
            assert(self.root_of(ra as int) == ra as int);
            assert(self.root_of(rb as int) == rb as int);
        }
        let ghost pre = *self;
        let w = self.link_roots(ra, rb);
        proof {
            let wi = w as int;
            assert(pre.root_of(a as int) == orig.root_of(a as int));
            assert(pre.root_of(b as int) == orig.root_of(b as int));
            assert(pre.rank_of(ra as int) == orig.rank_of(ra as int));
            assert(pre.rank_of(rb as int) == orig.rank_of(rb as int));
            assert(pre.root_set() == orig.root_set());
            assert(pre.elems() == orig.elems());
            assert(self.root_of(a as int) == wi);
            assert(self.root_of(b as int) == wi);
            assert forall|j: int, k: int| orig.valid(j) && orig.valid(k) implies (
            #[trigger] self.same(j, k) <==> orig.same(j, k) || (orig.same(j, a as int)
                && orig.same(k, b as int)) || (orig.same(j, b as int) && orig.same(
                k,
                a as int,
            ))) by {
                assert(self.root_of(j) == (if pre.root_of(j) == ra as int || pre.root_of(j)
                    == rb as int {
                    wi
                } else {
                    pre.root_of(j)
                }));
                assert(self.root_of(k) == (if pre.root_of(k) == ra as int || pre.root_of(k)
                    == rb as int {
                    wi
                } else {
                    pre.root_of(k)
                }));
                assert(pre.root_of(j) == orig.root_of(j));
                assert(pre.root_of(k) == orig.root_of(k));
            }
            assert forall|j: int| orig.valid(j) && j != wi implies #[trigger] self.rank_of(j)
                == orig.rank_of(j) by {
                assert(pre.rank_of(j) == orig.rank_of(j));
            }
        }
        Some(true)
    }

    /// Attaches the lower-ranked of two distinct roots beneath the other,
    /// removes it from the root registry, bumps the winner's rank on a
    /// tie, relabels the losing subset and splices the two traversal
    /// chains into one.
    #[verifier::rlimit(100)]
    fn link_roots(&mut self, ra: usize, rb: usize) -> (w: usize)
        requires
            old(self).wf(),
            old(self).is_root(ra as int),
            old(self).is_root(rb as int),
            ra != rb,
        ensures
            final(self).wf(),
            final(self).n() == old(self).n(),
            final(self).elems() == old(self).elems(),
            w == ra || w == rb,
            final(self).root_of(ra as int) == w as int,
            final(self).root_of(rb as int) == w as int,
            forall|j: int|
                old(self).valid(j) ==> #[trigger] final(self).root_of(j) == (if old(
                    self,
                ).root_of(j) == ra as int || old(self).root_of(j) == rb as int {
                    w as int
                } else {
                    old(self).root_of(j)
                }),
            final(self).root_set().len() == old(self).root_set().len() - 1,
            forall|j: int|
                old(self).valid(j) && j != w as int ==> #[trigger] final(self).rank_of(j) == old(
                    self,
                ).rank_of(j),
            old(self).rank_of(w as int) >= old(self).rank_of(
                (if w == ra {
                    rb as int
                } else {
                    ra as int
                }),
            ),
            final(self).rank_of(w as int) == (if old(self).rank_of(ra as int) == old(self).rank_of(
                rb as int,
            ) {
                old(self).rank_of(w as int) + 1
            } else {
                old(self).rank_of(w as int)
            }),
    {
        let (w, l) = if self.nodes[ra].rank < self.nodes[rb].rank {
            (rb, ra)
        } else {
            (ra, rb)
        };
        proof {
            assert(self.is_root(w as int));
            assert(self.is_root(l as int));
        }
        let lw = self.chain_last(w);
        let ll = self.chain_last(l);
        let rank_w = self.nodes[w].rank;
        let rank_l = self.nodes[l].rank;
        let total = self.nodes.len();
        let ghost pre = *self;
        proof {
            assert(pre.chain_ok(w as int));
            lemma_distinct_indices_len(pre.chain(w as int), pre.n());
            assert(rank_w < pre.chain(w as int).len());
            assert(rank_w < total);
        }
        let new_rank_w = if rank_w == rank_l {
            rank_w + 1
        } else {
            rank_w
        };
        self.nodes[l].parent_idx = w;
        self.roots.remove(&l);
        self.nodes[w].rank = new_rank_w;
        self.nodes[lw].next = l;
        self.nodes[ll].next = w;
        proof {
            let wi = w as int;
            let li = l as int;
            let cw = pre.chain(wi);
            let cl = pre.chain(li);
            self.rt@ = Seq::new(
                pre.rt@.len(),
                |j: int| if pre.rt@[j] == li { wi } else { pre.rt@[j] },
            );
            self.chains@ = pre.chains@.remove(li).insert(wi, cw + cl);
            lemma_union_restores(pre, *self, ra as int, rb as int, w, l, lw, ll);
            assert(self.root_of(ra as int) == wi);
            assert(self.root_of(rb as int) == wi);
            assert forall|j: int| pre.valid(j) implies #[trigger] self.root_of(j) == (if
            pre.root_of(j) == ra as int || pre.root_of(j) == rb as int {
                wi
            } else {
                pre.root_of(j)
            }) by {}
        }
        w
    }

    /// The indices of every member of the subset `i` belongs to, or `None`
    /// when `i` is out of range.  The order is the traversal chain's:
    /// starting at the subset's root and following the `next` links until
    /// they wrap around.  Exactly the members appear, each exactly once.
    pub fn subset_members(&self, i: usize) -> (r: Option<Vec<usize>>)
        requires
            self.wf(),
        ensures
            match r {
                Some(v) => {
                    &&& self.valid(i as int)
                    &&& v@.len() == self.subset_card(i as int)
                    &&& v@.len() >= 1
                    &&& v@[0] as int == self.root_of(i as int)
                    &&& v@.no_duplicates()
                    &&& (forall|k: int|
                        0 <= k < v@.len() ==> self.valid((#[trigger] v@[k]) as int) && self.same(
                            v@[k] as int,
                            i as int,
                        ))
                    &&& (forall|j: int|
                        self.valid(j) && self.same(j, i as int) ==> v@.map_values(
                            |u: usize| u as int,
                        ).contains(j))
                    &&& (forall|k: int|
                        0 <= k < v@.len() - 1 ==> self.next_of((#[trigger] v@[k]) as int) == v@[k
                            + 1] as int)
                    &&& self.next_of(v@[v@.len() - 1] as int) == self.root_of(i as int)
                },
                None => !self.valid(i as int),
            },
    {
        if i >= self.nodes.len() {
            return None;
        }
        let root = self.root_index(i);
        let ghost c = self.chain(root as int);
        proof {
            assert(self.is_root(root as int));
            assert(self.chain_ok(root as int));
        }
        let mut out: Vec<usize> = Vec::new();
        out.push(root);
        let mut curr: usize = self.nodes[root].next;
        let ghost mut k: int = 1;
        proof {
            assert(self.next_of(c[0]) == (if c.len() == 1 {
                root as int
            } else {
                c[1]
            }));
            assert(out@.map_values(|u: usize| u as int) =~= c.take(1));
        }
        while curr != root
            invariant
                self.wf(),
                self.is_root(root as int),
                c == self.chain(root as int),
                1 <= k <= c.len(),
                out@.map_values(|u: usize| u as int) == c.take(k),
                out@.len() == k,
                curr as int == (if k < c.len() {
                    c[k]
                } else {
                    c[0]
                }),
                self.valid(curr as int),
            decreases c.len() - k,
        {
            proof {
                assert(self.chain_ok(root as int));
                if k >= c.len() {
                    assert(curr as int == c[0]);
                    assert(false);
                }
                assert(curr as int == c[k]);
                assert(self.next_of(c[k]) == (if k == c.len() - 1 {
                    root as int
                } else {
                    c[k + 1]
                }));
            }
            out.push(curr);
            curr = self.nodes[curr].next;
            proof {
                k = k + 1;
                assert(out@.map_values(|u: usize| u as int) =~= c.take(k));
            }
        }
        proof {
            if k < c.len() {
                assert(curr as int == c[k] && c[k] != c[0]);
                assert(false);
            }
            let m = out@.map_values(|u: usize| u as int);
            assert(m =~= c);
            assert(vstd::relations::injective(|u: usize| u as int));
            out@.lemma_no_duplicates_injective(|u: usize| u as int);
            assert(out@.no_duplicates());
            assert(c.to_set() =~= Set::new(|j: int| self.valid(j) && self.same(j, i as int)));
            c.unique_seq_to_set();
            assert(out@.len() == self.subset_card(i as int));
            assert(out@[0] as int == m[0]);
            assert(m[0] == self.root_of(i as int));
            assert forall|k2: int| 0 <= k2 < out@.len() implies self.valid(
                (#[trigger] out@[k2]) as int,
            ) && self.same(out@[k2] as int, i as int) by {
                assert(out@[k2] as int == m[k2]);
                assert(m[k2] == c[k2]);
                assert(self.root_of(c[k2]) == root as int);
            }
            assert forall|j: int| self.valid(j) && self.same(j, i as int) implies m.contains(
                j,
            ) by {
                assert(c.contains(j));
            }
            assert forall|k2: int| 0 <= k2 < out@.len() - 1 implies self.next_of(
                (#[trigger] out@[k2]) as int,
            ) == out@[k2 + 1] as int by {
                assert(out@[k2] as int == c[k2]);
                assert(out@[k2 + 1] as int == c[k2 + 1]);
                assert(self.next_of(c[k2]) == c[k2 + 1]);
            }
            assert(out@[out@.len() - 1] as int == c[c.len() - 1]);
            assert(self.next_of(c[c.len() - 1]) == root as int);
        }
        Some(out)
    }

    /// How many elements lie in the subset `i` belongs to, or `None` when
    /// `i` is out of range.
    pub fn subset_size(&self, i: usize) -> (r: Option<usize>)
        requires
            self.wf(),
        ensures
            match r {
                Some(s) => self.valid(i as int) && s == self.subset_card(i as int),
                None => !self.valid(i as int),
            },
    {
        match self.subset_members(i) {
            Some(v) => Some(v.len()),
            None => None,
        }
    }

    /// Whether the elements at `a` and `b` lie in the same subset, or
    /// `None` when either index is out of range — absence is reported as
    /// such, never as `false`.
    pub fn same_set(&self, a: usize, b: usize) -> (r: Option<bool>)
        requires
            self.wf(),
        ensures
            match r {
                Some(v) => self.valid(a as int) && self.valid(b as int) && (v <==> self.same(
                    a as int,
                    b as int,
                )),
                None => !self.valid(a as int) || !self.valid(b as int),
            },
    {
        if a >= self.nodes.len() || b >= self.nodes.len() {
            return None;
        }
        Some(self.root_index(a) == self.root_index(b))
    }
}

impl<T: PartialEq> DisjointSet<T> {
    /// Whether, under the payload type's own equality, the stored payload
    /// at `k` equals `e`.  Meaningful only when `T`'s `==` obeys its
    /// specification (`obeys_eq_spec`).
    pub open spec fn holds_at(self, k: int, e: T) -> bool {
        self.elems()[k].eq_spec(&e)
    }

    /// Linear scan resolving a payload to its index: the index of the first
    /// stored payload equal to `elem`, or `None` when no payload is equal.
    pub fn lookup(&self, elem: &T) -> (r: Option<usize>)
        ensures
            match r {
                Some(idx) => self.valid(idx as int) && (T::obeys_eq_spec() ==> self.holds_at(
                    idx as int,
                    *elem,
                ) && forall|k: int| 0 <= k < idx as int ==> !self.holds_at(k, *elem)),
                None => T::obeys_eq_spec() ==> forall|k: int|
                    0 <= k < self.n() ==> !self.holds_at(k, *elem),
            },
    {
        let mut k: usize = 0;
        while k < self.nodes.len()
            invariant
                k <= self.n(),
                T::obeys_eq_spec() ==> forall|j: int| 0 <= j < k as int ==> !self.holds_at(
                    j,
                    *elem,
                ),
            decreases self.n() - k as int,
        {
            if self.nodes[k].elem.eq(elem) {
                return Some(k);
            }
            k = k + 1;
        }
        None
    }

    /// Whether a payload equal to `elem` is present.
    pub fn contains(&self, elem: &T) -> (r: bool)
        ensures
            T::obeys_eq_spec() ==> (r <==> exists|k: int|
                0 <= k < self.n() && self.holds_at(k, *elem)),
    {
        let r = self.lookup(elem);
        proof {
            if T::obeys_eq_spec() {
                if let Some(idx) = r {
                    assert(self.holds_at(idx as int, *elem));
                }
            }
        }
        r.is_some()
    }

    /// Adds `elem` as a fresh singleton subset and returns its permanent
    /// index, unless an equal payload is already present, in which case the
    /// structure is left untouched and `elem` is handed back.
    pub fn insert(&mut self, elem: T) -> (r: Result<usize, T>)
        requires
            old(self).wf(),
        ensures
            final(self).wf(),
            match r {
                Ok(idx) => {
                    &&& idx as int == old(self).n()
                    &&& final(self).n() == old(self).n() + 1
                    &&& final(self).elems() == old(self).elems().push(elem)
                    &&& final(self).is_root(idx as int)
                    &&& final(self).rank_of(idx as int) == 0
                    &&& final(self).next_of(idx as int) == idx as int
                    &&& (forall|j: int|
                        old(self).valid(j) ==> #[trigger] final(self).root_of(j) == old(self).root_of(j)
                            && final(self).rank_of(j) == old(self).rank_of(j) && final(self).next_of(j) == old(
                            self,
                        ).next_of(j))
                    &&& final(self).root_set() == old(self).root_set().insert(idx)
                    &&& final(self).root_set().len() == old(self).root_set().len() + 1
                    &&& (T::obeys_eq_spec() ==> forall|k: int|
                        0 <= k < old(self).n() ==> !old(self).holds_at(k, elem))
                },
                Err(e) => {
                    &&& *final(self) == *old(self)
                    &&& e == elem
                    &&& (T::obeys_eq_spec() ==> exists|k: int|
                        0 <= k < final(self).n() && final(self).holds_at(k, elem))
                },
            },
    {
        if self.contains(&elem) {
            return Err(elem);
        }
        let idx = self.nodes.len();
        let ghost pre = *self;
        self.nodes.push(
            Node { elem, parent_idx: idx, rank: 0, next: idx },
        );
        self.roots.insert(idx);
        proof {
            self.rt@ = pre.rt@.push(idx as int);
            self.chains@ = pre.chains@.insert(idx as int, seq![idx as int]);
            assert(self.elems() =~= pre.elems().push(self.nodes@[idx as int].elem));
            assert(self.root_set() =~= pre.root_set().insert(idx));
            assert(self.roots@ =~= self.root_set());
            assert forall|r: int| self.is_root(r) implies #[trigger] self.chain_ok(r)
                && self.rank_of(r) < self.chain(r).len() by {
                if r == idx as int {
                    assert(self.chain(r) =~= seq![idx as int]);
                    assert(self.next_of(idx as int) == idx as int);
                    assert forall|j: int|
                        self.valid(j) && self.root_of(j) == r implies self.chain(r).contains(
                        j,
                    ) by {
                        if j < pre.n() {
                            assert(pre.root_of(j) == pre.rt@[j]);
                            assert(pre.valid(pre.root_of(j)));
                        }
                        assert(j == idx as int);
                        assert(self.chain(r)[0] == j);
                    }
                } else {
                    assert(pre.is_root(r));
                    assert(pre.chain_ok(r));
                    let c = self.chain(r);
                    assert(c == pre.chain(r));
                    assert forall|j: int| self.valid(j) && self.root_of(j) == r implies c.contains(
                        j,
                    ) by {
                        if j == idx as int {
                            assert(self.root_of(j) == idx as int);
                            assert(pre.valid(r));
                        } else {
                            assert(pre.valid(j) && pre.root_of(j) == r);
                        }
                    }
                    assert forall|k: int|
                        0 <= k < c.len() implies self.valid(#[trigger] c[k]) && self.root_of(c[k])
                            == r by {}
                    assert forall|k: int|
                        0 <= k < c.len() - 1 implies self.next_of(#[trigger] c[k]) == c[k + 1] by {
                        assert(pre.next_of(c[k]) == c[k + 1]);
                    }
                    assert(self.next_of(c[c.len() - 1]) == r);
                }
            }
            assert(self.rt@.len() == self.n());
            assert forall|i: int| self.valid(i) && i != idx as int implies self.parent_of(i)
                == pre.parent_of(i) && self.next_of(i) == pre.next_of(i) && self.rank_of(i)
                == pre.rank_of(i) && self.root_of(i) == pre.root_of(i) by {
                assert(pre.nodes@[i] == self.nodes@[i]);
                assert(pre.rt@[i] == self.rt@[i]);
            }
            assert forall|i: int| self.valid(i) implies self.valid(
                #[trigger] self.parent_of(i),
            ) by {
                if i != idx as int {
                    assert(pre.valid(pre.parent_of(i)));
                }
            }
            assert forall|i: int| self.valid(i) implies self.valid(#[trigger] self.next_of(i)) by {
                if i != idx as int {
                    assert(pre.valid(pre.next_of(i)));
                }
            }
            assert forall|i: int| self.valid(i) implies self.valid(#[trigger] self.root_of(i)) by {
                if i != idx as int {
                    assert(pre.valid(pre.root_of(i)));
                }
            }
            assert forall|i: int| self.valid(i) implies #[trigger] self.root_of(self.root_of(i))
                == self.root_of(i) by {
                if i != idx as int {
                    assert(pre.root_of(pre.root_of(i)) == pre.root_of(i));
                    assert(pre.valid(pre.root_of(i)));
                }
            }
            assert forall|i: int| self.valid(i) implies ((#[trigger] self.parent_of(i)) == i
                <==> self.root_of(i) == i) by {
                if i != idx as int {
                    assert(pre.parent_of(i) == i <==> pre.root_of(i) == i);
                }
            }
            assert forall|i: int| self.valid(i) implies #[trigger] self.root_of(self.parent_of(i))
                == self.root_of(i) by {
                if i != idx as int {
                    assert(pre.root_of(pre.parent_of(i)) == pre.root_of(i));
                    assert(pre.valid(pre.parent_of(i)));
                }
            }
            assert forall|i: int| self.valid(i) && self.parent_of(i) != i implies
                #[trigger] self.rank_of(i) < self.rank_of(self.parent_of(i)) by {
                if i != idx as int {
                    assert(pre.rank_of(i) < pre.rank_of(pre.parent_of(i)));
                    assert(pre.valid(pre.parent_of(i)));
                }
            }
            assert forall|i: int| self.valid(i) implies #[trigger] self.rank_of(i)
                <= self.n() by {
                if i != idx as int {
                    assert(pre.rank_of(i) <= pre.n());
                }
            }
            assert(self.roots@ == self.root_set());
            assert(self.roots@.finite());
        }
        Ok(idx)
    }
}

} // verus!
