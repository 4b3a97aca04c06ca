//! The mathematical model of a disjoint-set forest.
//!
//! A forest is a sequence of [`NodeView`]s. The position of a node in the
//! sequence is its label; `parent` and `children` hold labels of the same
//! sequence. Everything the executable structure promises is stated over the
//! functions of this module.

use vstd::prelude::*;

verus! {

/// How many children are looked at below a node with many children.
pub const SAMPLES_COUNT: usize = 4;

/// The least stride that is worth sampling with: up to
/// `SAMPLES_COUNT * STEP_MIN` children, every child is looked at.
pub const STEP_MIN: usize = 4;

/// One node of the forest as a mathematical value.
pub struct NodeView<V> {
    /// Label of the parent; `None` for a root.
    pub parent: Option<int>,
    /// Labels of the nodes that were hung under this one, oldest first.
    pub children: Seq<int>,
    /// The payload; `None` for a node made without one.
    pub value: Option<V>,
}

/// A root without children.
pub open spec fn singleton<V>(value: Option<V>) -> NodeView<V> {
    NodeView { parent: None, children: Seq::empty(), value }
}

/// `i` is a label of `f` and has no parent.
pub open spec fn is_root<V>(f: Seq<NodeView<V>>, i: int) -> bool {
    0 <= i < f.len() && f[i].parent is None
}

/// Every link stays inside the forest, and the two directions agree: a node
/// is listed among the children of its parent, and every listed child names
/// the lister as its parent.
pub open spec fn links_valid<V>(f: Seq<NodeView<V>>) -> bool {
    &&& forall|i: int|
        0 <= i < f.len() ==> match (#[trigger] f[i]).parent {
            Some(p) => 0 <= p < f.len() && f[p].children.contains(i),
            None => true,
        }
    &&& forall|i: int, k: int|
        0 <= i < f.len() && 0 <= k < f[i].children.len() ==> {
            let c = #[trigger] f[i].children[k];
            0 <= c < f.len() && f[c].parent == Some(i)
        }
}

/// `rank` grows strictly along every parent link and stays at or below `top`.
pub open spec fn ranked<V>(f: Seq<NodeView<V>>, rank: Seq<nat>, top: nat) -> bool {
    &&& rank.len() == f.len()
    &&& forall|i: int| 0 <= i < f.len() ==> #[trigger] rank[i] <= top
    &&& forall|i: int|
        0 <= i < f.len() ==> match (#[trigger] f[i]).parent {
            Some(p) => 0 <= p < f.len() && rank[i] < rank[p],
            None => true,
        }
}

/// No walk along parent links comes back to where it started.
pub open spec fn acyclic<V>(f: Seq<NodeView<V>>) -> bool {
    exists|rank: Seq<nat>, top: nat| ranked(f, rank, top)
}

/// The invariant of the structure.
pub open spec fn is_forest<V>(f: Seq<NodeView<V>>) -> bool {
    links_valid(f) && acyclic(f)
}

/// Some ranking of `f`: a ranking that fits if `f` is acyclic.
pub closed spec fn ranking<V>(f: Seq<NodeView<V>>) -> (Seq<nat>, nat) {
    choose|w: (Seq<nat>, nat)| ranked(f, w.0, w.1)
}

/// An upper bound on the number of links between `i` and its root.
pub closed spec fn climb<V>(f: Seq<NodeView<V>>, i: int) -> nat {
    (ranking(f).1 - ranking(f).0[i]) as nat
}

/// An upper bound on the number of links between `i` and any node below it.
pub closed spec fn height<V>(f: Seq<NodeView<V>>, i: int) -> nat {
    ranking(f).0[i]
}

/// The chosen ranking of an acyclic forest fits it.
pub proof fn lemma_ranking_fits<V>(f: Seq<NodeView<V>>)
    requires
        acyclic(f),
    ensures
        ranked(f, ranking(f).0, ranking(f).1),
{
    let (rank, top) = choose|rank: Seq<nat>, top: nat| ranked(f, rank, top);
    let w = (rank, top);
    assert(ranked(f, w.0, w.1));
}

/// Going to the parent shortens the climb.
pub proof fn lemma_parent_is_closer<V>(f: Seq<NodeView<V>>, i: int)
    requires
        acyclic(f),
        0 <= i < f.len(),
        f[i].parent is Some,
    ensures
        0 <= f[i].parent->0 < f.len(),
        climb(f, f[i].parent->0) < climb(f, i),
{
    lemma_ranking_fits(f);
    let (rank, top) = ranking(f);
    let p = f[i].parent->0;
    assert(rank[p] <= top);
}

/// Going to a child lowers the height.
pub proof fn lemma_child_is_lower<V>(f: Seq<NodeView<V>>, i: int, k: int)
    requires
        is_forest(f),
        0 <= i < f.len(),
        0 <= k < f[i].children.len(),
    ensures
        0 <= f[i].children[k] < f.len(),
        f[f[i].children[k]].parent == Some(i),
        height(f, f[i].children[k]) < height(f, i),
{
    lemma_ranking_fits(f);
    let c = f[i].children[k];
    assert(f[c].parent == Some(i));
}

/// The root of the tree that holds `i`: where the walk along parent links
/// ends.
pub open spec fn root_of<V>(f: Seq<NodeView<V>>, i: int) -> int
    decreases climb(f, i),
    when is_forest(f) && 0 <= i < f.len()
{
    match f[i].parent {
        Some(p) => {
            proof {
                lemma_parent_is_closer(f, i);
            }
            root_of(f, p)
        },
        None => i,
    }
}

/// `a` and `b` are in the same set.
pub open spec fn same_set<V>(f: Seq<NodeView<V>>, a: int, b: int) -> bool {
    root_of(f, a) == root_of(f, b)
}

/// The distance between two sampled positions in a list of `count` children:
/// every child is sampled up to `SAMPLES_COUNT * STEP_MIN` children, beyond
/// that every `count / SAMPLES_COUNT`-th.
pub open spec fn stride(count: nat) -> nat {
    if count > SAMPLES_COUNT * STEP_MIN {
        count / (SAMPLES_COUNT as nat)
    } else {
        1
    }
}

/// How many of `count` positions lie at or after `from`.
pub open spec fn left_from(count: nat, from: nat) -> nat {
    if from >= count {
        0
    } else {
        (count - from) as nat
    }
}

/// Sampling always moves on.
pub proof fn lemma_stride_positive(count: nat)
    ensures
        stride(count) >= 1,
{
}

/// The depth estimate for the tree below `i`, when `i` itself lies `depth`
/// links below the node the estimate was asked for: `depth` plus the largest
/// estimate among the sampled children, each taken one link further down.
/// A node without children gives `depth`.
pub open spec fn depth_from<V>(f: Seq<NodeView<V>>, i: int, depth: nat) -> nat
    decreases height(f, i), f[i].children.len() + 1,
    when is_forest(f) && 0 <= i < f.len()
{
    depth + deepest_sampled(f, i, depth, 0)
}

/// The largest `depth_from(.., depth + 1)` among the children of `i` at the
/// positions `from`, `from + stride`, `from + 2 * stride`, ...; 0 if there is
/// no such position.
pub open spec fn deepest_sampled<V>(f: Seq<NodeView<V>>, i: int, depth: nat, from: nat) -> nat
    decreases height(f, i), left_from(f[i].children.len(), from),
    when is_forest(f) && 0 <= i < f.len()
{
    let count = f[i].children.len();
    if from >= count {
        0
    } else {
        proof {
            lemma_child_is_lower(f, i, from as int);
            lemma_stride_positive(count);
        }
        let here = depth_from(f, f[i].children[from as int], depth + 1);
        let rest = deepest_sampled(f, i, depth, from + stride(count));
        if here >= rest {
            here
        } else {
            rest
        }
    }
}

/// The depth estimate for the tree whose root is `root`.
pub open spec fn depth_estimate<V>(f: Seq<NodeView<V>>, root: int) -> nat {
    depth_from(f, root, 0)
}

/// `d` as far as a `usize` can hold it.
pub open spec fn capped(d: nat) -> usize {
    if d > usize::MAX {
        usize::MAX
    } else {
        d as usize
    }
}

/// The number of links from `i` down to the deepest node that sampling
/// reaches: 0 for a node without children, else one more than the largest
/// such number among the sampled children.
pub open spec fn sampled_height<V>(f: Seq<NodeView<V>>, i: int) -> nat
    decreases height(f, i), f[i].children.len() + 1,
    when is_forest(f) && 0 <= i < f.len()
{
    tallest_sampled(f, i, 0)
}

/// One more than the largest `sampled_height` among the children of `i` at
/// the positions `from`, `from + stride`, `from + 2 * stride`, ...; 0 if there
/// is no such position.
pub open spec fn tallest_sampled<V>(f: Seq<NodeView<V>>, i: int, from: nat) -> nat
    decreases height(f, i), left_from(f[i].children.len(), from),
    when is_forest(f) && 0 <= i < f.len()
{
    let count = f[i].children.len();
    if from >= count {
        0
    } else {
        proof {
            lemma_child_is_lower(f, i, from as int);
            lemma_stride_positive(count);
        }
        let here = sampled_height(f, f[i].children[from as int]) + 1;
        let rest = tallest_sampled(f, i, from + stride(count));
        if here >= rest {
            here
        } else {
            rest
        }
    }
}

/// `0 + 1 + ... + n`.
pub open spec fn triangle(n: nat) -> nat
    decreases n,
{
    if n == 0 {
        0
    } else {
        n + triangle((n - 1) as nat)
    }
}

/// `count` roots without children or payload.
pub open spec fn singletons<V>(count: nat) -> Seq<NodeView<V>> {
    Seq::new(count, |i: int| singleton::<V>(None))
}

/// `f` after the root `child` was hung under `parent`: `child` names its
/// parent, and `parent` lists `child` last among its children.
pub open spec fn attached<V>(f: Seq<NodeView<V>>, child: int, parent: int) -> Seq<NodeView<V>> {
    let below = f.update(child, NodeView { parent: Some(parent), ..f[child] });
    below.update(
        parent,
        NodeView { children: below[parent].children.push(child), ..below[parent] },
    )
}

/// `f` after a new root that carries `value` was added at the end.
pub open spec fn pushed<V>(f: Seq<NodeView<V>>, value: V) -> Seq<NodeView<V>> {
    f.push(singleton(Some(value)))
}

/// `f` after a new node that carries `value` was added at the end and hung
/// under the root of `index`.
pub open spec fn inserted<V>(f: Seq<NodeView<V>>, index: int, value: V) -> Seq<NodeView<V>> {
    attached(pushed(f, value), f.len() as int, root_of(f, index))
}

/// `f` after the sets of `a` and `b` were merged: unchanged if they were one
/// set already; else the root with the smaller depth estimate (as far as a
/// `usize` holds it) is hung under the other, and on equal estimates the root
/// of `b` is hung under the root of `a`.
pub open spec fn united<V>(f: Seq<NodeView<V>>, a: int, b: int) -> Seq<NodeView<V>> {
    let root_a = root_of(f, a);
    let root_b = root_of(f, b);
    if root_a == root_b {
        f
    } else if capped(depth_estimate(f, root_a)) < capped(depth_estimate(f, root_b)) {
        attached(f, root_a, root_b)
    } else {
        attached(f, root_b, root_a)
    }
}

/// The root of the merged set in `united(f, a, b)`: the root that the other
/// one is hung under, or the common root if there was one.
pub open spec fn united_root<V>(f: Seq<NodeView<V>>, a: int, b: int) -> int {
    let root_a = root_of(f, a);
    let root_b = root_of(f, b);
    if root_a != root_b && capped(depth_estimate(f, root_a)) < capped(
        depth_estimate(f, root_b),
    ) {
        root_b
    } else {
        root_a
    }
}

/// `f` after the merges of 0 with 1, of 1 with 2, and so on up to the merge of
/// `links - 1` with `links`.
pub open spec fn chained<V>(f: Seq<NodeView<V>>, links: nat) -> Seq<NodeView<V>>
    decreases links,
{
    if links == 0 {
        f
    } else {
        united(chained(f, (links - 1) as nat), links - 1, links as int)
    }
}

/// The forest of `count` nodes in which the nodes `1..=links` are children of
/// node 0, in this order, and all other nodes are roots without children.
pub open spec fn star<V>(count: nat, links: nat) -> Seq<NodeView<V>> {
    Seq::new(
        count,
        |i: int|
            if i == 0 {
                NodeView { parent: None, children: Seq::new(links, |k: int| k + 1), value: None }
            } else if i <= links {
                NodeView { parent: Some(0), children: Seq::empty(), value: None }
            } else {
                singleton(None)
            },
    )
}

} // verus!
