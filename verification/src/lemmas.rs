//! Facts about the model that the executable structure and the stated laws
//! are proved from.

use crate::model::{
    attached, climb, deepest_sampled, depth_estimate, depth_from, is_forest, is_root, left_from,
    lemma_child_is_lower, lemma_parent_is_closer, lemma_ranking_fits, lemma_stride_positive,
    links_valid, ranked, ranking, root_of, singletons, stride, NodeView,
};
use vstd::prelude::*;

verus! {

/// A node with a parent has the root of its parent.
pub proof fn lemma_root_of_child<V>(f: Seq<NodeView<V>>, i: int)
    requires
        is_forest(f),
        0 <= i < f.len(),
        f[i].parent is Some,
    ensures
        0 <= f[i].parent->0 < f.len(),
        root_of(f, i) == root_of(f, f[i].parent->0),
{
    lemma_parent_is_closer(f, i);
}

/// What `root_of` names is a root of the forest.
pub proof fn lemma_root_is_root<V>(f: Seq<NodeView<V>>, i: int)
    requires
        is_forest(f),
        0 <= i < f.len(),
    ensures
        is_root(f, root_of(f, i)),
        root_of(f, root_of(f, i)) == root_of(f, i),
    decreases climb(f, i),
{
    match f[i].parent {
        Some(p) => {
            lemma_parent_is_closer(f, i);
            lemma_root_is_root(f, p);
        },
        None => {},
    }
}

/// A node without children is estimated at the depth it lies at.
pub proof fn lemma_leaf_depth<V>(f: Seq<NodeView<V>>, i: int, depth: nat)
    requires
        is_forest(f),
        0 <= i < f.len(),
        f[i].children.len() == 0,
    ensures
        depth_from(f, i, depth) == depth,
{
    assert(deepest_sampled(f, i, depth, 0) == 0);
}

/// No estimate is below the depth it starts from.
pub proof fn lemma_depth_at_least<V>(f: Seq<NodeView<V>>, i: int, depth: nat)
    requires
        is_forest(f),
        0 <= i < f.len(),
    ensures
        depth_from(f, i, depth) >= depth,
{
}

/// Roots without children form a forest in which every node is its own root
/// and is estimated at depth 0.
pub proof fn lemma_singletons<V>(count: nat)
    ensures
        is_forest(singletons::<V>(count)),
        forall|i: int|
            0 <= i < count ==> #[trigger] root_of(singletons::<V>(count), i) == i,
        forall|i: int|
            0 <= i < count ==> #[trigger] depth_estimate(singletons::<V>(count), i) == 0,
{
    let f = singletons::<V>(count);
    let rank = Seq::new(count, |i: int| 0nat);
    assert(ranked(f, rank, 0));
    assert(is_forest(f));
    assert forall|i: int| 0 <= i < count implies #[trigger] depth_estimate(f, i) == 0 by {
        lemma_leaf_depth(f, i, 0);
    }
}

/// A new root without children at the end keeps the forest a forest.
pub proof fn lemma_push_forest<V>(f: Seq<NodeView<V>>, node: NodeView<V>)
    requires
        is_forest(f),
        node.parent is None,
        node.children.len() == 0,
    ensures
        is_forest(f.push(node)),
{
    let g = f.push(node);
    lemma_ranking_fits(f);
    let (rank, top) = ranking(f);
    let rank2 = rank.push(0);
    assert(ranked(g, rank2, top)) by {
        assert forall|i: int| 0 <= i < g.len() implies match (#[trigger] g[i]).parent {
            Some(p) => 0 <= p < g.len() && rank2[i] < rank2[p],
            None => true,
        } by {
            if i < f.len() {
                assert(g[i] == f[i]);
            }
        }
    }
    assert(links_valid(g)) by {
        assert forall|i: int| 0 <= i < g.len() implies match (#[trigger] g[i]).parent {
            Some(p) => 0 <= p < g.len() && g[p].children.contains(i),
            None => true,
        } by {
            if i < f.len() {
                assert(g[i] == f[i]);
                if f[i].parent is Some {
                    let p = f[i].parent->0;
                    assert(g[p] == f[p]);
                }
            }
        }
        assert forall|i: int, k: int|
            0 <= i < g.len() && 0 <= k < g[i].children.len() implies {
            let c = #[trigger] g[i].children[k];
            0 <= c < g.len() && g[c].parent == Some(i)
        } by {
            assert(i < f.len());
            assert(g[i] == f[i]);
            let c = f[i].children[k];
            assert(g[c] == f[c]);
        }
    }
}

/// Where two forests agree on the parents of the nodes of the first, they
/// agree on the roots of those nodes.
pub proof fn lemma_root_stable<V>(f: Seq<NodeView<V>>, g: Seq<NodeView<V>>, i: int)
    requires
        is_forest(f),
        is_forest(g),
        f.len() <= g.len(),
        forall|j: int| 0 <= j < f.len() ==> (#[trigger] g[j]).parent == f[j].parent,
        0 <= i < f.len(),
    ensures
        root_of(g, i) == root_of(f, i),
    decreases climb(f, i),
{
    assert(g[i].parent == f[i].parent);
    match f[i].parent {
        Some(p) => {
            lemma_parent_is_closer(f, i);
            lemma_root_stable(f, g, p);
        },
        None => {},
    }
}

/// Hanging one root under another keeps the forest a forest.
pub proof fn lemma_attach_forest<V>(f: Seq<NodeView<V>>, child: int, parent: int)
    requires
        is_forest(f),
        is_root(f, child),
        is_root(f, parent),
        child != parent,
    ensures
        is_forest(attached(f, child, parent)),
        attached(f, child, parent).len() == f.len(),
{
    let g = attached(f, child, parent);
    lemma_ranking_fits(f);
    let (rank, top) = ranking(f);
    let lifted: nat = if rank[parent] > rank[child] {
        rank[parent]
    } else {
        rank[child] + 1
    };
    let rank2 = rank.update(parent, lifted);
    let top2 = top + 1;
    assert(rank[child] <= top);
    assert(rank[parent] <= top);
    assert(ranked(g, rank2, top2)) by {
        assert forall|i: int| 0 <= i < g.len() implies #[trigger] rank2[i] <= top2 by {
            assert(rank[i] <= top);
        }
        assert forall|i: int| 0 <= i < g.len() implies match (#[trigger] g[i]).parent {
            Some(p) => 0 <= p < g.len() && rank2[i] < rank2[p],
            None => true,
        } by {
            if i == child {
            } else if i == parent {
            } else {
                assert(g[i] == f[i]);
                if f[i].parent is Some {
                    let p = f[i].parent->0;
                    assert(rank[i] < rank[p]);
                }
            }
        }
    }
    assert(links_valid(g)) by {
        assert forall|i: int| 0 <= i < g.len() implies match (#[trigger] g[i]).parent {
            Some(p) => 0 <= p < g.len() && g[p].children.contains(i),
            None => true,
        } by {
            if i == child {
                let last = f[parent].children.len() as int;
                assert(g[parent].children[last] == child);
            } else if i == parent {
            } else {
                assert(g[i] == f[i]);
                if f[i].parent is Some {
                    let p = f[i].parent->0;
                    assert(f[p].children.contains(i));
                    let k = choose|k: int| 0 <= k < f[p].children.len() && f[p].children[k] == i;
                    assert(g[p].children[k] == i);
                }
            }
        }
        assert forall|i: int, k: int|
            0 <= i < g.len() && 0 <= k < g[i].children.len() implies {
            let c = #[trigger] g[i].children[k];
            0 <= c < g.len() && g[c].parent == Some(i)
        } by {
            if i == parent && k == f[parent].children.len() {
            } else {
                let c = f[i].children[k];
                assert(g[i].children[k] == c);
                assert(f[c].parent == Some(i));
            }
        }
    }
}

/// After the root `child` was hung under the root `parent`, the nodes that had
/// the root `child` have the root `parent`, and all others keep theirs.
pub proof fn lemma_attach_roots<V>(f: Seq<NodeView<V>>, child: int, parent: int, x: int)
    requires
        is_forest(f),
        is_root(f, child),
        is_root(f, parent),
        child != parent,
        0 <= x < f.len(),
    ensures
        root_of(attached(f, child, parent), x) == if root_of(f, x) == child {
            parent
        } else {
            root_of(f, x)
        },
    decreases climb(f, x),
{
    let g = attached(f, child, parent);
    lemma_attach_forest(f, child, parent);
    if x == child {
        assert(g[child].parent == Some(parent));
        assert(g[parent].parent is None);
        assert(root_of(g, parent) == parent);
    } else {
        assert(g[x].parent == f[x].parent);
        match f[x].parent {
            Some(p) => {
                lemma_parent_is_closer(f, x);
                lemma_attach_roots(f, child, parent, p);
            },
            None => {},
        }
    }
}

/// Below a node whose children have no children, every sampled child is
/// estimated one link further down.
pub proof fn lemma_flat_sampled<V>(f: Seq<NodeView<V>>, i: int, depth: nat, from: nat)
    requires
        is_forest(f),
        0 <= i < f.len(),
        forall|k: int|
            0 <= k < f[i].children.len() ==> f[#[trigger] f[i].children[k]].children.len() == 0,
    ensures
        deepest_sampled(f, i, depth, from) == if from < f[i].children.len() {
            depth + 1
        } else {
            0
        },
    decreases left_from(f[i].children.len(), from),
{
    let count = f[i].children.len();
    if from < count {
        let child = f[i].children[from as int];
        lemma_child_is_lower(f, i, from as int);
        lemma_leaf_depth(f, child, depth + 1);
        lemma_stride_positive(count);
        lemma_flat_sampled(f, i, depth, from + stride(count));
    }
}

/// A node whose children have no children is estimated one link deeper than
/// a node without children.
pub proof fn lemma_flat_depth<V>(f: Seq<NodeView<V>>, i: int, depth: nat)
    requires
        is_forest(f),
        0 <= i < f.len(),
        forall|k: int|
            0 <= k < f[i].children.len() ==> f[#[trigger] f[i].children[k]].children.len() == 0,
    ensures
        depth_from(f, i, depth) == if f[i].children.len() > 0 {
            depth + depth + 1
        } else {
            depth
        },
{
    lemma_flat_sampled(f, i, depth, 0);
}

/// `lemma_attach_roots` for every node at once, with the forest after the
/// step given up to extensional equality.
pub proof fn lemma_attach_every_root<V>(
    before: Seq<NodeView<V>>,
    after: Seq<NodeView<V>>,
    child: int,
    parent: int,
)
    requires
        is_forest(before),
        is_root(before, child),
        is_root(before, parent),
        child != parent,
        after =~= attached(before, child, parent),
    ensures
        after == attached(before, child, parent),
        is_forest(after),
        after.len() == before.len(),
        forall|x: int|
            0 <= x < before.len() ==> #[trigger] root_of(after, x) == if root_of(before, x)
                == child {
                parent
            } else {
                root_of(before, x)
            },
{
    lemma_attach_forest(before, child, parent);
    assert forall|x: int| 0 <= x < before.len() implies #[trigger] root_of(after, x) == if root_of(
        before,
        x,
    ) == child {
        parent
    } else {
        root_of(before, x)
    } by {
        lemma_attach_roots(before, child, parent, x);
    }
}

} // verus!
