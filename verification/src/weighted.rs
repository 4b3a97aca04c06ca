//! The weighted union-find forest: nodes in a vector, each naming its parent
//! and its children by position.

use crate::laws::{law_inserted_joins, law_pushed_is_alone};
use crate::lemmas::{lemma_attach_every_root, lemma_depth_at_least, lemma_singletons};
use crate::model::{
    capped, climb, deepest_sampled, depth_estimate, depth_from, height, inserted, is_forest,
    is_root, lemma_child_is_lower, lemma_parent_is_closer, pushed, root_of, same_set, singleton,
    singletons, stride, united, united_root, NodeView, SAMPLES_COUNT, STEP_MIN,
};
use crate::UnionFind;
use vstd::prelude::*;

verus! {

/// One element of the forest.
#[derive(Debug, PartialEq, Clone)]
pub struct UnionWeightedNode<V: PartialEq + core::fmt::Debug> {
    /// Position of the parent; `None` for a root.
    parent: Option<usize>,
    /// Positions of the nodes hung under this one, oldest first.
    children: Vec<usize>,
    /// The payload of this node.
    value: Option<V>,
}

impl<V: PartialEq + core::fmt::Debug> View for UnionWeightedNode<V> {
    type V = NodeView<V>;

    closed spec fn view(&self) -> NodeView<V> {
        NodeView {
            parent: match self.parent {
                Some(p) => Some(p as int),
                None => None,
            },
            children: self.children@.map_values(|c: usize| c as int),
            value: self.value,
        }
    }
}

impl<V: PartialEq + core::fmt::Debug> Default for UnionWeightedNode<V> {
    /// A root without children or payload.
    fn default() -> (node: Self)
        ensures
            node@ == singleton::<V>(None),
    {
        let node = UnionWeightedNode { parent: None, children: Vec::new(), value: None };
        assert(node@.children =~= Seq::<int>::empty());
        node
    }
}

/// A disjoint-set forest over the labels `0..len()`.
#[derive(Debug)]
pub struct UnionWeighted<V: PartialEq + core::fmt::Debug> {
    nodes: Vec<UnionWeightedNode<V>>,
}

impl<V: PartialEq + core::fmt::Debug> View for UnionWeighted<V> {
    type V = Seq<NodeView<V>>;

    closed spec fn view(&self) -> Seq<NodeView<V>> {
        self.nodes@.map_values(|node: UnionWeightedNode<V>| node@)
    }
}

impl<V: PartialEq + core::fmt::Debug> Default for UnionWeighted<V> {
    /// The forest without nodes.
    fn default() -> (forest: Self)
        ensures
            forest.wf(),
            forest@ == Seq::<NodeView<V>>::empty(),
    {
        let forest = UnionWeighted { nodes: Vec::new() };
        proof {
            assert(forest@ =~= singletons::<V>(0));
            lemma_singletons::<V>(0);
        }
        forest
    }
}

/// `Vec::capacity` of std: the number of elements the vector can hold without
/// reallocating. It is never less than the number of elements it holds;
/// nothing else is claimed of it.
#[verifier::external_body]
fn reserved<T>(items: &Vec<T>) -> (capacity: usize)
    ensures
        capacity >= items@.len(),
{
    items.capacity()
}

impl<V: PartialEq + core::fmt::Debug> UnionWeighted<V> {
    /// The invariant of the structure: its nodes form a forest.
    pub open spec fn wf(&self) -> bool {
        is_forest(self@)
    }

    /// An empty forest with room reserved for `count` nodes. `count` sizes
    /// the storage that is set aside and nothing else: the forest is the
    /// empty one whatever `count` is.
    pub fn new(count: usize) -> (forest: Self)
        ensures
            forest.wf(),
            forest@ == Seq::<NodeView<V>>::empty(),
    {
        let forest = UnionWeighted { nodes: Vec::with_capacity(count) };
        proof {
            assert(forest@ =~= singletons::<V>(0));
            lemma_singletons::<V>(0);
        }
        forest
    }

    /// The forest of `count` sets of one node each, labelled `0..count`:
    /// every node is its own root, no two nodes are in one set, and every
    /// depth estimate is 0.
    pub fn new_full_category(count: usize) -> (forest: Self)
        ensures
            forest.wf(),
            forest@ == singletons::<V>(count as nat),
            forall|i: int| 0 <= i < count ==> #[trigger] root_of(forest@, i) == i,
            forall|i: int| 0 <= i < count ==> #[trigger] depth_estimate(forest@, i) == 0,
            forall|i: int, j: int|
                0 <= i < count && 0 <= j < count && i != j ==> !#[trigger] same_set(
                    forest@,
                    i,
                    j,
                ),
    {
        let mut nodes: Vec<UnionWeightedNode<V>> = Vec::with_capacity(count);
        let mut made: usize = 0;
        while made < count
            invariant
                made <= count,
                nodes@.len() == made,
                forall|i: int| 0 <= i < made ==> (#[trigger] nodes@[i])@ == singleton::<V>(None),
            decreases count - made,
        {
            nodes.push(UnionWeightedNode::default());
            made = made + 1;
        }
        let forest = UnionWeighted { nodes };
        proof {
            assert(forest@ =~= singletons::<V>(count as nat));
            lemma_singletons::<V>(count as nat);
        }
        forest
    }

    /// Adds a node that carries `v` as a set of its own. Its label is the
    /// length before the call. The sets of the other nodes stay as they were.
    pub fn push(&mut self, v: V)
        requires
            old(self).wf(),
        ensures
            final(self).wf(),
            final(self)@ == pushed(old(self)@, v),
            root_of(final(self)@, old(self)@.len() as int) == old(self)@.len(),
            depth_estimate(final(self)@, old(self)@.len() as int) == 0,
            forall|i: int|
                0 <= i < old(self)@.len() ==> #[trigger] root_of(final(self)@, i) == root_of(
                    old(self)@,
                    i,
                ),
            forall|i: int|
                0 <= i < old(self)@.len() ==> !#[trigger] same_set(
                    final(self)@,
                    old(self)@.len() as int,
                    i,
                ),
    {
        let ghost before = self@;
        let node = UnionWeightedNode { parent: None, children: Vec::new(), value: Some(v) };
        assert(node@.children =~= Seq::<int>::empty());
        self.nodes.push(node);
        proof {
            assert(self@ =~= pushed(before, v));
            law_pushed_is_alone(before, v, 0);
            assert forall|i: int| 0 <= i < before.len() implies #[trigger] root_of(self@, i)
                == root_of(before, i) by {
                law_pushed_is_alone(before, v, i);
            }
            assert forall|i: int| 0 <= i < before.len() implies !#[trigger] same_set(
                self@,
                before.len() as int,
                i,
            ) by {
                law_pushed_is_alone(before, v, i);
            }
        }
    }

    /// Adds a node that carries `v` to the set of `index`, as a child of the
    /// root of that set. Its label is the length before the call. The roots of
    /// the other nodes stay as they were.
    ///
    /// `index` has to be a label of the forest.
    pub fn insert(&mut self, index: usize, v: V)
        requires
            old(self).wf(),
            index < old(self)@.len(),
        ensures
            final(self).wf(),
            final(self)@ == inserted(old(self)@, index as int, v),
            root_of(final(self)@, old(self)@.len() as int) == root_of(old(self)@, index as int),
            same_set(final(self)@, old(self)@.len() as int, index as int),
            forall|i: int|
                0 <= i < old(self)@.len() ==> #[trigger] root_of(final(self)@, i) == root_of(
                    old(self)@,
                    i,
                ),
    {
        let ghost before = self@;
        let new: usize = self.nodes.len();
        let root: usize = self.get_root(index);
        let node = UnionWeightedNode { parent: Some(root), children: Vec::new(), value: Some(v) };
        assert(node@.children =~= Seq::<int>::empty());
        self.nodes.push(node);
        self.nodes[root].children.push(new);
        proof {
            let grown = pushed(before, v);
            assert(self@ =~= inserted(before, index as int, v)) by {
                assert(self@[root as int].children =~= grown[root as int].children.push(
                    new as int,
                ));
            }
            law_inserted_joins(before, index as int, v, 0);
            assert forall|i: int| 0 <= i < before.len() implies #[trigger] root_of(self@, i)
                == root_of(before, i) by {
                law_inserted_joins(before, index as int, v, i);
            }
        }
    }

    /// The number of nodes the storage can hold before it has to grow.
    pub fn capacity(&self) -> (capacity: usize)
        ensures
            capacity >= self@.len(),
    {
        reserved(&self.nodes)
    }

    /// The number of nodes; the labels are `0..len()`.
    pub fn len(&self) -> (len: usize)
        ensures
            len == self@.len(),
    {
        self.nodes.len()
    }

    /// The root of the set that holds `index`: the node without a parent that
    /// the parent links lead to.
    ///
    /// `index` has to be a label of the forest.
    pub fn get_root(&self, index: usize) -> (root: usize)
        requires
            self.wf(),
            index < self@.len(),
        ensures
            root == root_of(self@, index as int),
            is_root(self@, root as int),
    {
        let mut at: usize = index;
        loop
            invariant
                self.wf(),
                at < self@.len(),
                root_of(self@, at as int) == root_of(self@, index as int),
            decreases climb(self@, at as int),
        {
            match self.nodes[at].parent {
                Some(parent) => {
                    proof {
                        lemma_parent_is_closer(self@, at as int);
                    }
                    at = parent;
                },
                None => {
                    return at;
                },
            }
        }
    }

    /// The depth estimate for the tree below `root`, which lies `depth` links
    /// below the node the estimate is made for, as far as a `usize` holds it.
    fn get_depth_4_root(&self, root: usize, depth: usize) -> (estimate: usize)
        requires
            self.wf(),
            root < self@.len(),
        ensures
            estimate == capped(depth_from(self@, root as int, depth as nat)),
        decreases height(self@, root as int),
    {
        let count: usize = self.nodes[root].children.len();
        let step: usize = if count > SAMPLES_COUNT * STEP_MIN {
            count / SAMPLES_COUNT
        } else {
            1
        };
        let below: usize = depth.saturating_add(1);
        let mut max: usize = 0;
        let mut at: usize = 0;
        while at < count
            invariant
                self.wf(),
                root < self@.len(),
                count == self@[root as int].children.len(),
                step == stride(count as nat),
                at <= count,
                below == capped((depth + 1) as nat),
                capped(deepest_sampled(self@, root as int, depth as nat, 0)) == if max >= capped(
                    deepest_sampled(self@, root as int, depth as nat, at as nat),
                ) {
                    max
                } else {
                    capped(deepest_sampled(self@, root as int, depth as nat, at as nat))
                },
            decreases count - at,
        {
            let child: usize = self.nodes[root].children[at];
            proof {
                lemma_child_is_lower(self@, root as int, at as int);
                lemma_depth_at_least(self@, child as int, below as nat);
                lemma_depth_at_least(self@, child as int, (depth + 1) as nat);
            }
            let children_depth: usize = self.get_depth_4_root(child, below);
            proof {
                let here = depth_from(self@, child as int, (depth + 1) as nat);
                let next = (at + step) as nat;
                let rest = deepest_sampled(self@, root as int, depth as nat, next);
                assert(children_depth == capped(here));
                assert(deepest_sampled(self@, root as int, depth as nat, at as nat) == if here
                    >= rest {
                    here
                } else {
                    rest
                });
                if next >= count {
                    assert(rest == 0);
                    assert(deepest_sampled(self@, root as int, depth as nat, count as nat) == 0);
                }
            }
            if max < children_depth {
                max = children_depth;
            }
            at = if step < count - at {
                at + step
            } else {
                count
            };
        }
        max.saturating_add(depth)
    }

    /// The root of the set that holds `index`, and the depth estimate for the
    /// tree below that root, as far as a `usize` holds it.
    ///
    /// `index` has to be a label of the forest.
    pub fn get_root_with_depth(&self, index: usize) -> (found: (usize, usize))
        requires
            self.wf(),
            index < self@.len(),
        ensures
            found.0 == root_of(self@, index as int),
            is_root(self@, found.0 as int),
            found.1 == capped(depth_estimate(self@, root_of(self@, index as int))),
    {
        let root: usize = self.get_root(index);
        let depth: usize = self.get_depth_4_root(root, 0);
        (root, depth)
    }
}

impl<V: PartialEq + core::fmt::Debug> UnionFind for UnionWeighted<V> {
    type K = usize;

    open spec fn valid(&self) -> bool {
        self.wf()
    }

    open spec fn has_key(&self, k: usize) -> bool {
        k < self@.len()
    }

    open spec fn joined(&self, k1: usize, k2: usize) -> bool {
        same_set(self@, k1 as int, k2 as int)
    }

    /// Merges the set of `k1` with the set of `k2`. Nothing changes if they
    /// are one set already. Otherwise the root with the smaller depth
    /// estimate is hung under the other root, the root of `k2` under the root
    /// of `k1` if the estimates are equal.
    ///
    /// `k1` and `k2` have to be labels of the forest.
    fn union(&mut self, k1: usize, k2: usize)
        ensures
            final(self)@ == united(old(self)@, k1 as int, k2 as int),
            final(self)@.len() == old(self)@.len(),
            same_set(old(self)@, k1 as int, k2 as int) ==> final(self)@ == old(self)@,
            forall|x: int|
                0 <= x < old(self)@.len() ==> #[trigger] root_of(final(self)@, x) == if same_set(
                    old(self)@,
                    x,
                    k1 as int,
                ) || same_set(old(self)@, x, k2 as int) {
                    united_root(old(self)@, k1 as int, k2 as int)
                } else {
                    root_of(old(self)@, x)
                },
    {
        let ghost before = self@;
        if self.find(k1, k2) {
            return;
        }
        let (root1, depth1) = self.get_root_with_depth(k1);
        let (root2, depth2) = self.get_root_with_depth(k2);
        if depth1 < depth2 {
            self.nodes[root1].parent = Some(root2);
            self.nodes[root2].children.push(root1);
            proof {
                assert(self@[root2 as int].children =~= before[root2 as int].children.push(
                    root1 as int,
                ));
                lemma_attach_every_root(before, self@, root1 as int, root2 as int);
            }
        } else {
            self.nodes[root2].parent = Some(root1);
            self.nodes[root1].children.push(root2);
            proof {
                assert(self@[root1 as int].children =~= before[root1 as int].children.push(
                    root2 as int,
                ));
                lemma_attach_every_root(before, self@, root2 as int, root1 as int);
            }
        }
    }

    /// Whether `k1` and `k2` are in the same set: whether they have the same
    /// root. A label is always in one set with itself.
    ///
    /// `k1` and `k2` have to be labels of the forest.
    fn find(&self, k1: usize, k2: usize) -> (together: bool)
        ensures
            together == (root_of(self@, k1 as int) == root_of(self@, k2 as int)),
            k1 == k2 ==> together,
    {
        let root1: usize = self.get_root(k1);
        let root2: usize = self.get_root(k2);
        if root1 == root2 {
            true
        } else {
            false
        }
    }
}

} // verus!
