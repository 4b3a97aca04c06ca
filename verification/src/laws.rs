//! What holds of every forest, stated over the model and proved.

use crate::lemmas::{
    lemma_attach_forest, lemma_attach_roots, lemma_depth_at_least, lemma_flat_depth,
    lemma_leaf_depth, lemma_push_forest, lemma_root_is_root, lemma_root_of_child,
    lemma_root_stable, lemma_singletons,
};
use crate::model::{
    attached, capped, chained, deepest_sampled, depth_estimate, depth_from, height, is_forest,
    inserted, is_root, left_from, lemma_child_is_lower, lemma_stride_positive, pushed, root_of,
    same_set, sampled_height, singleton, singletons, star, stride, tallest_sampled, triangle,
    united, united_root, NodeView,
};
use vstd::prelude::*;

verus! {

/// Every label is in one set with itself.
pub proof fn law_same_set_reflexive<V>(f: Seq<NodeView<V>>, i: int)
    ensures
        same_set(f, i, i),
{
}

/// If `a` is with `b`, then `b` is with `a`.
pub proof fn law_same_set_symmetric<V>(f: Seq<NodeView<V>>, a: int, b: int)
    ensures
        same_set(f, a, b) == same_set(f, b, a),
{
}

/// If `a` is with `b` and `b` is with `c`, then `a` is with `c`.
pub proof fn law_same_set_transitive<V>(f: Seq<NodeView<V>>, a: int, b: int, c: int)
    requires
        same_set(f, a, b),
        same_set(f, b, c),
    ensures
        same_set(f, a, c),
{
}

/// In a forest of fresh singletons every node is its own root, no two nodes
/// are in one set, and every depth estimate is 0.
pub proof fn law_singletons_are_apart<V>(count: nat, i: int, j: int)
    requires
        0 <= i < count,
        0 <= j < count,
    ensures
        is_forest(singletons::<V>(count)),
        root_of(singletons::<V>(count), i) == i,
        depth_estimate(singletons::<V>(count), i) == 0,
        i != j ==> !same_set(singletons::<V>(count), i, j),
{
    lemma_singletons::<V>(count);
}

/// A merge leaves a forest of the same length, in which the nodes that were
/// with `a` or with `b` have the root `united_root(f, a, b)` and all others
/// keep their root.
pub proof fn law_united_roots<V>(f: Seq<NodeView<V>>, a: int, b: int, x: int)
    requires
        is_forest(f),
        0 <= a < f.len(),
        0 <= b < f.len(),
        0 <= x < f.len(),
    ensures
        is_forest(united(f, a, b)),
        united(f, a, b).len() == f.len(),
        is_root(united(f, a, b), united_root(f, a, b)),
        root_of(united(f, a, b), x) == if same_set(f, x, a) || same_set(f, x, b) {
            united_root(f, a, b)
        } else {
            root_of(f, x)
        },
{
    lemma_root_is_root(f, a);
    lemma_root_is_root(f, b);
    lemma_root_is_root(f, x);
    let root_a = root_of(f, a);
    let root_b = root_of(f, b);
    if root_a != root_b {
        if capped(depth_estimate(f, root_a)) < capped(depth_estimate(f, root_b)) {
            lemma_attach_forest(f, root_a, root_b);
            lemma_attach_roots(f, root_a, root_b, x);
            lemma_attach_roots(f, root_a, root_b, root_b);
        } else {
            lemma_attach_forest(f, root_b, root_a);
            lemma_attach_roots(f, root_b, root_a, x);
            lemma_attach_roots(f, root_b, root_a, root_a);
        }
        lemma_root_is_root(united(f, a, b), united_root(f, a, b));
    }
}

/// After a merge of `a` and `b` the two are in one set, in whichever order
/// they were given, and both orders give the same sets.
pub proof fn law_union_joins_in_either_order<V>(f: Seq<NodeView<V>>, a: int, b: int, x: int, y: int)
    requires
        is_forest(f),
        0 <= a < f.len(),
        0 <= b < f.len(),
        0 <= x < f.len(),
        0 <= y < f.len(),
    ensures
        same_set(united(f, a, b), a, b),
        same_set(united(f, b, a), a, b),
        same_set(united(f, a, b), x, y) == same_set(united(f, b, a), x, y),
        same_set(united(f, a, b), x, y) == (same_set(f, x, y) || (same_set(f, x, a) && same_set(
            f,
            b,
            y,
        )) || (same_set(f, x, b) && same_set(f, a, y))),
{
    law_united_roots(f, a, b, a);
    law_united_roots(f, a, b, b);
    law_united_roots(f, a, b, x);
    law_united_roots(f, a, b, y);
    law_united_roots(f, b, a, a);
    law_united_roots(f, b, a, b);
    law_united_roots(f, b, a, x);
    law_united_roots(f, b, a, y);
    lemma_root_is_root(f, x);
    lemma_root_is_root(f, y);
}

/// Merging two labels a second time changes nothing: no parent, no list of
/// children and no payload.
pub proof fn law_union_idempotent<V>(f: Seq<NodeView<V>>, a: int, b: int)
    requires
        is_forest(f),
        0 <= a < f.len(),
        0 <= b < f.len(),
    ensures
        united(united(f, a, b), a, b) == united(f, a, b),
        united(united(f, a, b), b, a) == united(f, a, b),
        same_set(f, a, b) ==> united(f, a, b) == f,
{
    law_united_roots(f, a, b, a);
    law_united_roots(f, a, b, b);
}

/// A pushed node is a root without children at the label `f.len()`: it is
/// its own root, is estimated at depth 0 and shares its set with no other
/// node, and the other nodes keep their roots.
pub proof fn law_pushed_is_alone<V>(f: Seq<NodeView<V>>, value: V, i: int)
    requires
        is_forest(f),
    ensures
        is_forest(pushed(f, value)),
        pushed(f, value).len() == f.len() + 1,
        root_of(pushed(f, value), f.len() as int) == f.len(),
        depth_estimate(pushed(f, value), f.len() as int) == 0,
        0 <= i < f.len() ==> root_of(pushed(f, value), i) == root_of(f, i),
        0 <= i < f.len() ==> !same_set(pushed(f, value), f.len() as int, i),
{
    let g = pushed(f, value);
    lemma_push_forest(f, singleton(Some(value)));
    lemma_leaf_depth(g, f.len() as int, 0);
    if 0 <= i < f.len() {
        lemma_root_stable(f, g, i);
        lemma_root_is_root(f, i);
    }
}

/// An inserted node gets the label `f.len()` and the root of `index`, so it
/// is in one set with `index`, and the other nodes keep their roots.
pub proof fn law_inserted_joins<V>(f: Seq<NodeView<V>>, index: int, value: V, i: int)
    requires
        is_forest(f),
        0 <= index < f.len(),
    ensures
        is_forest(inserted(f, index, value)),
        inserted(f, index, value).len() == f.len() + 1,
        root_of(inserted(f, index, value), f.len() as int) == root_of(f, index),
        same_set(inserted(f, index, value), f.len() as int, index),
        0 <= i < f.len() ==> root_of(inserted(f, index, value), i) == root_of(f, i),
{
    let grown = pushed(f, value);
    let root = root_of(f, index);
    let g = inserted(f, index, value);
    lemma_root_is_root(f, index);
    lemma_push_forest(f, singleton(Some(value)));
    assert(is_root(grown, root));
    lemma_attach_forest(grown, f.len() as int, root);
    lemma_root_of_child(g, f.len() as int);
    lemma_root_stable(f, g, root);
    lemma_root_stable(f, g, index);
    if 0 <= i < f.len() {
        lemma_root_stable(f, g, i);
    }
}

/// Merging 0 with 1, 1 with 2 and so on over fresh singletons never builds a
/// chain: every merged node becomes a child of node 0.
pub proof fn law_chain_is_star<V>(count: nat, links: nat)
    requires
        links < count,
    ensures
        chained(singletons::<V>(count), links) == star::<V>(count, links),
        is_forest(star::<V>(count, links)),
    decreases links,
{
    if links == 0 {
        lemma_singletons::<V>(count);
        assert(star::<V>(count, 0).len() == count);
        assert forall|i: int| 0 <= i < count implies #[trigger] star::<V>(count, 0)[i]
            == singletons::<V>(count)[i] by {
            if i == 0 {
                assert(star::<V>(count, 0)[0].children =~= Seq::<int>::empty());
            }
        }
        assert(star::<V>(count, 0) =~= singletons::<V>(count));
    } else {
        let before = (links - 1) as nat;
        let f = star::<V>(count, before);
        let g = star::<V>(count, links);
        law_chain_is_star::<V>(count, before);
        assert(root_of(f, links as int) == links);
        assert(root_of(f, 0) == 0);
        assert(root_of(f, before as int) == 0);
        lemma_leaf_depth(f, links as int, 0);
        lemma_depth_at_least(f, 0, 0);
        assert(united(f, before as int, links as int) == attached(f, links as int, 0));
        lemma_attach_forest(f, links as int, 0);
        let h = attached(f, links as int, 0);
        assert forall|i: int| 0 <= i < count implies #[trigger] h[i] == g[i] by {
            if i == 0 {
                assert(h[0].children =~= g[0].children);
            }
        }
        assert(h =~= g);
    }
}

/// After any number of the merges 0 with 1, 1 with 2 and so on over fresh
/// singletons, every node has a root whose depth estimate is at most 1: the
/// merged nodes have the root 0, the others are their own root.
pub proof fn law_chain_stays_shallow<V>(count: nat, links: nat, i: int)
    requires
        links < count,
        0 <= i < count,
    ensures
        is_forest(chained(singletons::<V>(count), links)),
        root_of(chained(singletons::<V>(count), links), i) == if i <= links {
            0
        } else {
            i
        },
        depth_estimate(
            chained(singletons::<V>(count), links),
            root_of(chained(singletons::<V>(count), links), i),
        ) <= 1,
{
    law_chain_is_star::<V>(count, links);
    let f = star::<V>(count, links);
    assert(root_of(f, 0) == 0);
    if i <= links {
        assert(root_of(f, i) == 0);
        lemma_flat_depth(f, 0, 0);
    } else {
        lemma_leaf_depth(f, i, 0);
    }
}

/// What `tall` sampled links below a node at `depth` add to its estimate.
spec fn weight(tall: nat, depth: nat) -> nat {
    if tall == 0 {
        0
    } else {
        tall * (depth + 1) + triangle((tall - 1) as nat)
    }
}

/// A larger number has a larger triangle number.
proof fn lemma_triangle_grows(low: nat, high: nat)
    requires
        low <= high,
    ensures
        triangle(low) <= triangle(high),
    decreases high,
{
    if low < high {
        lemma_triangle_grows(low, (high - 1) as nat);
    }
}

/// More sampled links add more to the estimate.
proof fn lemma_weight_grows(low: nat, high: nat, depth: nat)
    requires
        low <= high,
    ensures
        weight(low, depth) <= weight(high, depth),
{
    if low > 0 {
        lemma_triangle_grows((low - 1) as nat, (high - 1) as nat);
        assert(low * (depth + 1) <= high * (depth + 1)) by (nonlinear_arith)
            requires
                low <= high,
        ;
    }
}

/// The largest estimate among the sampled children is the weight of the
/// tallest of them.
proof fn lemma_deepest_by_tallest<V>(f: Seq<NodeView<V>>, i: int, depth: nat, from: nat)
    requires
        is_forest(f),
        0 <= i < f.len(),
    ensures
        deepest_sampled(f, i, depth, from) == weight(tallest_sampled(f, i, from), depth),
    decreases height(f, i), left_from(f[i].children.len(), from),
{
    let count = f[i].children.len();
    if from < count {
        let child = f[i].children[from as int];
        let next = from + stride(count);
        lemma_child_is_lower(f, i, from as int);
        lemma_stride_positive(count);
        law_estimate_by_sampled_height(f, child, depth + 1);
        lemma_deepest_by_tallest(f, i, depth, next);
        let here = sampled_height(f, child) + 1;
        let rest = tallest_sampled(f, i, next);
        assert(depth_from(f, child, depth + 1) == weight(here, depth));
        if here >= rest {
            lemma_weight_grows(rest, here, depth);
        } else {
            lemma_weight_grows(here, rest, depth);
        }
    }
}

/// The estimate is a function of the sampled height alone, and not the
/// sampled height itself: a node at `depth` whose deepest sampled descendant
/// lies `s` links below it is estimated at `(s + 1) * depth + (0 + 1 + ... + s)`.
/// For a root this is `0 + 1 + ... + s`: 0, 1, 3, 6 and so on. So of two
/// roots the one with the smaller estimate has the smaller sampled height.
pub proof fn law_estimate_by_sampled_height<V>(f: Seq<NodeView<V>>, i: int, depth: nat)
    requires
        is_forest(f),
        0 <= i < f.len(),
    ensures
        depth_from(f, i, depth) == (sampled_height(f, i) + 1) * depth + triangle(
            sampled_height(f, i),
        ),
        depth_estimate(f, i) == triangle(sampled_height(f, i)),
        depth_estimate(f, i) >= sampled_height(f, i),
        sampled_height(f, i) <= 1 ==> depth_estimate(f, i) == sampled_height(f, i),
    decreases height(f, i), f[i].children.len() + 1,
{
    let tall = sampled_height(f, i);
    assert(triangle(tall) >= tall);
    assert(triangle(1) == 1) by {
        assert(triangle(0) == 0);
    }
    lemma_deepest_by_tallest(f, i, depth, 0);
    lemma_deepest_by_tallest(f, i, 0, 0);
    assert(depth + weight(tall, depth) == (tall + 1) * depth + triangle(tall)) by {
        assert((tall + 1) * depth == tall * depth + depth) by (nonlinear_arith);
        assert(tall * (depth + 1) == tall * depth + tall) by (nonlinear_arith);
        if tall == 0 {
            assert(tall * depth == 0) by (nonlinear_arith)
                requires
                    tall == 0,
            ;
        } else {
            assert(triangle(tall) == tall + triangle((tall - 1) as nat));
        }
    }
    assert(weight(tall, 0) == triangle(tall)) by {
        assert(tall * 1 == tall) by (nonlinear_arith);
    }
    assert((tall + 1) * 0 == 0) by (nonlinear_arith);
}

} // verus!
