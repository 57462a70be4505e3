use vstd::prelude::*;
use vstd::seq_lib::{group_to_multiset_ensures, lemma_multiset_commutative, to_multiset_insert};

use crate::aabb::{
    hit_slabs, lemma_contains_trans, lemma_union_contains_both, slabs_hit, surrounding_box,
    union_box, Aabb, Slab,
};
use crate::hittable::{crossing_wf, first_root, root_in, Crossing, Hit};
use crate::hittable_list::{
    crossings_cover, hit_t, lemma_nearest_t_concat, lemma_nearest_t_is_least,
    lemma_nearest_t_same_members, lemma_nearest_t_shrink, nearest_t,
};
use crate::scalar::Scalar;

verus! {

broadcast use group_to_multiset_ensures;

/// One side of a node: an object of the scene, or another node of the same hierarchy.
#[derive(Clone, Copy, Debug, PartialEq, Eq, Structural)]
pub enum Child {
    Object(usize),
    Node(usize),
}

/// An inner node of the hierarchy: two children and the box that encloses both.
/// A node over a single object has that object on both sides.
#[derive(Clone, Copy, Debug, PartialEq, Eq, Structural)]
pub struct BvhNode {
    pub left: Child,
    pub right: Child,
    pub bbox: Aabb,
}

/// A bounding-volume hierarchy held in an arena: each node names its children by index,
/// and a child node always comes before its parent.
#[derive(Debug)]
pub struct Bvh {
    pub nodes: Vec<BvhNode>,
    pub root: usize,
}

/// The child is an object below `n_objects`, or a node that comes before node `k`.
pub open spec fn child_ok(c: Child, k: int, n_objects: int) -> bool {
    match c {
        Child::Object(i) => i < n_objects,
        Child::Node(j) => j < k,
    }
}

/// The box of a child: the object's own box, or the node's box.
pub open spec fn child_box(nodes: Seq<BvhNode>, boxes: Seq<Aabb>, c: Child) -> Aabb {
    match c {
        Child::Object(i) => boxes[i as int],
        Child::Node(j) => nodes[j as int].bbox,
    }
}

/// Every child index is valid and comes before its parent.
pub open spec fn nodes_shape(nodes: Seq<BvhNode>, n_objects: int) -> bool {
    forall|k: int|
        0 <= k < nodes.len() ==> {
            &&& child_ok(#[trigger] nodes[k].left, k, n_objects)
            &&& child_ok(nodes[k].right, k, n_objects)
        }
}

/// The arena is well shaped over the objects whose boxes are `boxes`, and each node's box
/// is the union of its children's boxes.
pub open spec fn nodes_wf(nodes: Seq<BvhNode>, boxes: Seq<Aabb>) -> bool {
    &&& nodes_shape(nodes, boxes.len() as int)
    &&& forall|k: int|
        0 <= k < nodes.len() ==> #[trigger] nodes[k].bbox == union_box(
            child_box(nodes, boxes, nodes[k].left),
            child_box(nodes, boxes, nodes[k].right),
        )
}

/// The objects under node `k`, left side first, in tree order.
pub open spec fn node_leaves(nodes: Seq<BvhNode>, k: int) -> Seq<usize>
    decreases k,
{
    if k < 0 || k >= nodes.len() {
        Seq::empty()
    } else {
        let l = match nodes[k].left {
            Child::Object(i) => seq![i],
            Child::Node(j) => if j < k {
                node_leaves(nodes, j as int)
            } else {
                Seq::empty()
            },
        };
        let r = match nodes[k].right {
            Child::Object(i) => seq![i],
            Child::Node(j) => if j < k {
                node_leaves(nodes, j as int)
            } else {
                Seq::empty()
            },
        };
        l + r
    }
}

/// The number of levels of nodes from node `k` down to the objects.
pub open spec fn node_depth(nodes: Seq<BvhNode>, k: int) -> nat
    decreases k,
{
    if k < 0 || k >= nodes.len() {
        0
    } else {
        let dl: nat = match nodes[k].left {
            Child::Object(_) => 0,
            Child::Node(j) => if j < k {
                node_depth(nodes, j as int)
            } else {
                0
            },
        };
        let dr: nat = match nodes[k].right {
            Child::Object(_) => 0,
            Child::Node(j) => if j < k {
                node_depth(nodes, j as int)
            } else {
                0
            },
        };
        1 + if dl >= dr {
            dl
        } else {
            dr
        }
    }
}

/// The depth of a child: none for an object.
pub open spec fn child_depth(nodes: Seq<BvhNode>, c: Child) -> nat {
    match c {
        Child::Object(_) => 0,
        Child::Node(j) => node_depth(nodes, j as int),
    }
}

/// Two to the power `e`.
pub open spec fn two_to(e: nat) -> nat
    decreases e,
{
    if e == 0 {
        1
    } else {
        2 * two_to((e - 1) as nat)
    }
}

/// The objects under a child.
pub open spec fn child_leaves(nodes: Seq<BvhNode>, c: Child) -> Seq<usize> {
    match c {
        Child::Object(i) => seq![i],
        Child::Node(j) => node_leaves(nodes, j as int),
    }
}

/// The key by which objects are ordered when a node is split on `axis`: the lower
/// coordinate of the object's box on that axis.
pub open spec fn split_key(boxes: Seq<Aabb>, axis: int, o: usize) -> int {
    boxes[o as int].min.axis(axis).rank as int
}

/// The objects come in nondecreasing order of their key on `axis`.
pub open spec fn sorted_on(s: Seq<usize>, boxes: Seq<Aabb>, axis: int) -> bool {
    forall|a: int, b: int|
        0 <= a < b < s.len() ==> split_key(boxes, axis, #[trigger] s[a]) <= split_key(
            boxes,
            axis,
            #[trigger] s[b],
        )
}

/// Every object under child `left` has a key on `axis` no greater than every object under
/// child `right`: the two sides are split along that axis.
pub open spec fn split_on(
    nodes: Seq<BvhNode>,
    boxes: Seq<Aabb>,
    left: Child,
    right: Child,
    axis: int,
) -> bool {
    forall|x: usize, y: usize|
        #[trigger] child_leaves(nodes, left).contains(x) && #[trigger] child_leaves(
            nodes,
            right,
        ).contains(y) ==> split_key(boxes, axis, x) <= split_key(boxes, axis, y)
}

/// Every object is an index of `boxes`.
pub open spec fn objects_in(s: Seq<usize>, n: int) -> bool {
    forall|k: int| 0 <= k < s.len() ==> #[trigger] s[k] < n
}

/// Relies on rand::rng and Rng::random_range: a draw from `0..n` (non-empty) lies in `0..n`.
#[verifier::external_body]
fn random_below(n: usize) -> (r: usize)
    requires
        n > 0,
    ensures
        r < n,
{
    rand::Rng::random_range(&mut rand::rng(), 0..n)
}

/// Orders two boxes by their lower coordinate on `axis`.
pub fn box_compare(a: &Aabb, b: &Aabb, axis: usize) -> (r: core::cmp::Ordering)
    requires
        axis < 3,
    ensures
        (r == core::cmp::Ordering::Less) <==> a.min.axis(axis as int).rank < b.min.axis(
            axis as int,
        ).rank,
        (r == core::cmp::Ordering::Equal) <==> a.min.axis(axis as int).rank == b.min.axis(
            axis as int,
        ).rank,
        (r == core::cmp::Ordering::Greater) <==> a.min.axis(axis as int).rank > b.min.axis(
            axis as int,
        ).rank,
{
    let a_min = a.min.get(axis);
    let b_min = b.min.get(axis);
    if a_min.rank < b_min.rank {
        core::cmp::Ordering::Less
    } else if a_min.rank == b_min.rank {
        core::cmp::Ordering::Equal
    } else {
        core::cmp::Ordering::Greater
    }
}

/// The objects in nondecreasing order of their key on `axis`; objects with equal keys keep
/// their order (insertion sort: each object goes after those with a key not above its own).
fn sort_on_axis(objects: &Vec<usize>, boxes: &Vec<Aabb>, axis: usize) -> (r: Vec<usize>)
    requires
        axis < 3,
        objects_in(objects@, boxes@.len() as int),
    ensures
        r@.to_multiset() == objects@.to_multiset(),
        r@.len() == objects@.len(),
        sorted_on(r@, boxes@, axis as int),
        objects_in(r@, boxes@.len() as int),
{
    let mut sorted: Vec<usize> = Vec::new();
    let mut i: usize = 0;
    while i < objects.len()
        invariant
            0 <= i <= objects@.len(),
            axis < 3,
            objects_in(objects@, boxes@.len() as int),
            sorted@.to_multiset() == objects@.subrange(0, i as int).to_multiset(),
            sorted@.len() == i,
            sorted_on(sorted@, boxes@, axis as int),
            objects_in(sorted@, boxes@.len() as int),
        decreases objects@.len() - i,
    {
        let x = objects[i];
        let kx = boxes[x].min.get(axis);
        let mut p: usize = 0;
        while p < sorted.len() && boxes[sorted[p]].min.get(axis).rank <= kx.rank
            invariant
                0 <= p <= sorted@.len(),
                axis < 3,
                objects_in(sorted@, boxes@.len() as int),
                kx.rank == split_key(boxes@, axis as int, x),
                forall|q: int| 0 <= q < p ==> split_key(boxes@, axis as int, #[trigger] sorted@[q]) <= kx.rank,
            decreases sorted@.len() - p,
        {
            p = p + 1;
        }
        let ghost old_sorted = sorted@;
        proof {
            old_sorted.insert_ensures(p as int, x);
            to_multiset_insert(old_sorted, p as int, x);
            assert(objects@.subrange(0, i as int + 1) == objects@.subrange(0, i as int).push(x));
        }
        sorted.insert(p, x);
        assert forall|a: int, b: int| 0 <= a < b < sorted@.len() implies split_key(
            boxes@,
            axis as int,
            #[trigger] sorted@[a],
        ) <= split_key(boxes@, axis as int, #[trigger] sorted@[b]) by {
            if p < old_sorted.len() {
                assert(split_key(boxes@, axis as int, old_sorted[p as int]) > kx.rank);
            }
            if a < p && b == p {
            } else if a == p && b > p {
                assert(split_key(boxes@, axis as int, old_sorted[p as int]) <= split_key(
                    boxes@,
                    axis as int,
                    old_sorted[b - 1],
                ));
            } else if a < p && b > p {
                assert(sorted@[a] == old_sorted[a]);
                assert(sorted@[b] == old_sorted[b - 1]);
            } else if b < p {
                assert(sorted@[a] == old_sorted[a]);
                assert(sorted@[b] == old_sorted[b]);
            } else {
                assert(sorted@[a] == old_sorted[a - 1]);
                assert(sorted@[b] == old_sorted[b - 1]);
            }
        }
        assert forall|k: int| 0 <= k < sorted@.len() implies #[trigger] sorted@[k]
            < boxes@.len() by {
            if k < p {
                assert(sorted@[k] == old_sorted[k]);
            } else if k > p {
                assert(sorted@[k] == old_sorted[k - 1]);
            }
        }
        i = i + 1;
    }
    assert(objects@.subrange(0, objects@.len() as int) == objects@);
    sorted
}

/// A node's objects and depth do not change when nodes are appended to the arena.
pub proof fn lemma_leaves_prefix(a: Seq<BvhNode>, b: Seq<BvhNode>, k: int)
    requires
        a.len() <= b.len(),
        forall|j: int| 0 <= j < a.len() ==> b[j] == a[j],
        0 <= k < a.len(),
    ensures
        node_leaves(b, k) == node_leaves(a, k),
        node_depth(b, k) == node_depth(a, k),
    decreases k,
{
    if let Child::Node(j) = a[k].left {
        if j < k {
            lemma_leaves_prefix(a, b, j as int);
        }
    }
    if let Child::Node(j) = a[k].right {
        if j < k {
            lemma_leaves_prefix(a, b, j as int);
        }
    }
}

/// An element of a concatenation comes from one of its two parts.
pub proof fn lemma_concat_contains(x: Seq<usize>, y: Seq<usize>)
    ensures
        forall|e: usize| #[trigger] (x + y).contains(e) <==> x.contains(e) || y.contains(e),
{
    broadcast use vstd::multiset::group_multiset_axioms;

    lemma_multiset_commutative(x, y);
    assert forall|e: usize| #[trigger] (x + y).contains(e) <==> x.contains(e) || y.contains(e) by {
        assert((x + y).to_multiset().count(e) == x.to_multiset().count(e) + y.to_multiset().count(
            e,
        ));
    }
}

/// The one-element sequence holds exactly its element.
proof fn lemma_single_contains(i: usize)
    ensures
        forall|e: usize| #[trigger] seq![i].contains(e) <==> e == i,
{
    assert(seq![i][0] == i);
}

/// A sequence of one or two objects holds exactly its first and its last.
proof fn lemma_small_objects(s: Seq<usize>)
    requires
        1 <= s.len() <= 2,
    ensures
        forall|x: usize| #[trigger] s.contains(x) <==> (x == s[0] || x == s[s.len() - 1]),
{
    assert forall|x: usize| #[trigger] s.contains(x) <==> (x == s[0] || x == s[s.len() - 1]) by {
        if x == s[0] {
            assert(s[0] == x);
        }
        if x == s[s.len() - 1] {
            assert(s[s.len() - 1] == x);
        }
    }
}

/// Appending a node whose children come before it, with the union of their boxes, keeps
/// the arena well formed; its objects are those of its two children.
proof fn lemma_push_node(nodes: Seq<BvhNode>, boxes: Seq<Aabb>, nd: BvhNode)
    requires
        nodes_wf(nodes, boxes),
        child_ok(nd.left, nodes.len() as int, boxes.len() as int),
        child_ok(nd.right, nodes.len() as int, boxes.len() as int),
        nd.bbox == union_box(child_box(nodes, boxes, nd.left), child_box(nodes, boxes, nd.right)),
    ensures
        nodes_wf(nodes.push(nd), boxes),
        node_leaves(nodes.push(nd), nodes.len() as int) == child_leaves(nodes, nd.left)
            + child_leaves(nodes, nd.right),
        node_depth(nodes.push(nd), nodes.len() as int) == 1 + if child_depth(nodes, nd.left)
            >= child_depth(nodes, nd.right) {
            child_depth(nodes, nd.left)
        } else {
            child_depth(nodes, nd.right)
        },
{
    let big = nodes.push(nd);
    assert forall|k: int| 0 <= k < big.len() implies #[trigger] big[k].bbox == union_box(
        child_box(big, boxes, big[k].left),
        child_box(big, boxes, big[k].right),
    ) by {
        if k < nodes.len() {
            assert(big[k] == nodes[k]);
        }
    }
    if let Child::Node(j) = nd.left {
        lemma_leaves_prefix(nodes, big, j as int);
    }
    if let Child::Node(j) = nd.right {
        lemma_leaves_prefix(nodes, big, j as int);
    }
}

/// The box of a child, read from the arena.
fn child_box_of(nodes: &Vec<BvhNode>, boxes: &Vec<Aabb>, c: Child) -> (b: Aabb)
    requires
        child_ok(c, nodes@.len() as int, boxes@.len() as int),
    ensures
        b == child_box(nodes@, boxes@, c),
{
    match c {
        Child::Object(i) => boxes[i],
        Child::Node(j) => nodes[j].bbox,
    }
}

/// Node `k`'s children split `s` (the objects sorted on `axis`) at its middle: one or two
/// objects stand as the two children themselves, in key order; more are divided into the
/// first `len / 2` and the rest, each half under a child node of its own.
pub open spec fn halves_of(nodes: Seq<BvhNode>, k: int, s: Seq<usize>) -> bool {
    let nd = nodes[k];
    if s.len() <= 2 {
        nd.left == Child::Object(s[0]) && nd.right == Child::Object(s[s.len() - 1])
    } else {
        &&& nd.left is Node
        &&& nd.right is Node
        &&& forall|x: usize|
            #[trigger] child_leaves(nodes, nd.left).contains(x) <==> s.subrange(
                0,
                (s.len() / 2) as int,
            ).contains(x)
        &&& forall|x: usize|
            #[trigger] child_leaves(nodes, nd.right).contains(x) <==> s.subrange(
                (s.len() / 2) as int,
                s.len() as int,
            ).contains(x)
    }
}

/// Node `k` splits `objects` at the median on `axis`: `s` is `objects` sorted by key on that
/// axis, and the children of node `k` hold its two halves.
pub open spec fn median_split_by(
    nodes: Seq<BvhNode>,
    boxes: Seq<Aabb>,
    objects: Seq<usize>,
    k: int,
    axis: int,
    s: Seq<usize>,
) -> bool {
    &&& 0 <= axis < 3
    &&& s.to_multiset() == objects.to_multiset()
    &&& sorted_on(s, boxes, axis)
    &&& halves_of(nodes, k, s)
}

/// What building a node over `objects` on top of the arena `before` leaves in `after`:
/// the arena stays well formed, earlier nodes are kept, the new node `k` is the last one and
/// holds exactly `objects`, its sides are split along some axis, at the median, and the
/// halving bounds its depth: `2^(depth - 1) < objects.len()` (depth 1 over one object).
pub open spec fn built_over(
    before: Seq<BvhNode>,
    after: Seq<BvhNode>,
    boxes: Seq<Aabb>,
    objects: Seq<usize>,
    k: int,
) -> bool {
    &&& nodes_wf(after, boxes)
    &&& before.len() <= k
    &&& k == after.len() - 1
    &&& forall|j: int| 0 <= j < before.len() ==> after[j] == before[j]
    &&& forall|x: usize| #[trigger] node_leaves(after, k).contains(x) <==> objects.contains(x)
    &&& exists|axis: int|
        0 <= axis < 3 && #[trigger] split_on(after, boxes, after[k].left, after[k].right, axis)
    &&& exists|axis: int, s: Seq<usize>| #[trigger] median_split_by(after, boxes, objects, k, axis, s)
    &&& objects.len() == 1 ==> node_depth(after, k) == 1
    &&& objects.len() >= 2 ==> two_to((node_depth(after, k) - 1) as nat) < objects.len()
}

/// Every draw is an axis.
pub open spec fn axes_ok(axes: Seq<usize>) -> bool {
    forall|i: int| 0 <= i < axes.len() ==> #[trigger] axes[i] < 3
}

/// The split axis of the next node: drawn at random when `axes` is empty, else `axes[*next]`,
/// after which `next` moves on, cycling through `axes`.
fn next_axis(axes: &Vec<usize>, next: &mut usize) -> (r: usize)
    requires
        axes_ok(axes@),
        axes@.len() == 0 || *old(next) < axes@.len(),
    ensures
        r < 3,
        axes@.len() > 0 ==> r == axes@[*old(next) as int],
        axes@.len() == 0 || *final(next) < axes@.len(),
{
    if axes.len() == 0 {
        random_below(3)
    } else {
        let r = axes[*next];
        *next = (*next + 1) % axes.len();
        r
    }
}

/// Builds a node over `objects` on top of `nodes`, taking split axes from `axes` and `next`.
#[verifier::rlimit(60)]
fn build(
    objects: Vec<usize>,
    boxes: &Vec<Aabb>,
    nodes: &mut Vec<BvhNode>,
    axes: &Vec<usize>,
    next: &mut usize,
) -> (k: usize)
    requires
        objects@.len() >= 1,
        objects_in(objects@, boxes@.len() as int),
        nodes_wf(old(nodes)@, boxes@),
        axes_ok(axes@),
        axes@.len() == 0 || *old(next) < axes@.len(),
    ensures
        built_over(old(nodes)@, final(nodes)@, boxes@, objects@, k as int),
        axes@.len() == 0 || *final(next) < axes@.len(),
    decreases objects@.len(),
{
    broadcast use vstd::seq_lib::lemma_seq_union_to_multiset_commutative;

    let axis = next_axis(axes, next);
    let n = objects.len();
    let ghost start = nodes@;
    let ghost mut order: Seq<usize> = objects@;
    let (left, right) = if n <= 2 {
        let o0 = objects[0];
        let o1 = objects[n - 1];
        let pair = if n == 1 {
            (Child::Object(o0), Child::Object(o0))
        } else {
            match box_compare(&boxes[o0], &boxes[o1], axis) {
                core::cmp::Ordering::Less => (Child::Object(o0), Child::Object(o1)),
                _ => {
                    proof {
                        order = seq![o1, o0];
                        assert(objects@ == seq![o0] + seq![o1]);
                        assert(order == seq![o1] + seq![o0]);
                    }
                    (Child::Object(o1), Child::Object(o0))
                },
            }
        };
        proof {
            lemma_small_objects(objects@);
            lemma_single_contains(o0);
            lemma_single_contains(o1);
            assert(forall|x: usize|
                (child_leaves(nodes@, pair.0).contains(x) || child_leaves(nodes@, pair.1).contains(x))
                    <==> objects@.contains(x));
            assert(split_on(nodes@, boxes@, pair.0, pair.1, axis as int));
        }
        pair
    } else {
        let mut lower = sort_on_axis(&objects, boxes, axis);
        let ghost sorted = lower@;
        let mid = n / 2;
        let upper = lower.split_off(mid);
        assert(sorted == lower@ + upper@);
        let ghost lower_len = lower@.len();
        let ghost upper_len = upper@.len();
        let l = build(lower, boxes, nodes, axes, next);
        let ghost after_left = nodes@;
        let r = build(upper, boxes, nodes, axes, next);
        proof {
            order = sorted;
            assert(lower_len == n / 2);
            assert(upper_len == n - n / 2);
            lemma_halves_depth(
                n as int,
                node_depth(after_left, l as int),
                node_depth(nodes@, r as int),
            );
            lemma_leaves_prefix(after_left, nodes@, l as int);
            assert(node_depth(nodes@, l as int) == node_depth(after_left, l as int));
            lemma_leaves_prefix(after_left, nodes@, l as int);
            lemma_concat_contains(lower@, upper@);
            assert forall|x: usize| sorted.contains(x) <==> objects@.contains(x) by {
                assert(sorted.to_multiset().count(x) == objects@.to_multiset().count(x));
            }
            assert forall|x: usize|
                (child_leaves(nodes@, Child::Node(l)).contains(x) || child_leaves(
                    nodes@,
                    Child::Node(r),
                ).contains(x)) <==> objects@.contains(x) by {
                assert(node_leaves(after_left, l as int).contains(x) <==> lower@.contains(x));
                assert(node_leaves(nodes@, r as int).contains(x) <==> upper@.contains(x));
                assert((lower@ + upper@).contains(x) <==> lower@.contains(x) || upper@.contains(x));
            }
            assert forall|x: usize, y: usize|
                #[trigger] child_leaves(nodes@, Child::Node(l)).contains(x)
                    && #[trigger] child_leaves(nodes@, Child::Node(r)).contains(
                    y,
                ) implies split_key(boxes@, axis as int, x) <= split_key(
                boxes@,
                axis as int,
                y,
            ) by {
                assert(node_leaves(after_left, l as int).contains(x));
                assert(lower@.contains(x));
                assert(upper@.contains(y));
                let a = choose|a: int| 0 <= a < lower@.len() && lower@[a] == x;
                let b = choose|b: int| 0 <= b < upper@.len() && upper@[b] == y;
                assert(sorted[a] == x);
                assert(sorted[mid + b] == y);
            }
            assert(sorted.subrange(0, (n / 2) as int) == lower@);
            assert(sorted.subrange((n / 2) as int, n as int) == upper@);
            assert(forall|x: usize|
                #[trigger] child_leaves(nodes@, Child::Node(l)).contains(x) <==> lower@.contains(x));
        }
        (Child::Node(l), Child::Node(r))
    };
    assert(forall|x: usize|
        (child_leaves(nodes@, left).contains(x) || child_leaves(nodes@, right).contains(x))
            <==> objects@.contains(x));
    let lb = child_box_of(nodes, boxes, left);
    let rb = child_box_of(nodes, boxes, right);
    let bbox = surrounding_box(&lb, &rb);
    let nd = BvhNode { left, right, bbox };
    let ghost before = nodes@;
    proof {
        lemma_push_node(nodes@, boxes@, nd);
        lemma_concat_contains(child_leaves(nodes@, left), child_leaves(nodes@, right));
    }
    nodes.push(nd);
    let k = nodes.len() - 1;
    proof {
        if let Child::Node(j) = left {
            lemma_leaves_prefix(before, nodes@, j as int);
        }
        if let Child::Node(j) = right {
            lemma_leaves_prefix(before, nodes@, j as int);
        }
        assert(split_on(nodes@, boxes@, left, right, axis as int));
        assert(nodes@[k as int] == nd);
        assert(median_split_by(nodes@, boxes@, objects@, k as int, axis as int, order));
    }
    k
}

/// Over `n >= 3` objects split into halves of `n / 2` and `n - n / 2`, whose depths `d1` and
/// `d2` obey the depth bound, the node above them obeys it too.
proof fn lemma_halves_depth(n: int, d1: nat, d2: nat)
    requires
        n >= 3,
        n / 2 == 1 ==> d1 == 1,
        n / 2 >= 2 ==> two_to((d1 - 1) as nat) < n / 2,
        n - n / 2 >= 2 ==> two_to((d2 - 1) as nat) < n - n / 2,
        d1 >= 1,
        d2 >= 1,
    ensures
        two_to(if d1 >= d2 { d1 } else { d2 }) < n,
{
    let d = if d1 >= d2 { d1 } else { d2 };
    assert(two_to(d) == 2 * two_to((d - 1) as nat));
    assert(two_to(1) == 2) by {
        assert(two_to(0) == 1);
    }
}

impl BvhNode {
    /// Builds a hierarchy over `objects` (indices into `boxes`) on top of the arena `nodes`
    /// and returns the index of its top node, the last one appended.
    ///
    /// For each node a split axis is drawn at random. One object goes on both sides; two
    /// are ordered by their key on the axis; more are sorted by it and split at the middle,
    /// each half becoming a node of its own. Each node's box is the union of its children's.
    pub fn new(objects: Vec<usize>, boxes: &Vec<Aabb>, nodes: &mut Vec<BvhNode>) -> (k: usize)
        requires
            objects@.len() >= 1,
            objects_in(objects@, boxes@.len() as int),
            nodes_wf(old(nodes)@, boxes@),
        ensures
            built_over(old(nodes)@, final(nodes)@, boxes@, objects@, k as int),
    {
        let no_axes: Vec<usize> = Vec::new();
        let mut next: usize = 0;
        build(objects, boxes, nodes, &no_axes, &mut next)
    }

    /// As `new`, but the split axes are taken in turn from `axes` (each below 3), starting
    /// at `*next` and cycling, instead of being drawn: a caller that fixes the draws gets
    /// the same hierarchy every time. `*next` is left at the draw that comes next.
    pub fn new_with_axes(
        objects: Vec<usize>,
        boxes: &Vec<Aabb>,
        nodes: &mut Vec<BvhNode>,
        axes: &Vec<usize>,
        next: &mut usize,
    ) -> (k: usize)
        requires
            objects@.len() >= 1,
            objects_in(objects@, boxes@.len() as int),
            nodes_wf(old(nodes)@, boxes@),
            axes@.len() >= 1,
            axes_ok(axes@),
            *old(next) < axes@.len(),
        ensures
            built_over(old(nodes)@, final(nodes)@, boxes@, objects@, k as int),
            *final(next) < axes@.len(),
    {
        build(objects, boxes, nodes, axes, next)
    }
}

/// The box of every node contains the box of every object under it.
pub proof fn lemma_node_box_contains(nodes: Seq<BvhNode>, boxes: Seq<Aabb>, k: int, x: usize)
    requires
        nodes_wf(nodes, boxes),
        0 <= k < nodes.len(),
        node_leaves(nodes, k).contains(x),
    ensures
        nodes[k].bbox.contains(boxes[x as int]),
    decreases k,
{
    let nd = nodes[k];
    let lb = child_box(nodes, boxes, nd.left);
    let rb = child_box(nodes, boxes, nd.right);
    lemma_union_contains_both(lb, rb);
    lemma_concat_contains(child_leaves(nodes, nd.left), child_leaves(nodes, nd.right));
    assert(node_leaves(nodes, k) == child_leaves(nodes, nd.left) + child_leaves(nodes, nd.right));
    if child_leaves(nodes, nd.left).contains(x) {
        match nd.left {
            Child::Object(i) => {
                lemma_single_contains(i);
            },
            Child::Node(j) => {
                lemma_node_box_contains(nodes, boxes, j as int, x);
                lemma_contains_trans(nd.bbox, lb, boxes[x as int]);
            },
        }
    } else {
        match nd.right {
            Child::Object(i) => {
                lemma_single_contains(i);
            },
            Child::Node(j) => {
                lemma_node_box_contains(nodes, boxes, j as int, x);
                lemma_contains_trans(nd.bbox, rb, boxes[x as int]);
            },
        }
    }
}

/// The hit on one object: its first root in the window, if any.
pub open spec fn object_hit(cr: Seq<Option<Crossing>>, i: usize, lo: int, hi: int) -> Option<Hit> {
    match root_in(cr[i as int], lo, hi) {
        Some(t) => Some(Hit { object: i, t }),
        None => None,
    }
}

/// The hit that the traversal of node `k` returns over `(lo, hi)`, given each object's
/// crossing `cr` and each node's slabs `slabs`: nothing if the ray misses the node's box;
/// otherwise the left child is searched over the window, the right child over the window
/// closed at the left hit, and the right hit wins if there is one.
pub open spec fn node_hit(
    nodes: Seq<BvhNode>,
    k: int,
    cr: Seq<Option<Crossing>>,
    slabs: Seq<[Slab; 3]>,
    lo: int,
    hi: int,
) -> Option<Hit>
    decreases k,
{
    if k < 0 || k >= nodes.len() || !slabs_hit(slabs[k], lo, hi) {
        None
    } else {
        let hl = match nodes[k].left {
            Child::Object(i) => object_hit(cr, i, lo, hi),
            Child::Node(j) => if j < k {
                node_hit(nodes, j as int, cr, slabs, lo, hi)
            } else {
                None
            },
        };
        let hi_right = match hl {
            Some(h) => h.t.rank as int,
            None => hi,
        };
        let hr = match nodes[k].right {
            Child::Object(i) => object_hit(cr, i, lo, hi_right),
            Child::Node(j) => if j < k {
                node_hit(nodes, j as int, cr, slabs, lo, hi_right)
            } else {
                None
            },
        };
        if hr is Some {
            hr
        } else {
            hl
        }
    }
}

/// The slabs of each node never reject a window in which an object under the node is hit.
/// This holds when `slabs[k]` is where the ray crosses the planes of node `k`'s box, since
/// that box contains the box of each object under it.
pub open spec fn slabs_conservative(
    nodes: Seq<BvhNode>,
    cr: Seq<Option<Crossing>>,
    slabs: Seq<[Slab; 3]>,
) -> bool {
    forall|k: int, x: usize, lo: int, hi: int|
        0 <= k < nodes.len() && #[trigger] node_leaves(nodes, k).contains(x) && #[trigger] root_in(
            cr[x as int],
            lo,
            hi,
        ) is Some ==> slabs_hit(slabs[k], lo, hi)
}

/// The traversal of node `k` finds the nearest hit among the objects under it.
pub proof fn lemma_node_hit_nearest(
    nodes: Seq<BvhNode>,
    k: int,
    cr: Seq<Option<Crossing>>,
    slabs: Seq<[Slab; 3]>,
    lo: int,
    hi: int,
)
    requires
        nodes_shape(nodes, cr.len() as int),
        0 <= k < nodes.len(),
        crossings_cover(node_leaves(nodes, k), cr),
        slabs_conservative(nodes, cr, slabs),
    ensures
        hit_t(node_hit(nodes, k, cr, slabs, lo, hi)) == nearest_t(node_leaves(nodes, k), cr, lo, hi),
    decreases k,
{
    let nd = nodes[k];
    let ls = child_leaves(nodes, nd.left);
    let rs = child_leaves(nodes, nd.right);
    assert(node_leaves(nodes, k) == ls + rs);
    lemma_nearest_t_is_least(ls + rs, cr, lo, hi);
    if !slabs_hit(slabs[k], lo, hi) {
        if let Some(t) = nearest_t(ls + rs, cr, lo, hi) {
            let w = choose|w: int|
                0 <= w < (ls + rs).len() && #[trigger] root_in(cr[(ls + rs)[w] as int], lo, hi)
                    == Some(t);
            assert((ls + rs).contains((ls + rs)[w]));
        }
    } else {
        assert forall|q: int| 0 <= q < ls.len() implies (#[trigger] ls[q]) < cr.len()
            && crossing_wf(cr[ls[q] as int]) by {
            assert(ls[q] == (ls + rs)[q]);
        }
        assert forall|q: int| 0 <= q < rs.len() implies (#[trigger] rs[q]) < cr.len()
            && crossing_wf(cr[rs[q] as int]) by {
            assert(rs[q] == (ls + rs)[q + ls.len()]);
        }
        let lt = nearest_t(ls, cr, lo, hi);
        lemma_nearest_t_is_least(ls, cr, lo, hi);
        match nd.left {
            Child::Object(i) => {
                assert(ls.drop_last() == Seq::<usize>::empty());
            },
            Child::Node(j) => {
                lemma_node_hit_nearest(nodes, j as int, cr, slabs, lo, hi);
            },
        }
        let hl = match nd.left {
            Child::Object(i) => object_hit(cr, i, lo, hi),
            Child::Node(j) => node_hit(nodes, j as int, cr, slabs, lo, hi),
        };
        assert(hit_t(hl) == lt);
        let hi_right = match hl {
            Some(h) => h.t.rank as int,
            None => hi,
        };
        if let Some(t) = lt {
            let w = choose|w: int|
                0 <= w < ls.len() && #[trigger] root_in(cr[ls[w] as int], lo, hi) == Some(t);
            assert(t.rank < hi);
        }
        lemma_nearest_t_shrink(rs, cr, lo, hi, hi_right);
        match nd.right {
            Child::Object(i) => {
                assert(rs.drop_last() == Seq::<usize>::empty());
            },
            Child::Node(j) => {
                lemma_node_hit_nearest(nodes, j as int, cr, slabs, lo, hi_right);
            },
        }
        lemma_nearest_t_concat(ls, rs, cr, lo, hi);
    }
}

/// The hierarchy changes only how fast the nearest hit is found, not which parameter it
/// has: over the same objects, the traversal from the top node and a flat scan of a list
/// give the same nearest `t` for every window.
pub proof fn lemma_bvh_matches_list(
    nodes: Seq<BvhNode>,
    root: int,
    list: Seq<usize>,
    cr: Seq<Option<Crossing>>,
    slabs: Seq<[Slab; 3]>,
    lo: int,
    hi: int,
)
    requires
        nodes_shape(nodes, cr.len() as int),
        0 <= root < nodes.len(),
        forall|x: usize| node_leaves(nodes, root).contains(x) <==> list.contains(x),
        crossings_cover(list, cr),
        slabs_conservative(nodes, cr, slabs),
    ensures
        hit_t(node_hit(nodes, root, cr, slabs, lo, hi)) == nearest_t(list, cr, lo, hi),
{
    let leaves = node_leaves(nodes, root);
    assert forall|q: int| 0 <= q < leaves.len() implies (#[trigger] leaves[q]) < cr.len()
        && crossing_wf(cr[leaves[q] as int]) by {
        assert(leaves.contains(leaves[q]));
        assert(list.contains(leaves[q]));
        let w = choose|w: int| 0 <= w < list.len() && list[w] == leaves[q];
        assert(list[w] < cr.len() && crossing_wf(cr[list[w] as int]));
    }
    lemma_node_hit_nearest(nodes, root, cr, slabs, lo, hi);
    lemma_nearest_t_same_members(leaves, list, cr, lo, hi);
}

/// The hit on object `i` in `(t_min, t_max)`.
fn hit_object(crossings: &Vec<Option<Crossing>>, i: usize, t_min: Scalar, t_max: Scalar) -> (r:
    Option<Hit>)
    requires
        i < crossings@.len(),
    ensures
        r == object_hit(crossings@, i, t_min.rank as int, t_max.rank as int),
{
    match first_root(&crossings[i], t_min, t_max) {
        Some(t) => Some(Hit { object: i, t }),
        None => None,
    }
}

impl Bvh {
    /// Builds the hierarchy over `objects`, indices into `boxes`, drawing split axes at random.
    pub fn new(objects: Vec<usize>, boxes: &Vec<Aabb>) -> (r: Bvh)
        requires
            objects@.len() >= 1,
            objects_in(objects@, boxes@.len() as int),
        ensures
            built_over(Seq::empty(), r.nodes@, boxes@, objects@, r.root as int),
    {
        let mut nodes: Vec<BvhNode> = Vec::new();
        let root = BvhNode::new(objects, boxes, &mut nodes);
        Bvh { nodes, root }
    }

    /// Builds the hierarchy over `objects` with split axes taken in turn from `axes` (each
    /// below 3, cycling), so that the same draws always give the same hierarchy.
    pub fn new_with_axes(objects: Vec<usize>, boxes: &Vec<Aabb>, axes: &Vec<usize>) -> (r: Bvh)
        requires
            objects@.len() >= 1,
            objects_in(objects@, boxes@.len() as int),
            axes@.len() >= 1,
            axes_ok(axes@),
        ensures
            built_over(Seq::empty(), r.nodes@, boxes@, objects@, r.root as int),
    {
        let mut nodes: Vec<BvhNode> = Vec::new();
        let mut next: usize = 0;
        let root = BvhNode::new_with_axes(objects, boxes, &mut nodes, axes, &mut next);
        Bvh { nodes, root }
    }

    /// The box of the whole hierarchy.
    pub fn bounding_box(&self) -> (r: Aabb)
        requires
            self.root < self.nodes@.len(),
        ensures
            r == self.nodes@[self.root as int].bbox,
    {
        self.nodes[self.root].bbox
    }

    fn hit_node(
        &self,
        k: usize,
        crossings: &Vec<Option<Crossing>>,
        slabs: &Vec<[Slab; 3]>,
        t_min: Scalar,
        t_max: Scalar,
    ) -> (r: Option<Hit>)
        requires
            k < self.nodes@.len(),
            nodes_shape(self.nodes@, crossings@.len() as int),
            slabs@.len() == self.nodes@.len(),
        ensures
            r == node_hit(self.nodes@, k as int, crossings@, slabs@, t_min.rank as int, t_max.rank as int),
        decreases k,
    {
        if !hit_slabs(&slabs[k], t_min, t_max) {
            return None;
        }
        let nd = self.nodes[k];
        let hit_left = match nd.left {
            Child::Object(i) => hit_object(crossings, i, t_min, t_max),
            Child::Node(j) => self.hit_node(j, crossings, slabs, t_min, t_max),
        };
        let t_max_for_right = match hit_left {
            Some(h) => h.t,
            None => t_max,
        };
        let hit_right = match nd.right {
            Child::Object(i) => hit_object(crossings, i, t_min, t_max_for_right),
            Child::Node(j) => self.hit_node(j, crossings, slabs, t_min, t_max_for_right),
        };
        if hit_right.is_some() {
            hit_right
        } else {
            hit_left
        }
    }

    /// The nearest hit in `(t_min, t_max)`, given each object's crossing with the ray and,
    /// for each node, where the ray crosses the planes of its box. A node whose box the ray
    /// misses in the window is skipped with everything under it; the right child is searched
    /// only up to the left child's hit.
    pub fn hit(
        &self,
        crossings: &Vec<Option<Crossing>>,
        slabs: &Vec<[Slab; 3]>,
        t_min: Scalar,
        t_max: Scalar,
    ) -> (r: Option<Hit>)
        requires
            self.root < self.nodes@.len(),
            nodes_shape(self.nodes@, crossings@.len() as int),
            slabs@.len() == self.nodes@.len(),
        ensures
            r == node_hit(
                self.nodes@,
                self.root as int,
                crossings@,
                slabs@,
                t_min.rank as int,
                t_max.rank as int,
            ),
            crossings_cover(node_leaves(self.nodes@, self.root as int), crossings@)
                && slabs_conservative(self.nodes@, crossings@, slabs@) ==> hit_t(r) == nearest_t(
                node_leaves(self.nodes@, self.root as int),
                crossings@,
                t_min.rank as int,
                t_max.rank as int,
            ),
    {
        let r = self.hit_node(self.root, crossings, slabs, t_min, t_max);
        proof {
            if crossings_cover(node_leaves(self.nodes@, self.root as int), crossings@)
                && slabs_conservative(self.nodes@, crossings@, slabs@) {
                lemma_node_hit_nearest(
                    self.nodes@,
                    self.root as int,
                    crossings@,
                    slabs@,
                    t_min.rank as int,
                    t_max.rank as int,
                );
            }
        }
        r
    }
}

} // verus!
