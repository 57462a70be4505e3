use vstd::prelude::*;

use crate::scalar::{max_scalar, min_scalar, Scalar};

verus! {

/// A point in space, each coordinate a `Scalar`.
#[derive(Clone, Copy, Debug, PartialEq, Eq, Structural)]
pub struct Point3 {
    pub x: Scalar,
    pub y: Scalar,
    pub z: Scalar,
}

impl Point3 {
    pub fn new(x: Scalar, y: Scalar, z: Scalar) -> (r: Point3)
        ensures
            r == (Point3 { x, y, z }),
    {
        Point3 { x, y, z }
    }

    /// The coordinate on axis `a` (0 is x, 1 is y, 2 is z).
    pub open spec fn axis(self, a: int) -> Scalar {
        if a == 0 {
            self.x
        } else if a == 1 {
            self.y
        } else {
            self.z
        }
    }

    /// The coordinate on axis `a`.
    pub fn get(&self, a: usize) -> (r: Scalar)
        requires
            a < 3,
        ensures
            r == self.axis(a as int),
    {
        if a == 0 {
            self.x
        } else if a == 1 {
            self.y
        } else {
            self.z
        }
    }
}

/// An axis-aligned box, given by its lower and upper corners.
#[derive(Clone, Copy, Debug, PartialEq, Eq, Structural)]
pub struct Aabb {
    pub min: Point3,
    pub max: Point3,
}

impl Aabb {
    /// The lower corner lies below the upper corner on every axis.
    pub open spec fn wf(self) -> bool {
        forall|a: int| 0 <= a < 3 ==> self.min.axis(a).rank <= self.max.axis(a).rank
    }

    /// Every point of `inner` lies in `self`: its extent on each axis is within ours.
    pub open spec fn contains(self, inner: Aabb) -> bool {
        forall|a: int|
            0 <= a < 3 ==> {
                &&& self.min.axis(a).rank <= inner.min.axis(a).rank
                &&& inner.max.axis(a).rank <= self.max.axis(a).rank
            }
    }

    /// The box of the single point at the origin.
    pub fn new() -> (r: Aabb)
        ensures
            r.wf(),
            forall|a: int| 0 <= a < 3 ==> r.min.axis(a).rank == 0 && r.max.axis(a).rank == 0,
    {
        let z = Scalar::zero();
        Aabb { min: Point3::new(z, z, z), max: Point3::new(z, z, z) }
    }

    /// The box with the given corners.
    pub fn from_points(a: Point3, b: Point3) -> (r: Aabb)
        ensures
            r == (Aabb { min: a, max: b }),
    {
        Aabb { min: a, max: b }
    }
}

/// The smallest box that holds both boxes.
pub open spec fn union_box(b0: Aabb, b1: Aabb) -> Aabb {
    Aabb {
        min: Point3 {
            x: min_scalar(b0.min.x, b1.min.x),
            y: min_scalar(b0.min.y, b1.min.y),
            z: min_scalar(b0.min.z, b1.min.z),
        },
        max: Point3 {
            x: max_scalar(b0.max.x, b1.max.x),
            y: max_scalar(b0.max.y, b1.max.y),
            z: max_scalar(b0.max.z, b1.max.z),
        },
    }
}

/// The box made of the smaller lower and the larger upper coordinate on each axis.
pub fn surrounding_box(box0: &Aabb, box1: &Aabb) -> (r: Aabb)
    ensures
        r == union_box(*box0, *box1),
{
    let small = Point3::new(
        box0.min.x.min(box1.min.x),
        box0.min.y.min(box1.min.y),
        box0.min.z.min(box1.min.z),
    );
    let big = Point3::new(
        box0.max.x.max(box1.max.x),
        box0.max.y.max(box1.max.y),
        box0.max.z.max(box1.max.z),
    );
    Aabb::from_points(small, big)
}

/// The union of two boxes contains each of them on every axis.
pub proof fn lemma_union_contains_both(b0: Aabb, b1: Aabb)
    ensures
        union_box(b0, b1).contains(b0),
        union_box(b0, b1).contains(b1),
{
}

/// The union of two well-formed boxes is well formed.
pub proof fn lemma_union_wf(b0: Aabb, b1: Aabb)
    requires
        b0.wf(),
        b1.wf(),
    ensures
        union_box(b0, b1).wf(),
{
}

/// A box that contains two boxes contains their union: the union is the smallest such box.
pub proof fn lemma_union_least(outer: Aabb, b0: Aabb, b1: Aabb)
    requires
        outer.contains(b0),
        outer.contains(b1),
    ensures
        outer.contains(union_box(b0, b1)),
{
}

/// Containment is transitive.
pub proof fn lemma_contains_trans(b0: Aabb, b1: Aabb, b2: Aabb)
    requires
        b0.contains(b1),
        b1.contains(b2),
    ensures
        b0.contains(b2),
{
}

/// The union does not depend on the order of the two boxes.
pub proof fn lemma_union_commutative(b0: Aabb, b1: Aabb)
    ensures
        union_box(b0, b1) == union_box(b1, b0),
{
}

/// Folding boxes into a union does not depend on the grouping.
pub proof fn lemma_union_associative(b0: Aabb, b1: Aabb, b2: Aabb)
    ensures
        union_box(union_box(b0, b1), b2) == union_box(b0, union_box(b1, b2)),
{
}

/// Where a ray crosses the two planes that bound a box on one axis, as values of its
/// parameter: `t0` for the lower plane, `t1` for the upper one, in either order.
/// `None` stands for a crossing that is undefined (a NaN: the ray runs within the plane).
#[derive(Clone, Copy, Debug, PartialEq, Eq, Structural)]
pub struct Slab {
    pub t0: Option<Scalar>,
    pub t1: Option<Scalar>,
}

/// The parameter range that a slab allows, lower end first; `None` when a crossing is
/// undefined, in which case the slab does not narrow the search window.
pub open spec fn slab_range(s: Slab) -> Option<(int, int)> {
    match (s.t0, s.t1) {
        (Some(a), Some(b)) => Some(
            if a.rank <= b.rank {
                (a.rank as int, b.rank as int)
            } else {
                (b.rank as int, a.rank as int)
            },
        ),
        _ => None,
    }
}

/// The lower end of the window after one slab has narrowed it.
pub open spec fn narrow_lo(lo: int, s: Slab) -> int {
    match slab_range(s) {
        Some(r) => if r.0 > lo { r.0 } else { lo },
        None => lo,
    }
}

/// The upper end of the window after one slab has narrowed it.
pub open spec fn narrow_hi(hi: int, s: Slab) -> int {
    match slab_range(s) {
        Some(r) => if r.1 < hi { r.1 } else { hi },
        None => hi,
    }
}

/// The lower end of the window once all three slabs have narrowed it.
pub open spec fn window_lo(slabs: [Slab; 3], t_min: int) -> int {
    narrow_lo(narrow_lo(narrow_lo(t_min, slabs@[0]), slabs@[1]), slabs@[2])
}

/// The upper end of the window once all three slabs have narrowed it.
pub open spec fn window_hi(slabs: [Slab; 3], t_max: int) -> int {
    narrow_hi(narrow_hi(narrow_hi(t_max, slabs@[0]), slabs@[1]), slabs@[2])
}

/// True when the ray meets the box for some parameter in `(t_min, t_max)`: the slabs of the
/// three axes, intersected with that window, leave a non-empty interval.
pub open spec fn slabs_hit(slabs: [Slab; 3], t_min: int, t_max: int) -> bool {
    window_lo(slabs, t_min) < window_hi(slabs, t_max)
}

/// One step of the slab test: the window `(lo, hi)` intersected with the range of `s`.
fn narrow(s: Slab, lo: Scalar, hi: Scalar) -> (r: (Scalar, Scalar))
    ensures
        r.0.rank == narrow_lo(lo.rank as int, s),
        r.1.rank == narrow_hi(hi.rank as int, s),
{
    if let (Some(c0), Some(c1)) = (s.t0, s.t1) {
        let t0 = c0.min(c1);
        let t1 = c0.max(c1);
        (t0.max(lo), t1.min(hi))
    } else {
        (lo, hi)
    }
}

/// The slab test: narrows `(t_min, t_max)` by the range of each axis in turn and stops as
/// soon as the window is empty. An axis with an undefined crossing does not narrow it.
pub fn hit_slabs(slabs: &[Slab; 3], t_min: Scalar, t_max: Scalar) -> (r: bool)
    ensures
        r == slabs_hit(*slabs, t_min.rank as int, t_max.rank as int),
{
    let (lo, hi) = narrow(slabs[0], t_min, t_max);
    if hi.rank <= lo.rank {
        return false;
    }
    let (lo, hi) = narrow(slabs[1], lo, hi);
    if hi.rank <= lo.rank {
        return false;
    }
    let (lo, hi) = narrow(slabs[2], lo, hi);
    hi.rank > lo.rank
}

/// When zero lies strictly inside the range of every slab that is defined, as it does for
/// a ray that starts strictly inside the box, the slab test over the whole line succeeds.
pub proof fn lemma_inside_slabs_hit(slabs: [Slab; 3], t_min: int, t_max: int)
    requires
        t_min < 0 < t_max,
        forall|a: int|
            0 <= a < 3 ==> (slab_range(#[trigger] slabs@[a]) matches Some(r) ==> r.0 < 0 < r.1),
    ensures
        slabs_hit(slabs, t_min, t_max),
{
    assert(slab_range(slabs@[0]) matches Some(r) ==> r.0 < 0 < r.1);
    assert(slab_range(slabs@[1]) matches Some(r) ==> r.0 < 0 < r.1);
    assert(slab_range(slabs@[2]) matches Some(r) ==> r.0 < 0 < r.1);
}

} // verus!
