use vstd::prelude::*;

use crate::scalar::Scalar;

verus! {

/// Where a ray meets a sphere: the two roots of `|P(t) - center|^2 = radius^2`, smaller
/// first. A ray whose discriminant is not positive has no crossing.
#[derive(Clone, Copy, Debug, PartialEq, Eq, Structural)]
pub struct Crossing {
    pub near: Scalar,
    pub far: Scalar,
}

impl Crossing {
    /// The roots come in ascending order.
    pub open spec fn wf(self) -> bool {
        self.near.rank <= self.far.rank
    }
}

/// The nearest intersection found: which object, at which ray parameter.
#[derive(Clone, Copy, Debug, PartialEq, Eq, Structural)]
pub struct Hit {
    pub object: usize,
    pub t: Scalar,
}

/// True when `t` lies strictly inside the window `(lo, hi)`.
pub open spec fn in_window(t: Scalar, lo: int, hi: int) -> bool {
    lo < t.rank < hi
}

/// The first root, in ascending order, that lies strictly inside `(lo, hi)`.
pub open spec fn root_in(c: Option<Crossing>, lo: int, hi: int) -> Option<Scalar> {
    match c {
        Some(c) => if in_window(c.near, lo, hi) {
            Some(c.near)
        } else if in_window(c.far, lo, hi) {
            Some(c.far)
        } else {
            None
        },
        None => None,
    }
}

/// A crossing is valid when it is absent or its roots are in ascending order.
pub open spec fn crossing_wf(c: Option<Crossing>) -> bool {
    c matches Some(x) ==> x.wf()
}

/// The sphere's hit in `(t_min, t_max)`: the near root if it lies strictly inside,
/// else the far root if it does, else none.
pub fn first_root(c: &Option<Crossing>, t_min: Scalar, t_max: Scalar) -> (r: Option<Scalar>)
    ensures
        r == root_in(*c, t_min.rank as int, t_max.rank as int),
{
    match c {
        Some(x) => {
            if t_min.rank < x.near.rank && x.near.rank < t_max.rank {
                Some(x.near)
            } else if t_min.rank < x.far.rank && x.far.rank < t_max.rank {
                Some(x.far)
            } else {
                None
            }
        },
        None => None,
    }
}

/// A ray meets a sphere only when the discriminant of its quadratic is positive; at zero
/// (a grazing ray) or below there is no crossing.
pub fn meets_sphere(discriminant: Scalar) -> (r: bool)
    ensures
        r == (discriminant.rank > 0),
{
    discriminant.rank > Scalar::zero().rank
}

/// Lowering the upper end of the window keeps a hit that still lies below it and loses
/// one that does not: a closer bound never brings forward a farther root.
pub proof fn lemma_root_in_shrink(c: Option<Crossing>, lo: int, hi: int, hi2: int)
    requires
        crossing_wf(c),
        hi2 <= hi,
    ensures
        root_in(c, lo, hi2) == (match root_in(c, lo, hi) {
            Some(t) => if t.rank < hi2 { Some(t) } else { None },
            None => None,
        }),
{
}

} // verus!
