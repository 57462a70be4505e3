use vstd::prelude::*;

use crate::aabb::{lemma_union_contains_both, surrounding_box, union_box, Aabb};
use crate::hittable::{crossing_wf, first_root, lemma_root_in_shrink, root_in, Crossing, Hit};
use crate::scalar::Scalar;

verus! {

/// The nearer of two optional hit parameters (the first on a tie).
pub open spec fn nearer(a: Option<Scalar>, b: Option<Scalar>) -> Option<Scalar> {
    match (a, b) {
        (Some(x), Some(y)) => if y.rank < x.rank { b } else { a },
        (None, _) => b,
        (_, None) => a,
    }
}

/// The parameter of a hit, if there is one.
pub open spec fn hit_t(r: Option<Hit>) -> Option<Scalar> {
    match r {
        Some(h) => Some(h.t),
        None => None,
    }
}

/// The parameter of the nearest hit in `(lo, hi)` among the objects `objs`, whose crossings
/// with the ray are `cr` (indexed by object).
pub open spec fn nearest_t(objs: Seq<usize>, cr: Seq<Option<Crossing>>, lo: int, hi: int) -> Option<
    Scalar,
>
    decreases objs.len(),
{
    if objs.len() == 0 {
        None
    } else {
        nearer(nearest_t(objs.drop_last(), cr, lo, hi), root_in(cr[objs.last() as int], lo, hi))
    }
}

/// Every object index is an index of `cr` and its crossing is valid.
pub open spec fn crossings_cover(objs: Seq<usize>, cr: Seq<Option<Crossing>>) -> bool {
    forall|k: int| 0 <= k < objs.len() ==> {
        &&& (#[trigger] objs[k]) < cr.len()
        &&& crossing_wf(cr[objs[k] as int])
    }
}

/// Every object in `objs` has a box.
pub open spec fn all_boxed(objs: Seq<usize>, boxes: Seq<Option<Aabb>>) -> bool {
    forall|k: int| 0 <= k < objs.len() ==> (#[trigger] boxes[objs[k] as int]) is Some
}

/// The union of the boxes of the objects `objs` (a non-empty sequence whose objects all have
/// a box), folded in order.
pub open spec fn union_all(objs: Seq<usize>, boxes: Seq<Option<Aabb>>) -> Aabb
    decreases objs.len(),
{
    if objs.len() <= 1 {
        boxes[objs[0] as int].unwrap()
    } else {
        union_box(union_all(objs.drop_last(), boxes), boxes[objs.last() as int].unwrap())
    }
}

/// The union of the boxes of a non-empty sequence of objects contains the box of each.
pub proof fn lemma_union_all_contains(objs: Seq<usize>, boxes: Seq<Option<Aabb>>, k: int)
    requires
        0 <= k < objs.len(),
    ensures
        union_all(objs, boxes).contains(boxes[objs[k] as int].unwrap()),
    decreases objs.len(),
{
    if objs.len() > 1 {
        lemma_union_contains_both(
            union_all(objs.drop_last(), boxes),
            boxes[objs.last() as int].unwrap(),
        );
        if k < objs.len() - 1 {
            lemma_union_all_contains(objs.drop_last(), boxes, k);
        }
    }
}

/// The nearest hit parameter over `objs` is the smallest of the members' hits in the window:
/// one member hits there, and no member hits nearer; when there is none, no member hits.
pub proof fn lemma_nearest_t_is_least(objs: Seq<usize>, cr: Seq<Option<Crossing>>, lo: int, hi: int)
    ensures
        nearest_t(objs, cr, lo, hi) matches Some(t) ==> {
            &&& exists|k: int|
                0 <= k < objs.len() && #[trigger] root_in(cr[objs[k] as int], lo, hi) == Some(t)
            &&& forall|k: int|
                0 <= k < objs.len() ==> (#[trigger] root_in(cr[objs[k] as int], lo, hi) matches Some(
                    u,
                ) ==> t.rank <= u.rank)
        },
        nearest_t(objs, cr, lo, hi) is None ==> forall|k: int|
            0 <= k < objs.len() ==> #[trigger] root_in(cr[objs[k] as int], lo, hi) is None,
    decreases objs.len(),
{
    if objs.len() > 0 {
        let init = objs.drop_last();
        lemma_nearest_t_is_least(init, cr, lo, hi);
        let last = objs.len() - 1;
        assert forall|k: int| 0 <= k < last implies objs[k] == init[k] by {}
        let a = nearest_t(init, cr, lo, hi);
        let b = root_in(cr[objs[last] as int], lo, hi);
        if let Some(t) = nearest_t(objs, cr, lo, hi) {
            if a == Some(t) {
                let k = choose|k: int|
                    0 <= k < init.len() && #[trigger] root_in(cr[init[k] as int], lo, hi) == Some(t);
                assert(objs[k] == init[k]);
            } else {
                assert(root_in(cr[objs[last] as int], lo, hi) == Some(t));
            }
            assert forall|k: int| 0 <= k < objs.len() implies (#[trigger] root_in(
                cr[objs[k] as int],
                lo,
                hi,
            ) matches Some(u) ==> t.rank <= u.rank) by {
                if k < last {
                    assert(objs[k] == init[k]);
                }
            }
        } else {
            assert forall|k: int| 0 <= k < objs.len() implies #[trigger] root_in(
                cr[objs[k] as int],
                lo,
                hi,
            ) is None by {
                if k < last {
                    assert(objs[k] == init[k]);
                }
            }
        }
    }
}

/// Two sequences with the same members have the same nearest hit: neither order nor
/// repetition matters.
pub proof fn lemma_nearest_t_same_members(
    s1: Seq<usize>,
    s2: Seq<usize>,
    cr: Seq<Option<Crossing>>,
    lo: int,
    hi: int,
)
    requires
        forall|x: usize| s1.contains(x) <==> s2.contains(x),
    ensures
        nearest_t(s1, cr, lo, hi) == nearest_t(s2, cr, lo, hi),
{
    lemma_nearest_t_is_least(s1, cr, lo, hi);
    lemma_nearest_t_is_least(s2, cr, lo, hi);
    if let Some(t1) = nearest_t(s1, cr, lo, hi) {
        let k1 = choose|k: int|
            0 <= k < s1.len() && #[trigger] root_in(cr[s1[k] as int], lo, hi) == Some(t1);
        assert(s1.contains(s1[k1]));
        let w1 = choose|w: int| 0 <= w < s2.len() && s2[w] == s1[k1];
        assert(root_in(cr[s2[w1] as int], lo, hi) == Some(t1));
        let t2 = nearest_t(s2, cr, lo, hi).unwrap();
        let k2 = choose|k: int|
            0 <= k < s2.len() && #[trigger] root_in(cr[s2[k] as int], lo, hi) == Some(t2);
        assert(s2.contains(s2[k2]));
        let w2 = choose|w: int| 0 <= w < s1.len() && s1[w] == s2[k2];
        assert(root_in(cr[s1[w2] as int], lo, hi) == Some(t2));
    } else if let Some(t2) = nearest_t(s2, cr, lo, hi) {
        let k2 = choose|k: int|
            0 <= k < s2.len() && #[trigger] root_in(cr[s2[k] as int], lo, hi) == Some(t2);
        assert(s2.contains(s2[k2]));
        let w2 = choose|w: int| 0 <= w < s1.len() && s1[w] == s2[k2];
        assert(root_in(cr[s1[w2] as int], lo, hi) == Some(t2));
    }
}

/// The nearest hit over a concatenation is the nearer of the nearest hits of the parts.
pub proof fn lemma_nearest_t_concat(
    a: Seq<usize>,
    b: Seq<usize>,
    cr: Seq<Option<Crossing>>,
    lo: int,
    hi: int,
)
    ensures
        nearest_t(a + b, cr, lo, hi) == nearer(nearest_t(a, cr, lo, hi), nearest_t(b, cr, lo, hi)),
    decreases b.len(),
{
    if b.len() == 0 {
        assert(a + b == a);
    } else {
        assert((a + b).drop_last() == a + b.drop_last());
        assert((a + b).last() == b.last());
        lemma_nearest_t_concat(a, b.drop_last(), cr, lo, hi);
    }
}

/// Lowering the upper end of the window keeps the nearest hit if it lies below the new end,
/// and leaves no hit otherwise.
pub proof fn lemma_nearest_t_shrink(
    s: Seq<usize>,
    cr: Seq<Option<Crossing>>,
    lo: int,
    hi: int,
    hi2: int,
)
    requires
        hi2 <= hi,
        crossings_cover(s, cr),
    ensures
        nearest_t(s, cr, lo, hi2) == (match nearest_t(s, cr, lo, hi) {
            Some(t) => if t.rank < hi2 { Some(t) } else { None },
            None => None,
        }),
    decreases s.len(),
{
    if s.len() > 0 {
        let init = s.drop_last();
        assert forall|k: int| 0 <= k < init.len() implies (#[trigger] init[k]) < cr.len()
            && crossing_wf(cr[init[k] as int]) by {
            assert(init[k] == s[k]);
        }
        lemma_nearest_t_shrink(init, cr, lo, hi, hi2);
        assert(s.last() == s[s.len() - 1]);
        lemma_root_in_shrink(cr[s.last() as int], lo, hi, hi2);
    }
}

/// A flat collection of objects, each named by its index in the scene's arena.
#[derive(Debug)]
pub struct HittableList {
    pub objects: Vec<usize>,
}

impl HittableList {
    /// An empty list.
    pub fn new() -> (r: HittableList)
        ensures
            r.objects@ == Seq::<usize>::empty(),
    {
        HittableList { objects: Vec::new() }
    }

    /// A list that holds one object.
    pub fn with_object(object: usize) -> (r: HittableList)
        ensures
            r.objects@ == seq![object],
    {
        let mut list = HittableList::new();
        list.add(object);
        list
    }

    /// Appends an object.
    pub fn add(&mut self, object: usize)
        ensures
            final(self).objects@ == old(self).objects@.push(object),
    {
        self.objects.push(object);
    }

    /// Removes every object.
    pub fn clear(&mut self)
        ensures
            final(self).objects@ == Seq::<usize>::empty(),
    {
        self.objects.clear();
    }

    /// The nearest hit in `(t_min, t_max)` over all members, given each object's crossing
    /// with the ray. Each member is tested against the window narrowed to the closest hit
    /// so far, so the result is the nearest hit overall, not the first member that hits.
    pub fn hit(&self, crossings: &Vec<Option<Crossing>>, t_min: Scalar, t_max: Scalar) -> (r:
        Option<Hit>)
        requires
            crossings_cover(self.objects@, crossings@),
        ensures
            hit_t(r) == nearest_t(
                self.objects@,
                crossings@,
                t_min.rank as int,
                t_max.rank as int,
            ),
            r matches Some(h) ==> {
                &&& self.objects@.contains(h.object)
                &&& root_in(crossings@[h.object as int], t_min.rank as int, t_max.rank as int)
                    == Some(h.t)
            },
    {
        let ghost objs = self.objects@;
        let ghost lo = t_min.rank as int;
        let ghost hi = t_max.rank as int;
        let mut best: Option<Hit> = None;
        let mut closest = t_max;
        let mut i: usize = 0;
        while i < self.objects.len()
            invariant
                objs == self.objects@,
                lo == t_min.rank as int,
                hi == t_max.rank as int,
                crossings_cover(objs, crossings@),
                0 <= i <= objs.len(),
                closest.rank == (match best {
                    Some(h) => h.t.rank as int,
                    None => hi,
                }),
                hit_t(best) == nearest_t(objs.subrange(0, i as int), crossings@, lo, hi),
                best matches Some(h) ==> {
                    &&& objs.contains(h.object)
                    &&& root_in(crossings@[h.object as int], lo, hi) == Some(h.t)
                    &&& h.t.rank < hi
                },
            decreases objs.len() - i,
        {
            let object = self.objects[i];
            assert(objs[i as int] == object);
            proof {
                lemma_root_in_shrink(crossings@[object as int], lo, hi, closest.rank as int);
                let next = objs.subrange(0, i as int + 1);
                assert(next.drop_last() == objs.subrange(0, i as int));
                assert(next.last() == object);
            }
            if let Some(t) = first_root(&crossings[object], t_min, closest) {
                best = Some(Hit { object, t });
                closest = t;
                assert(objs.contains(object));
            }
            i = i + 1;
        }
        assert(objs.subrange(0, objs.len() as int) == objs);
        best
    }

    /// The union of the members' boxes, given each object's box if it has one. There is
    /// none for an empty list, nor when some member has no box: no box is made up for it.
    pub fn bounding_box(&self, boxes: &Vec<Option<Aabb>>) -> (r: Option<Aabb>)
        requires
            forall|k: int| 0 <= k < self.objects@.len() ==> #[trigger] self.objects@[k] < boxes@.len(),
        ensures
            r is None <==> (self.objects@.len() == 0 || !all_boxed(self.objects@, boxes@)),
            r matches Some(b) ==> b == union_all(self.objects@, boxes@),
    {
        if self.objects.len() == 0 {
            return None;
        }
        let ghost objs = self.objects@;
        let mut output_box = match boxes[self.objects[0]] {
            Some(b) => b,
            None => {
                assert(boxes@[objs[0] as int] is None);
                return None;
            },
        };
        let mut i: usize = 1;
        assert(objs.subrange(0, 1).drop_last().len() == 0);
        while i < self.objects.len()
            invariant
                objs == self.objects@,
                forall|k: int| 0 <= k < objs.len() ==> #[trigger] objs[k] < boxes@.len(),
                1 <= i <= objs.len(),
                all_boxed(objs.subrange(0, i as int), boxes@),
                output_box == union_all(objs.subrange(0, i as int), boxes@),
            decreases objs.len() - i,
        {
            let b = match boxes[self.objects[i]] {
                Some(b) => b,
                None => {
                    assert(boxes@[objs[i as int] as int] is None);
                    return None;
                },
            };
            proof {
                let next = objs.subrange(0, i as int + 1);
                assert(next.drop_last() == objs.subrange(0, i as int));
                assert forall|k: int| 0 <= k < next.len() implies (#[trigger] boxes@[next[k] as int]) is Some by {
                    if k < i {
                        assert(next[k] == objs.subrange(0, i as int)[k]);
                    }
                }
            }
            output_box = surrounding_box(&output_box, &b);
            i = i + 1;
        }
        assert(objs.subrange(0, objs.len() as int) == objs);
        Some(output_box)
    }
}

impl Default for HittableList {
    /// An empty list.
    fn default() -> (r: HittableList)
        ensures
            r.objects@ == Seq::<usize>::empty(),
    {
        HittableList::new()
    }
}

} // verus!
