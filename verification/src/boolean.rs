//! The shortcuts of a boolean operation: when one operand is empty, or when
//! the bounding boxes of the operands do not meet, the result is known
//! without a sweep.
use vstd::prelude::*;
use vstd::slice::slice_to_vec;

use crate::contour::{assembled, assembled_upto, holes_known, holes_listed, polygon_of, Contour};
use crate::operation::Operation;
use crate::reuse::nested_view;
use crate::vec_ops::{pos, to_position};

verus! {

/// `r` holds a clone of each item of `s`, in order.
pub open spec fn clones_of<P: Clone>(s: Seq<P>, r: Seq<P>) -> bool {
    &&& r.len() == s.len()
    &&& forall|i: int| 0 <= i < s.len() ==> cloned(s[i], #[trigger] r[i])
}

/// `r` holds a clone of each item of `a`, then of each item of `b`.
pub open spec fn clones_of_both<P: Clone>(a: Seq<P>, b: Seq<P>, r: Seq<P>) -> bool {
    &&& r.len() == a.len() + b.len()
    &&& forall|i: int| 0 <= i < a.len() ==> cloned(a[i], #[trigger] r[i])
    &&& forall|j: int| 0 <= j < b.len() ==> cloned(b[j], #[trigger] r[a.len() + j])
}

/// Appends a clone of each item of `s` to `out`.
fn append_clones<P: Clone>(out: &mut Vec<P>, s: &[P])
    ensures
        final(out)@.len() == old(out)@.len() + s@.len(),
        forall|j: int| 0 <= j < old(out)@.len() ==> final(out)@[j] == old(out)@[j],
        forall|j: int| 0 <= j < s@.len() ==> cloned(s@[j], #[trigger] final(out)@[old(out)@.len() + j]),
{
    let ghost start = out@;
    let mut i: usize = 0;
    while i < s.len()
        invariant
            0 <= i <= s@.len(),
            out@.len() == start.len() + i,
            forall|j: int| 0 <= j < start.len() ==> out@[j] == start[j],
            forall|j: int| 0 <= j < i ==> cloned(s@[j], #[trigger] out@[start.len() + j]),
        decreases s@.len() - i,
    {
        out.push(s[i].clone());
        i = i + 1;
    }
}

/// Clones of the items of `s`, in order.
fn clone_all<P: Clone>(s: &[P]) -> (v: Vec<P>)
    ensures
        clones_of(s@, v@),
{
    let mut v: Vec<P> = Vec::new();
    append_clones(&mut v, s);
    proof {
        assert forall|i: int| 0 <= i < s@.len() implies cloned(s@[i], #[trigger] v@[i]) by {
            assert(v@[i] == v@[0 + i]);
        }
    }
    v
}

/// The result when an operand is empty, or `None` when neither is.  An
/// intersection is then empty; a difference is the subject; a union or an
/// exclusive or is whichever operand is not empty (the subject when both
/// are empty).
pub fn trivial_operation<P: Clone>(subject: &[P], clipping: &[P], operation: Operation) -> (r: Option<Vec<P>>)
    ensures
        r is Some <==> (subject@.len() == 0 || clipping@.len() == 0),
        r matches Some(v) ==> match operation {
            Operation::Intersection => v@.len() == 0,
            Operation::Difference => clones_of(subject@, v@),
            Operation::Union | Operation::Xor => if subject@.len() == 0 {
                clones_of(clipping@, v@)
            } else {
                clones_of(subject@, v@)
            },
        },
{
    if subject.len() == 0 || clipping.len() == 0 {
        match operation {
            Operation::Intersection => Some(Vec::new()),
            Operation::Difference => Some(clone_all(subject)),
            Operation::Union | Operation::Xor => {
                if subject.len() == 0 {
                    Some(clone_all(clipping))
                } else {
                    Some(clone_all(subject))
                }
            },
        }
    } else {
        None
    }
}

/// The result when the bounding boxes of the operands do not meet
/// (`boxes_apart`), or `None` when they do.  An intersection is then empty;
/// a difference is the subject; a union or an exclusive or is the subject's
/// polygons followed by the clipping's.
pub fn compare_bboxes<P: Clone>(
    subject: &[P],
    clipping: &[P],
    boxes_apart: bool,
    operation: Operation,
) -> (r: Option<Vec<P>>)
    ensures
        r is Some <==> boxes_apart,
        r matches Some(v) ==> match operation {
            Operation::Intersection => v@.len() == 0,
            Operation::Difference => clones_of(subject@, v@),
            Operation::Union | Operation::Xor => clones_of_both(subject@, clipping@, v@),
        },
{
    if boxes_apart {
        match operation {
            Operation::Intersection => Some(Vec::new()),
            Operation::Difference => Some(clone_all(subject)),
            Operation::Union | Operation::Xor => {
                let mut v = clone_all(subject);
                append_clones(&mut v, clipping);
                Some(v)
            },
        }
    } else {
        None
    }
}

/// The polygons that `contours` make: for each exterior contour, in order,
/// a polygon whose first ring is that contour and whose other rings are its
/// holes, in the order it lists them.
pub fn polygons_from_contours<P: Copy>(contours: &[Contour<P>]) -> (r: Vec<Vec<Vec<P>>>)
    requires
        holes_listed(contours@),
    ensures
        nested_view(r@) == assembled(contours@),
{
    let ghost cs = contours@;
    let mut polygons: Vec<Vec<Vec<P>>> = Vec::new();
    let mut k: usize = 0;
    while k < contours.len()
        invariant
            cs == contours@,
            holes_listed(cs),
            0 <= k <= cs.len(),
            nested_view(polygons@) == assembled_upto(cs, pos(k)),
        decreases cs.len() - k,
    {
        if contours[k].is_exterior() {
            proof {
                assert(holes_known(cs, pos(k)));
            }
            let ghost want = polygon_of(cs, pos(k));
            let mut rings: Vec<Vec<P>> = Vec::new();
            rings.push(slice_to_vec(contours[k].points.as_slice()));
            let mut h: usize = 0;
            while h < contours[k].hole_ids.len()
                invariant
                    cs == contours@,
                    k < cs.len(),
                    holes_known(cs, pos(k)),
                    want == polygon_of(cs, pos(k)),
                    0 <= h <= cs[pos(k)].hole_ids@.len(),
                    rings@.map_values(|c: Vec<P>| c@) == want.subrange(0, h + 1),
                decreases cs[pos(k)].hole_ids@.len() - h,
            {
                let hole_id = contours[k].hole_ids[h];
                proof {
                    assert(0 <= cs[pos(k)].hole_ids@[pos(h)] < cs.len());
                }
                let hole = to_position(hole_id);
                let ghost before = rings@;
                rings.push(slice_to_vec(contours[hole].points.as_slice()));
                proof {
                    assert(rings@.map_values(|c: Vec<P>| c@) =~= before.map_values(|c: Vec<P>| c@).push(
                        cs[pos(hole)].points@,
                    ));
                    assert(want.subrange(0, h + 2) =~= want.subrange(0, h + 1).push(want[h + 1]));
                }
                h = h + 1;
            }
            proof {
                assert(want.subrange(0, h + 1) =~= want);
            }
            let ghost before = polygons@;
            polygons.push(rings);
            proof {
                assert(nested_view(polygons@) =~= nested_view(before).push(want));
                assert(assembled_upto(cs, k + 1) =~= assembled_upto(cs, pos(k)).push(want));
            }
        } else {
            proof {
                assert(assembled_upto(cs, k + 1) =~= assembled_upto(cs, pos(k)));
            }
        }
        k = k + 1;
    }
    polygons
}

} // verus!
