//! The contours of a result: closed rings of points, each either an
//! exterior ring or a hole of one.
use vstd::prelude::*;

verus! {

/// A ring of the result.  `hole_of` names the exterior contour that it is a
/// hole of (none for an exterior contour); `hole_ids` lists its own holes;
/// `depth` counts how deeply it is nested.
pub struct Contour<P> {
    pub points: Vec<P>,
    pub hole_ids: Vec<i64>,
    pub hole_of: Option<i64>,
    pub depth: i64,
}

impl<P> Contour<P> {
    /// The contour is not a hole of another one.
    pub fn is_exterior(&self) -> (b: bool)
        ensures
            b == (self.hole_of is None),
    {
        self.hole_of.is_none()
    }
}

impl<P> Default for Contour<P> {
    /// An exterior contour of depth 0, without points or holes.
    fn default() -> (c: Self)
        ensures
            c.points@.len() == 0,
            c.hole_ids@.len() == 0,
            c.hole_of is None,
            c.depth == 0,
    {
        Contour { points: Vec::new(), hole_ids: Vec::new(), hole_of: None, depth: 0 }
    }
}

/// Every hole that contour `k` of `cs` lists is one of `cs`.
pub open spec fn holes_known<P>(cs: Seq<Contour<P>>, k: int) -> bool {
    forall|j: int|
        0 <= j < cs[k].hole_ids@.len() ==> 0 <= #[trigger] cs[k].hole_ids@[j] < cs.len()
}

/// Every exterior contour of `cs` lists only holes that are among `cs`.
pub open spec fn holes_listed<P>(cs: Seq<Contour<P>>) -> bool {
    forall|k: int| 0 <= k < cs.len() && (#[trigger] cs[k]).hole_of is None ==> holes_known(cs, k)
}

/// The positions of the exterior contours among the first `n` of `cs`, in
/// order.
pub open spec fn exteriors_upto<P>(cs: Seq<Contour<P>>, n: int) -> Seq<int>
    decreases n,
{
    if n <= 0 {
        Seq::empty()
    } else if cs[n - 1].hole_of is None {
        exteriors_upto(cs, n - 1).push(n - 1)
    } else {
        exteriors_upto(cs, n - 1)
    }
}

/// The rings of the polygon that exterior contour `k` of `cs` bounds: its
/// own points, then those of each of its holes, in the order listed.
pub open spec fn polygon_of<P>(cs: Seq<Contour<P>>, k: int) -> Seq<Seq<P>> {
    Seq::new(
        cs[k].hole_ids@.len() + 1,
        |r: int|
            if r == 0 {
                cs[k].points@
            } else {
                cs[cs[k].hole_ids@[r - 1] as int].points@
            },
    )
}

/// The polygons that the first `n` contours of `cs` make: one for each
/// exterior contour, in order.
pub open spec fn assembled_upto<P>(cs: Seq<Contour<P>>, n: int) -> Seq<Seq<Seq<P>>> {
    exteriors_upto(cs, n).map_values(|k: int| polygon_of(cs, k))
}

/// The polygons that the contours `cs` make.
pub open spec fn assembled<P>(cs: Seq<Contour<P>>) -> Seq<Seq<Seq<P>>> {
    assembled_upto(cs, cs.len() as int)
}

} // verus!
