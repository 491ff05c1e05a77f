//! A result of a boolean operation kept in flat vectors, so that its storage
//! can serve again for the next operation.
//!
//! All the points of all contours stand one after another in `points`;
//! `contour_ends[k]` is where contour `k` ends, and polygon `i` has
//! `polygon_lens[i]` consecutive contours, of which `polygon_ends[i]`
//! counts those up to and including polygon `i`.
use vstd::prelude::*;
use vstd::slice::{slice_subrange, slice_to_vec};

use crate::contour::{assembled, assembled_upto, holes_known, holes_listed, polygon_of, Contour};
use crate::operation::Operation;
use crate::vec_ops::{pos, slen, to_position};

verus! {

/// The sum of the first `n` items of `s`.
pub open spec fn psum(s: Seq<usize>, n: int) -> int
    decreases n,
{
    if n <= 0 {
        0
    } else {
        psum(s, n - 1) + s[n - 1]
    }
}

/// The sums of prefixes are never negative.
pub proof fn lemma_psum_nonneg(s: Seq<usize>, n: int)
    ensures
        0 <= psum(s, n),
    decreases n,
{
    if n > 0 {
        lemma_psum_nonneg(s, n - 1);
    }
}

/// The sums of prefixes grow with the prefix, by each item passed.
pub proof fn lemma_psum_grows(s: Seq<usize>, a: int, b: int)
    requires
        0 <= a <= b <= s.len(),
    ensures
        psum(s, a) <= psum(s, b),
        a < b ==> psum(s, a) + s[a] <= psum(s, b),
        0 <= psum(s, a),
    decreases b - a,
{
    lemma_psum_nonneg(s, a);
    if a < b {
        lemma_psum_grows(s, a, b - 1);
        if a == b - 1 {
            assert(psum(s, b) == psum(s, a) + s[a]);
        }
    }
}

/// Appending an item changes no sum of a prefix of the old sequence.
proof fn lemma_psum_push_prefix(s: Seq<usize>, x: usize, n: int)
    requires
        0 <= n <= s.len(),
    ensures
        psum(s.push(x), n) == psum(s, n),
    decreases n,
{
    if n > 0 {
        lemma_psum_push_prefix(s, x, n - 1);
        assert(s.push(x)[n - 1] == s[n - 1]);
    }
}

/// Appending an item changes no sum of a prefix of the old sequence, and
/// adds the item to the sum of the whole.
pub proof fn lemma_psum_push(s: Seq<usize>, x: usize, n: int)
    requires
        0 <= n <= s.len(),
    ensures
        psum(s.push(x), n) == psum(s, n),
        psum(s.push(x), slen(s) + 1) == psum(s, slen(s)) + x,
{
    lemma_psum_push_prefix(s, x, n);
    lemma_psum_push_prefix(s, x, slen(s));
    assert(s.push(x)[slen(s)] == x);
}

/// The sum of a prefix depends only on the items in it.
pub proof fn lemma_psum_same_prefix(s: Seq<usize>, t: Seq<usize>, n: int)
    requires
        0 <= n <= s.len(),
        n <= t.len(),
        forall|j: int| 0 <= j < n ==> s[j] == t[j],
    ensures
        psum(s, n) == psum(t, n),
    decreases n,
{
    if n > 0 {
        lemma_psum_same_prefix(s, t, n - 1);
    }
}

/// `b` starts with all of `a`.
pub open spec fn extends<A>(b: Seq<A>, a: Seq<A>) -> bool {
    &&& a.len() <= b.len()
    &&& forall|j: int| 0 <= j < a.len() ==> b[j] == a[j]
}

/// The contours of the nested vectors `v`, as sequences.
pub open spec fn nested_view<P>(v: Seq<Vec<Vec<P>>>) -> Seq<Seq<Seq<P>>> {
    v.map_values(|p: Vec<Vec<P>>| p@.map_values(|c: Vec<P>| c@))
}

/// Polygons, each a list of contours, each a list of points, kept flat.
#[derive(Debug, PartialEq)]
pub struct ReusableResult<P> {
    pub points: Vec<P>,
    pub polygon_lens: Vec<usize>,
    pub polygon_ends: Vec<usize>,
    pub contour_ends: Vec<usize>,
}

impl<P> ReusableResult<P> {
    /// Where contour `k` starts in `points`.
    pub open spec fn contour_start(&self, k: int) -> int {
        if k == 0 {
            0
        } else {
            self.contour_ends@[k - 1] as int
        }
    }

    /// The points of contour `k`, counted over all polygons.
    pub open spec fn contour_range(&self, k: int) -> Seq<P> {
        self.points@.subrange(self.contour_start(k), self.contour_ends@[k] as int)
    }

    /// The points of contour `ci` of polygon `pi`.
    pub open spec fn contour_at(&self, pi: int, ci: int) -> Seq<P> {
        self.contour_range(psum(self.polygon_lens@, pi) + ci)
    }

    /// The polygons held, each a sequence of contours.
    pub open spec fn polygons(&self) -> Seq<Seq<Seq<P>>> {
        Seq::new(
            self.polygon_lens@.len(),
            |pi: int| Seq::new(self.polygon_lens@[pi] as nat, |ci: int| self.contour_at(pi, ci)),
        )
    }

    /// The contours are laid out one after another over all of `points`,
    /// and there are as many as the polygons have together.
    pub open spec fn contours_laid_out(&self) -> bool {
        &&& self.contour_ends@.len() == psum(self.polygon_lens@, self.polygon_lens@.len() as int)
        &&& forall|i: int, j: int|
            0 <= i <= j < self.contour_ends@.len() ==> #[trigger] self.contour_ends@[i]
                <= #[trigger] self.contour_ends@[j]
        &&& self.points@.len() == if self.contour_ends@.len() == 0 {
            0
        } else {
            self.contour_ends@.last() as int
        }
    }

    /// The contours are laid out and `polygon_ends` holds the running sums
    /// of `polygon_lens`.
    pub open spec fn wf(&self) -> bool {
        &&& self.contours_laid_out()
        &&& self.polygon_ends@.len() == self.polygon_lens@.len()
        &&& forall|i: int|
            0 <= i < self.polygon_lens@.len() ==> #[trigger] self.polygon_ends@[i] == psum(
                self.polygon_lens@,
                i + 1,
            )
    }

    /// Where the contours of polygon `pi` stand among all contours, and that
    /// they lie within `points`.
    pub proof fn lemma_contour_place(&self, pi: int, ci: int)
        requires
            self.contours_laid_out(),
            0 <= pi < self.polygon_lens@.len(),
            0 <= ci < self.polygon_lens@[pi],
        ensures
            0 <= psum(self.polygon_lens@, pi) + ci < self.contour_ends@.len(),
            0 <= self.contour_start(psum(self.polygon_lens@, pi) + ci) <= self.contour_ends@[psum(
                self.polygon_lens@,
                pi,
            ) + ci] <= self.points@.len(),
    {
        let lens = self.polygon_lens@;
        lemma_psum_grows(lens, pi, pi + 1);
        lemma_psum_grows(lens, pi + 1, lens.len() as int);
        lemma_psum_grows(lens, 0, pi);
        let k = psum(lens, pi) + ci;
        let n = self.contour_ends@.len() as int;
        assert(self.contour_ends@[k] <= self.contour_ends@[n - 1]);
        if k > 0 {
            assert(self.contour_ends@[k - 1] <= self.contour_ends@[k]);
        }
    }

    /// The result holds no point.
    pub fn is_empty(&self) -> (b: bool)
        ensures
            b == (self.points@.len() == 0),
    {
        self.points.len() == 0
    }

    /// The number of polygons.
    pub fn num_polygons(&self) -> (n: usize)
        ensures
            n == self.polygons().len(),
    {
        self.polygon_lens.len()
    }

    /// The number of contours of polygon `polygon_index`.
    pub fn num_contours(&self, polygon_index: usize) -> (n: usize)
        requires
            polygon_index < self.polygons().len(),
        ensures
            n == self.polygons()[polygon_index as int].len(),
    {
        self.polygon_lens[polygon_index]
    }

    /// The points of contour `contour_index` of polygon `polygon_index`.
    /// Contours are counted on over the following polygons: an index past
    /// the polygon's own contours names a contour of a later polygon.
    pub fn contour_points(&self, polygon_index: usize, contour_index: usize) -> (r: &[P])
        requires
            self.wf(),
            polygon_index < self.polygons().len(),
            psum(self.polygon_lens@, pos(polygon_index)) + contour_index < self.contour_ends@.len(),
        ensures
            r@ == self.contour_range(psum(self.polygon_lens@, pos(polygon_index)) + contour_index),
            contour_index < self.polygons()[pos(polygon_index)].len() ==> r@
                == self.polygons()[pos(polygon_index)][pos(contour_index)],
    {
        let ghost k = psum(self.polygon_lens@, pos(polygon_index)) + contour_index;
        proof {
            lemma_psum_grows(self.polygon_lens@, 0, pos(polygon_index));
            let n = self.contour_ends@.len() as int;
            assert(self.contour_ends@[k] <= self.contour_ends@[n - 1]);
            if k > 0 {
                assert(self.contour_ends@[k - 1] <= self.contour_ends@[k]);
            }
            assert(self.contour_ends@.len() == self.contour_ends.len());
            if polygon_index > 0 {
                assert(self.polygon_ends@[polygon_index - 1] == psum(self.polygon_lens@, pos(polygon_index)));
            }
        }
        let poly_start = if polygon_index > 0 {
            self.polygon_ends[polygon_index - 1]
        } else {
            0
        };
        let contour_end = self.contour_ends[poly_start + contour_index];
        let contour_start = if poly_start + contour_index > 0 {
            self.contour_ends[poly_start + contour_index - 1]
        } else {
            0
        };
        slice_subrange(self.points.as_slice(), contour_start, contour_end)
    }

    /// Empties the result.
    pub fn clear(&mut self)
        ensures
            final(self).wf(),
            final(self).polygons().len() == 0,
            final(self).points@.len() == 0,
    {
        self.points.clear();
        self.polygon_lens.clear();
        self.polygon_ends.clear();
        self.contour_ends.clear();
    }

    /// Recomputes `polygon_ends` as the running sums of `polygon_lens`.
    fn calculate_polygon_ends(&mut self)
        requires
            old(self).contours_laid_out(),
        ensures
            final(self).wf(),
            final(self).points == old(self).points,
            final(self).polygon_lens == old(self).polygon_lens,
            final(self).contour_ends == old(self).contour_ends,
    {
        let ghost lens = self.polygon_lens@;
        self.polygon_ends.clear();
        if self.polygon_lens.len() > 0 {
            self.polygon_ends.push(self.polygon_lens[0]);
            assert(psum(lens, 1) == psum(lens, 0) + lens[0]);
        }
        let mut i: usize = 1;
        while i < self.polygon_lens.len()
            invariant
                self.contours_laid_out(),
                lens == self.polygon_lens@,
                self.points == old(self).points,
                self.polygon_lens == old(self).polygon_lens,
                self.contour_ends == old(self).contour_ends,
                1 <= i,
                lens.len() > 0 ==> i <= lens.len(),
                self.polygon_ends@.len() == if lens.len() == 0 { 0 } else { pos(i) },
                forall|j: int| 0 <= j < self.polygon_ends@.len() ==> #[trigger] self.polygon_ends@[j] == psum(lens, j + 1),
            decreases lens.len() - i,
        {
            proof {
                lemma_psum_grows(lens, i + 1, slen(lens));
                assert(self.contour_ends@.len() == self.contour_ends.len());
            }
            let end = self.polygon_ends[i - 1] + self.polygon_lens[i];
            self.polygon_ends.push(end);
            i = i + 1;
        }
    }
}

impl<P> Default for ReusableResult<P> {
    /// A result without polygons.
    fn default() -> (r: Self)
        ensures
            r.wf(),
            r.polygons().len() == 0,
            r.points@.len() == 0,
    {
        ReusableResult {
            points: Vec::new(),
            polygon_lens: Vec::new(),
            polygon_ends: Vec::new(),
            contour_ends: Vec::new(),
        }
    }
}

impl<P> ReusableResult<P> {
    /// The contour ends do not decrease and the last one is the number of
    /// points.
    pub open spec fn contours_ordered(&self) -> bool {
        &&& forall|i: int, j: int|
            0 <= i <= j < self.contour_ends@.len() ==> #[trigger] self.contour_ends@[i]
                <= #[trigger] self.contour_ends@[j]
        &&& self.points@.len() == if self.contour_ends@.len() == 0 {
            0
        } else {
            self.contour_ends@.last() as int
        }
    }

    /// `b` holds all of `a`'s points, contours and polygons, and maybe more.
    pub open spec fn kept_from(b: Self, a: Self) -> bool {
        &&& extends(b.points@, a.points@)
        &&& extends(b.contour_ends@, a.contour_ends@)
        &&& extends(b.polygon_lens@, a.polygon_lens@)
        &&& b.polygon_ends == a.polygon_ends
    }

    /// A contour of `a` is unchanged in a result that extends `a`.
    proof fn lemma_range_kept(a: Self, b: Self, k: int)
        requires
            a.contours_ordered(),
            0 <= k < a.contour_ends@.len(),
            extends(b.points@, a.points@),
            extends(b.contour_ends@, a.contour_ends@),
        ensures
            b.contour_range(k) == a.contour_range(k),
    {
        let n = a.contour_ends@.len() as int;
        assert(a.contour_ends@[k] <= a.contour_ends@[n - 1]);
        if k > 0 {
            assert(a.contour_ends@[k - 1] <= a.contour_ends@[k]);
        }
        assert(b.contour_range(k) =~= a.contour_range(k));
    }

    /// A contour of a polygon of `a` is unchanged in a result that keeps `a`.
    proof fn lemma_contour_kept(a: Self, b: Self, pi: int, ci: int)
        requires
            a.contours_laid_out(),
            Self::kept_from(b, a),
            0 <= pi < a.polygon_lens@.len(),
            0 <= ci < a.polygon_lens@[pi],
        ensures
            b.contour_at(pi, ci) == a.contour_at(pi, ci),
    {
        a.lemma_contour_place(pi, ci);
        lemma_psum_same_prefix(a.polygon_lens@, b.polygon_lens@, pi);
        Self::lemma_range_kept(a, b, psum(a.polygon_lens@, pi) + ci);
    }
}

impl<P: Copy> ReusableResult<P> {
    /// Appends the points of `contour` as one more contour.
    fn append_contour(&mut self, contour: &[P])
        requires
            old(self).contours_ordered(),
        ensures
            final(self).contours_ordered(),
            final(self).points@ == old(self).points@ + contour@,
            final(self).contour_ends@ == old(self).contour_ends@.push(
                final(self).contour_ends@.last(),
            ),
            final(self).polygon_lens == old(self).polygon_lens,
            final(self).polygon_ends == old(self).polygon_ends,
            final(self).contour_range(slen(old(self).contour_ends@)) == contour@,
    {
        let ghost p0 = self.points@;
        let mut j: usize = 0;
        while j < contour.len()
            invariant
                0 <= j <= contour@.len(),
                self.points@ == p0 + contour@.subrange(0, pos(j)),
                self.contour_ends == old(self).contour_ends,
                self.polygon_lens == old(self).polygon_lens,
                self.polygon_ends == old(self).polygon_ends,
            decreases contour@.len() - j,
        {
            self.points.push(contour[j]);
            proof {
                assert(contour@.subrange(0, j + 1) =~= contour@.subrange(0, pos(j)).push(contour@[pos(j)]));
            }
            j = j + 1;
        }
        proof {
            assert(contour@.subrange(0, slen(contour@)) =~= contour@);
        }
        let end = self.points.len();
        self.contour_ends.push(end);
        proof {
            let n = slen(old(self).contour_ends@);
            let ce = self.contour_ends@;
            assert forall|a: int, b: int| 0 <= a <= b < ce.len() implies #[trigger] ce[a] <= #[trigger] ce[b] by {
                if b == n && a < n {
                    assert(old(self).contour_ends@[a] <= old(self).contour_ends@[n - 1]);
                }
            }
            assert(self.contour_start(n) == p0.len());
            assert(self.contour_range(n) =~= contour@);
        }
    }

    /// Appends `polygon` as one more polygon.
    fn append_polygon(&mut self, polygon: &Vec<Vec<P>>)
        requires
            old(self).contours_laid_out(),
        ensures
            final(self).contours_laid_out(),
            Self::kept_from(*final(self), *old(self)),
            final(self).polygon_lens@ == old(self).polygon_lens@.push(polygon.len()),
            forall|ci: int|
                0 <= ci < polygon@.len() ==> final(self).contour_at(
                    slen(old(self).polygon_lens@),
                    ci,
                ) == (#[trigger] polygon@[ci])@,
    {
        let ghost start = *self;
        let ghost k0 = slen(self.contour_ends@);
        let mut c: usize = 0;
        while c < polygon.len()
            invariant
                0 <= c <= polygon@.len(),
                self.contours_ordered(),
                0 <= k0,
                self.contour_ends@.len() == k0 + c,
                k0 == psum(start.polygon_lens@, slen(start.polygon_lens@)),
                extends(self.points@, start.points@),
                extends(self.contour_ends@, start.contour_ends@),
                self.polygon_lens == start.polygon_lens,
                self.polygon_ends == start.polygon_ends,
                forall|cc: int| 0 <= cc < c ==> self.contour_range(k0 + cc) == (#[trigger] polygon@[cc])@,
            decreases polygon@.len() - c,
        {
            let ghost before = *self;
            self.append_contour(polygon[c].as_slice());
            proof {
                assert forall|cc: int| 0 <= cc < c + 1 implies self.contour_range(k0 + cc) == (#[trigger] polygon@[cc])@ by {
                    if cc < c {
                        Self::lemma_range_kept(before, *self, k0 + cc);
                    }
                }
            }
            c = c + 1;
        }
        let count = polygon.len();
        self.polygon_lens.push(count);
        proof {
            let l0 = start.polygon_lens@;
            lemma_psum_push(l0, count, slen(l0));
            assert forall|ci: int| 0 <= ci < polygon@.len() implies self.contour_at(slen(l0), ci) == (#[trigger] polygon@[ci])@ by {
                assert(self.contour_at(slen(l0), ci) == self.contour_range(k0 + ci));
            }
        }
    }

    /// Appends `polygons` after the polygons held; `polygon_ends` is left as
    /// it was.
    fn append_polygons(&mut self, polygons: &[Vec<Vec<P>>])
        requires
            old(self).contours_laid_out(),
        ensures
            final(self).contours_laid_out(),
            Self::kept_from(*final(self), *old(self)),
            final(self).polygon_lens@.len() == old(self).polygon_lens@.len() + polygons@.len(),
            forall|j: int|
                0 <= j < polygons@.len() ==> final(self).polygon_lens@[old(self).polygon_lens@.len()
                    + j] == (#[trigger] polygons@[j])@.len(),
            forall|j: int, ci: int|
                0 <= j < polygons@.len() && 0 <= ci < polygons@[j]@.len() ==> final(self).contour_at(
                    old(self).polygon_lens@.len() + j,
                    ci,
                ) == (#[trigger] polygons@[j]@[ci])@,
    {
        let ghost start = *self;
        let ghost l0 = slen(self.polygon_lens@);
        let mut i: usize = 0;
        while i < polygons.len()
            invariant
                0 <= i <= polygons@.len(),
                self.contours_laid_out(),
                Self::kept_from(*self, start),
                start.contours_laid_out(),
                l0 == start.polygon_lens@.len(),
                self.polygon_lens@.len() == l0 + i,
                forall|j: int| 0 <= j < i ==> self.polygon_lens@[l0 + j] == (#[trigger] polygons@[j])@.len(),
                forall|j: int, ci: int|
                    0 <= j < i && 0 <= ci < polygons@[j]@.len() ==> self.contour_at(l0 + j, ci)
                        == (#[trigger] polygons@[j]@[ci])@,
            decreases polygons@.len() - i,
        {
            let ghost before = *self;
            self.append_polygon(&polygons[i]);
            proof {
                assert forall|j: int, ci: int|
                    0 <= j < i + 1 && 0 <= ci < polygons@[j]@.len() implies self.contour_at(l0 + j, ci)
                        == (#[trigger] polygons@[j]@[ci])@ by {
                    if j < i {
                        Self::lemma_contour_kept(before, *self, l0 + j, ci);
                    } else {
                        assert(polygons@[j]@[ci] == polygons@[pos(i)]@[ci]);
                    }
                }
                assert forall|j: int| 0 <= j < i + 1 implies self.polygon_lens@[l0 + j] == (#[trigger] polygons@[j])@.len() by {
                    if j < i {
                        assert(self.polygon_lens@[l0 + j] == before.polygon_lens@[l0 + j]);
                    }
                }
            }
            i = i + 1;
        }
    }
}

impl<P> ReusableResult<P> {
    /// Polygon `pi` of the result has as many contours as `v[pi]`, with the
    /// same points, for every polygon of `v`, and there are no others.
    pub open spec fn holds_polygons(&self, v: Seq<Seq<Seq<P>>>) -> bool {
        &&& self.polygon_lens@.len() == v.len()
        &&& forall|pi: int| 0 <= pi < v.len() ==> #[trigger] self.polygon_lens@[pi] == v[pi].len()
        &&& forall|pi: int, ci: int|
            0 <= pi < v.len() && 0 <= ci < v[pi].len() ==> self.contour_at(pi, ci) == #[trigger] v[pi][ci]
    }

    /// A result that holds the polygons of `v` has them as its polygons.
    proof fn lemma_holds_polygons(&self, v: Seq<Seq<Seq<P>>>)
        requires
            self.holds_polygons(v),
        ensures
            self.polygons() == v,
    {
        assert forall|pi: int| 0 <= pi < v.len() implies #[trigger] self.polygons()[pi] == v[pi] by {
            assert(self.polygons()[pi] =~= v[pi]);
        }
        assert(self.polygons() =~= v);
    }
}

impl<P: Copy> ReusableResult<P> {
    /// Replaces the content with copies of `polygons`.
    pub fn set_polygons(&mut self, polygons: &[Vec<Vec<P>>])
        ensures
            final(self).wf(),
            final(self).polygons() == nested_view(polygons@),
    {
        self.clear();
        self.append_polygons(polygons);
        self.calculate_polygon_ends();
        proof {
            let v = nested_view(polygons@);
            assert forall|pi: int, ci: int|
                0 <= pi < v.len() && 0 <= ci < v[pi].len() implies self.contour_at(pi, ci) == #[trigger] v[pi][ci] by {
                assert(v[pi][ci] == polygons@[pi]@[ci]@);
                assert(self.contour_at(0 + pi, ci) == polygons@[pi]@[ci]@);
            }
            assert forall|pi: int| 0 <= pi < v.len() implies #[trigger] self.polygon_lens@[pi] == v[pi].len() by {
                assert(self.polygon_lens@[0 + pi] == polygons@[pi]@.len());
            }
            self.lemma_holds_polygons(v);
        }
    }

    /// Replaces the content with copies of the polygons of `first`, then of
    /// those of `second`.
    fn set_polygons_of_both(&mut self, first: &[Vec<Vec<P>>], second: &[Vec<Vec<P>>])
        ensures
            final(self).wf(),
            final(self).polygons() == nested_view(first@) + nested_view(second@),
    {
        self.clear();
        self.append_polygons(first);
        let ghost mid = *self;
        self.append_polygons(second);
        let ghost after = *self;
        self.calculate_polygon_ends();
        proof {
            let v = nested_view(first@) + nested_view(second@);
            let n = first@.len() as int;
            assert forall|pi: int, ci: int|
                0 <= pi < v.len() && 0 <= ci < v[pi].len() implies self.contour_at(pi, ci) == #[trigger] v[pi][ci] by {
                if pi < n {
                    assert(v[pi][ci] == first@[pi]@[ci]@);
                    assert(mid.contour_at(0 + pi, ci) == first@[pi]@[ci]@);
                    Self::lemma_contour_kept(mid, after, pi, ci);
                    assert(self.contour_at(pi, ci) == after.contour_at(pi, ci));
                } else {
                    assert(v[pi][ci] == second@[pi - n]@[ci]@);
                    assert(self.contour_at(n + (pi - n), ci) == second@[pi - n]@[ci]@);
                }
            }
            assert forall|pi: int| 0 <= pi < v.len() implies #[trigger] self.polygon_lens@[pi] == v[pi].len() by {
                if pi < n {
                    assert(mid.polygon_lens@[0 + pi] == first@[pi]@.len());
                } else {
                    assert(self.polygon_lens@[n + (pi - n)] == second@[pi - n]@.len());
                }
            }
            self.lemma_holds_polygons(v);
        }
    }

    /// The polygons held, as nested vectors of copied points.
    pub fn into_polygons(self) -> (r: Vec<Vec<Vec<P>>>)
        requires
            self.wf(),
        ensures
            nested_view(r@) == self.polygons(),
    {
        let mut polygons: Vec<Vec<Vec<P>>> = Vec::new();
        let mut pi: usize = 0;
        while pi < self.num_polygons()
            invariant
                self.wf(),
                0 <= pi <= self.polygons().len(),
                nested_view(polygons@) == self.polygons().subrange(0, pos(pi)),
            decreases self.polygons().len() - pi,
        {
            let mut polygon: Vec<Vec<P>> = Vec::new();
            let mut ci: usize = 0;
            while ci < self.num_contours(pi)
                invariant
                    self.wf(),
                    pi < self.polygons().len(),
                    0 <= ci <= self.polygons()[pos(pi)].len(),
                    polygon@.map_values(|c: Vec<P>| c@) == self.polygons()[pos(pi)].subrange(0, pos(ci)),
                decreases self.polygons()[pos(pi)].len() - ci,
            {
                proof {
                    self.lemma_contour_place(pos(pi), pos(ci));
                }
                let contour = slice_to_vec(self.contour_points(pi, ci));
                let ghost before = polygon@;
                polygon.push(contour);
                proof {
                    assert(polygon@.map_values(|c: Vec<P>| c@) =~= before.map_values(|c: Vec<P>| c@).push(contour@));
                    assert(self.polygons()[pos(pi)].subrange(0, ci + 1) =~= self.polygons()[pos(pi)].subrange(0, pos(ci)).push(self.polygons()[pos(pi)][pos(ci)]));
                }
                ci = ci + 1;
            }
            proof {
                assert(self.polygons()[pos(pi)].subrange(0, pos(ci)) =~= self.polygons()[pos(pi)]);
            }
            let ghost before = polygons@;
            polygons.push(polygon);
            proof {
                assert(nested_view(polygons@) =~= nested_view(before).push(polygon@.map_values(|c: Vec<P>| c@)));
                assert(self.polygons().subrange(0, pi + 1) =~= self.polygons().subrange(0, pos(pi)).push(self.polygons()[pos(pi)]));
            }
            pi = pi + 1;
        }
        proof {
            assert(self.polygons().subrange(0, pos(pi)) =~= self.polygons());
        }
        polygons
    }
}

/// Fills `result` when an operand is empty, and says so with `Some`; when
/// neither is, empties `result` and gives `None`.  An intersection is then
/// empty; a difference is the subject; a union or an exclusive or is
/// whichever operand is not empty (the subject when both are empty).
pub fn trivial_operation_reuse<P: Copy>(
    subject: &[Vec<Vec<P>>],
    clipping: &[Vec<Vec<P>>],
    operation: Operation,
    result: &mut ReusableResult<P>,
) -> (r: Option<()>)
    ensures
        final(result).wf(),
        r is Some <==> (subject@.len() == 0 || clipping@.len() == 0),
        r is None ==> final(result).polygons().len() == 0,
        r is Some ==> final(result).polygons() == match operation {
            Operation::Intersection => Seq::empty(),
            Operation::Difference => nested_view(subject@),
            Operation::Union | Operation::Xor => if subject@.len() == 0 {
                nested_view(clipping@)
            } else {
                nested_view(subject@)
            },
        },
{
    if subject.len() == 0 || clipping.len() == 0 {
        match operation {
            Operation::Intersection => {
                result.clear();
                proof {
                    assert(result.polygons() =~= Seq::empty());
                }
                Some(())
            },
            Operation::Difference => {
                result.set_polygons(subject);
                Some(())
            },
            Operation::Union | Operation::Xor => {
                if subject.len() == 0 {
                    result.set_polygons(clipping);
                } else {
                    result.set_polygons(subject);
                }
                Some(())
            },
        }
    } else {
        result.clear();
        None
    }
}

/// Fills `result` when the bounding boxes of the operands do not meet
/// (`boxes_apart`), and says so with `Some`; when they do, empties `result`
/// and gives `None`.  An intersection is then empty; a difference is the
/// subject; a union or an exclusive or is the subject's polygons followed by
/// the clipping's.
pub fn compare_bboxes_reuse<P: Copy>(
    subject: &[Vec<Vec<P>>],
    clipping: &[Vec<Vec<P>>],
    boxes_apart: bool,
    operation: Operation,
    result: &mut ReusableResult<P>,
) -> (r: Option<()>)
    ensures
        final(result).wf(),
        r is Some <==> boxes_apart,
        r is None ==> final(result).polygons().len() == 0,
        r is Some ==> final(result).polygons() == match operation {
            Operation::Intersection => Seq::empty(),
            Operation::Difference => nested_view(subject@),
            Operation::Union | Operation::Xor => nested_view(subject@) + nested_view(clipping@),
        },
{
    if boxes_apart {
        match operation {
            Operation::Intersection => {
                result.clear();
                proof {
                    assert(result.polygons() =~= Seq::empty());
                }
                Some(())
            },
            Operation::Difference => {
                result.set_polygons(subject);
                Some(())
            },
            Operation::Union | Operation::Xor => {
                result.set_polygons_of_both(subject, clipping);
                Some(())
            },
        }
    } else {
        result.clear();
        None
    }
}

impl<P: Copy> ReusableResult<P> {
    /// Appends the polygon that exterior contour `k` of `contours` bounds:
    /// that contour, then each of its holes.
    fn append_contour_polygon(&mut self, contours: &[Contour<P>], k: usize)
        requires
            old(self).contours_laid_out(),
            k < contours@.len(),
            holes_known(contours@, pos(k)),
        ensures
            final(self).contours_laid_out(),
            Self::kept_from(*final(self), *old(self)),
            final(self).polygon_lens@.len() == old(self).polygon_lens@.len() + 1,
            final(self).polygon_lens@.last() == polygon_of(contours@, pos(k)).len(),
            forall|ci: int|
                0 <= ci < polygon_of(contours@, pos(k)).len() ==> final(self).contour_at(
                    slen(old(self).polygon_lens@),
                    ci,
                ) == #[trigger] polygon_of(contours@, pos(k))[ci],
    {
        let ghost cs = contours@;
        let ghost want = polygon_of(cs, pos(k));
        let ghost start = *self;
        let first = self.contour_ends.len();
        let ghost k0 = pos(first);
        self.append_contour(contours[k].points.as_slice());
        let mut h: usize = 0;
        while h < contours[k].hole_ids.len()
            invariant
                cs == contours@,
                k < cs.len(),
                holes_known(cs, pos(k)),
                want == polygon_of(cs, pos(k)),
                0 <= h <= cs[pos(k)].hole_ids@.len(),
                k0 == slen(start.contour_ends@),
                k0 == psum(start.polygon_lens@, slen(start.polygon_lens@)),
                self.contours_ordered(),
                self.contour_ends@.len() == k0 + h + 1,
                extends(self.points@, start.points@),
                extends(self.contour_ends@, start.contour_ends@),
                self.polygon_lens == start.polygon_lens,
                self.polygon_ends == start.polygon_ends,
                forall|r: int| 0 <= r < h + 1 ==> self.contour_range(k0 + r) == #[trigger] want[r],
            decreases cs[pos(k)].hole_ids@.len() - h,
        {
            let hole_id = contours[k].hole_ids[h];
            proof {
                assert(0 <= cs[pos(k)].hole_ids@[pos(h)] < cs.len());
            }
            let hole = to_position(hole_id);
            let ghost before = *self;
            self.append_contour(contours[hole].points.as_slice());
            proof {
                assert forall|r: int| 0 <= r < h + 2 implies self.contour_range(k0 + r) == #[trigger] want[r] by {
                    if r < h + 1 {
                        Self::lemma_range_kept(before, *self, k0 + r);
                    }
                }
            }
            h = h + 1;
        }
        let count = self.contour_ends.len() - first;
        self.polygon_lens.push(count);
        proof {
            let l0 = start.polygon_lens@;
            lemma_psum_push(l0, count, slen(l0));
            assert forall|ci: int| 0 <= ci < want.len() implies self.contour_at(slen(l0), ci) == #[trigger] want[ci] by {
                assert(self.contour_at(slen(l0), ci) == self.contour_range(k0 + ci));
            }
        }
    }

    /// Replaces the content with the polygons that `contours` make: for
    /// each exterior contour, in order, a polygon of that contour and its
    /// holes.
    pub fn set_from_contours(&mut self, contours: &[Contour<P>])
        requires
            holes_listed(contours@),
        ensures
            final(self).wf(),
            final(self).polygons() == assembled(contours@),
    {
        let ghost cs = contours@;
        self.clear();
        let mut k: usize = 0;
        while k < contours.len()
            invariant
                cs == contours@,
                holes_listed(cs),
                0 <= k <= cs.len(),
                self.contours_laid_out(),
                self.holds_polygons(assembled_upto(cs, pos(k))),
            decreases cs.len() - k,
        {
            let ghost before = *self;
            let ghost v0 = assembled_upto(cs, pos(k));
            if contours[k].is_exterior() {
                proof {
                    assert(holes_known(cs, pos(k)));
                }
                self.append_contour_polygon(contours, k);
                proof {
                    let want = polygon_of(cs, pos(k));
                    let v1 = assembled_upto(cs, k + 1);
                    assert(v1 =~= v0.push(want));
                    let n = slen(v0);
                    assert forall|pi: int, ci: int|
                        0 <= pi < v1.len() && 0 <= ci < v1[pi].len() implies self.contour_at(pi, ci) == #[trigger] v1[pi][ci] by {
                        if pi < n {
                            assert(v1[pi] == v0[pi]);
                            assert(before.contour_at(pi, ci) == v0[pi][ci]);
                            Self::lemma_contour_kept(before, *self, pi, ci);
                        } else {
                            assert(v1[pi] == want);
                        }
                    }
                    assert forall|pi: int| 0 <= pi < v1.len() implies #[trigger] self.polygon_lens@[pi] == v1[pi].len() by {
                        if pi < n {
                            assert(self.polygon_lens@[pi] == before.polygon_lens@[pi]);
                            assert(v1[pi] == v0[pi]);
                        }
                    }
                }
            } else {
                proof {
                    assert(assembled_upto(cs, k + 1) =~= v0);
                }
            }
            k = k + 1;
        }
        self.calculate_polygon_ends();
        proof {
            assert(slen(cs) == pos(k));
            self.lemma_holds_polygons(assembled(cs));
        }
    }
}

/// Setting polygons and taking them out again gives the same polygons back:
/// what `set_polygons` stores is what `into_polygons` returns.
pub proof fn law_set_then_take_out<P>(
    stored: ReusableResult<P>,
    polygons: Seq<Vec<Vec<P>>>,
    taken: Seq<Vec<Vec<P>>>,
)
    requires
        stored.polygons() == nested_view(polygons),
        nested_view(taken) == stored.polygons(),
    ensures
        nested_view(taken) == nested_view(polygons),
{
}

} // verus!
