//! Vector operations that vstd gives no specification for.
use vstd::prelude::*;

verus! {

/// Calls `<[T]>::swap`, which exchanges the items at positions `i` and `j`
/// (and panics when either is out of bounds, which `requires` rules out).
#[verifier::external_body]
pub(crate) fn swap_items<T>(v: &mut Vec<T>, i: usize, j: usize)
    requires
        i < old(v).len(),
        j < old(v).len(),
    ensures
        final(v)@ == old(v)@.update(i as int, old(v)@[j as int]).update(j as int, old(v)@[i as int]),
{
    v.swap(i, j);
}

/// The integer value of a position.
pub open spec fn pos(i: usize) -> int {
    i as int
}

/// The integer value of a signed index.
pub open spec fn sidx(i: i64) -> int {
    i as int
}

/// A non-negative signed index as a position.
pub fn to_position(i: i64) -> (r: usize)
    requires
        0 <= i <= usize::MAX,
    ensures
        r == i,
{
    i as usize
}

/// `i` is a position inside a sequence of length `len`.
pub fn within(i: i64, len: usize) -> (b: bool)
    ensures
        b == (0 <= i < len),
{
    0 <= i && (i as i128) < (len as i128)
}

/// A position as a signed index.
pub fn to_signed(i: usize) -> (r: i64)
    requires
        i <= i64::MAX,
    ensures
        r == i,
{
    i as i64
}

/// An integer as a signed index.
pub open spec fn to_i64(n: int) -> i64 {
    n as i64
}

/// The length of a sequence, as an integer.
pub open spec fn slen<A>(s: Seq<A>) -> int {
    s.len() as int
}

} // verus!
