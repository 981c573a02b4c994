//! Grid coordinates and the checked arithmetic that walks along a line
//! through two of them.
use vstd::prelude::*;

verus! {

/// A cell position: a row and a column, both non-negative.
#[derive(Clone, Copy, Debug, PartialEq, Eq, Structural)]
pub struct Coord {
    pub row: usize,
    pub col: usize,
}

impl View for Coord {
    type V = (int, int);

    open spec fn view(&self) -> (int, int) {
        (self.row as int, self.col as int)
    }
}

/// The scalar `a + k * (a - b)`, that is `a * (k + 1) - b * k`.
pub open spec fn along_scalar(a: int, b: int, k: int) -> int {
    a + k * (a - b)
}

/// The point `k` steps out from `a`, away from `b`, on their line:
/// `a * (k + 1) - b * k` componentwise. For `k == 0` it is `a`; for `k == 1`
/// it is `2a - b`, the reflection of `b` through `a`.
pub open spec fn along(a: (int, int), b: (int, int), k: int) -> (int, int) {
    (along_scalar(a.0, b.0, k), along_scalar(a.1, b.1, k))
}

/// A value that a `usize` can hold.
pub open spec fn fits(v: int) -> bool {
    0 <= v <= usize::MAX
}

/// `a * (k + 1) - b * k` when it is a `usize`; `None` when it would be
/// negative (or beyond `usize`, where no grid index lies).
pub fn along_checked(a: usize, b: usize, k: usize) -> (r: Option<usize>)
    ensures
        r == (if fits(along_scalar(a as int, b as int, k as int)) {
            Some(along_scalar(a as int, b as int, k as int) as usize)
        } else {
            None::<usize>
        }),
{
    if a >= b {
        let d: usize = a - b;
        match k.checked_mul(d) {
            None => {
                assert(k * d >= 0) by (nonlinear_arith)
                    requires k >= 0, d >= 0;
                None
            },
            Some(s) => a.checked_add(s),
        }
    } else {
        let d: usize = b - a;
        assert(k * (a - b) == -(k * d)) by (nonlinear_arith)
            requires d == b - a;
        match k.checked_mul(d) {
            None => None,
            Some(s) => {
                if s <= a {
                    Some(a - s)
                } else {
                    None
                }
            },
        }
    }
}

impl Coord {
    /// The point `self * (k + 1) - other * k`, or `None` when a component
    /// would be negative.
    pub fn along(&self, other: &Coord, k: usize) -> (r: Option<Coord>)
        ensures
            r == (if fits(along(self@, other@, k as int).0) && fits(along(self@, other@, k as int).1) {
                Some(Coord {
                    row: along(self@, other@, k as int).0 as usize,
                    col: along(self@, other@, k as int).1 as usize,
                })
            } else {
                None::<Coord>
            }),
    {
        match (along_checked(self.row, other.row, k), along_checked(self.col, other.col, k)) {
            (Some(row), Some(col)) => Some(Coord { row, col }),
            _ => None,
        }
    }
}

} // verus!
