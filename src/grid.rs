//! The two kinds of grid the library works on, held in `array2d::Array2D`,
//! and their mathematical model: a sequence of rows plus a column count.
use array2d::Array2D;
use vstd::prelude::*;

verus! {

#[verifier::external_type_specification]
#[verifier::external_body]
#[verifier::reject_recursive_types(T)]
pub struct ExArray2D<T>(Array2D<T>);

/// The rows of a label grid, each row a sequence of cells.
pub uninterp spec fn label_rows(a: Array2D<Option<char>>) -> Seq<Seq<Option<char>>>;

/// The number of columns a label grid was built with.
pub uninterp spec fn label_width(a: Array2D<Option<char>>) -> nat;

/// The rows of a flag grid, each row a sequence of cells.
pub uninterp spec fn flag_rows(a: Array2D<bool>) -> Seq<Seq<bool>>;

/// The number of columns a flag grid was built with.
pub uninterp spec fn flag_width(a: Array2D<bool>) -> nat;

/// Whether `p` names a cell of a `nr` by `nc` grid.
pub open spec fn in_bounds(p: (int, int), nr: int, nc: int) -> bool {
    0 <= p.0 < nr && 0 <= p.1 < nc
}

/// Every row of `rows` has `width` cells.
pub open spec fn rectangular<T>(rows: Seq<Seq<T>>, width: nat) -> bool {
    forall|i: int| 0 <= i < rows.len() ==> (#[trigger] rows[i]).len() == width
}

/// Number of rows of a label grid.
pub open spec fn label_nr(a: Array2D<Option<char>>) -> int {
    label_rows(a).len() as int
}

/// Number of columns of a label grid.
pub open spec fn label_nc(a: Array2D<Option<char>>) -> int {
    label_width(a) as int
}

/// The label grid is rectangular.
pub open spec fn label_wf(a: Array2D<Option<char>>) -> bool {
    rectangular(label_rows(a), label_width(a))
}

/// The label at cell `p` of a label grid.
pub open spec fn label_at(a: Array2D<Option<char>>, p: (int, int)) -> Option<char> {
    label_rows(a)[p.0][p.1]
}

/// Number of rows of a flag grid.
pub open spec fn flag_nr(a: Array2D<bool>) -> int {
    flag_rows(a).len() as int
}

/// The number of cells of a label grid fits in a `usize`.
pub open spec fn label_size_fits(a: Array2D<Option<char>>) -> bool {
    label_rows(a).len() * label_width(a) <= usize::MAX
}

/// Number of columns of a flag grid.
pub open spec fn flag_nc(a: Array2D<bool>) -> int {
    flag_width(a) as int
}

/// The flag grid is rectangular.
pub open spec fn flag_wf(a: Array2D<bool>) -> bool {
    rectangular(flag_rows(a), flag_width(a))
}

/// The number of cells of a flag grid fits in a `usize`.
pub open spec fn flag_size_fits(a: Array2D<bool>) -> bool {
    flag_rows(a).len() * flag_width(a) <= usize::MAX
}

/// The flag at cell `p` of a flag grid.
pub open spec fn flag_at(a: Array2D<bool>, p: (int, int)) -> bool {
    flag_rows(a)[p.0][p.1]
}

/// Relies on `Array2D::filled_with`: `nr` rows of `nc` copies of `v`; it
/// computes `nr * nc` unchecked, so the product must fit.
#[verifier::external_body]
pub(crate) fn flags_filled(v: bool, nr: usize, nc: usize) -> (r: Array2D<bool>)
    requires
        nr * nc <= usize::MAX,
    ensures
        flag_rows(r) == Seq::new(nr as nat, |i: int| Seq::new(nc as nat, |j: int| v)),
        flag_width(r) == nc,
{
    Array2D::filled_with(v, nr, nc)
}

/// Relies on `Array2D::num_rows`.
#[verifier::external_body]
pub(crate) fn flags_num_rows(a: &Array2D<bool>) -> (r: usize)
    ensures
        r == flag_rows(*a).len(),
{
    a.num_rows()
}

/// Relies on `Array2D::num_columns`.
#[verifier::external_body]
pub(crate) fn flags_num_columns(a: &Array2D<bool>) -> (r: usize)
    ensures
        r == flag_width(*a),
{
    a.num_columns()
}

/// Relies on `Array2D::get`: the cell when both indices are in bounds.
#[verifier::external_body]
pub(crate) fn flags_get(a: &Array2D<bool>, row: usize, col: usize) -> (r: Option<bool>)
    ensures
        r == (if row < flag_rows(*a).len() && col < flag_width(*a) {
            Some(flag_rows(*a)[row as int][col as int])
        } else {
            None::<bool>
        }),
{
    a.get(row, col).copied()
}

/// Relies on `Array2D::set`: writes the cell and returns `Ok` when both
/// indices are in bounds, and otherwise leaves the grid as it was.
#[verifier::external_body]
pub(crate) fn flags_set(a: &mut Array2D<bool>, row: usize, col: usize, v: bool) -> (ok: bool)
    ensures
        ok == (row < flag_rows(*old(a)).len() && col < flag_width(*old(a))),
        flag_width(*final(a)) == flag_width(*old(a)),
        flag_rows(*final(a)) == (if ok {
            flag_rows(*old(a)).update(
                row as int,
                flag_rows(*old(a))[row as int].update(col as int, v),
            )
        } else {
            flag_rows(*old(a))
        }),
{
    a.set(row, col, v).is_ok()
}

/// Relies on `Array2D::num_rows`.
#[verifier::external_body]
pub(crate) fn labels_num_rows(a: &Array2D<Option<char>>) -> (r: usize)
    ensures
        r == label_rows(*a).len(),
{
    a.num_rows()
}

/// Relies on `Array2D::num_columns`.
#[verifier::external_body]
pub(crate) fn labels_num_columns(a: &Array2D<Option<char>>) -> (r: usize)
    ensures
        r == label_width(*a),
{
    a.num_columns()
}

/// Relies on `Array2D::get`: the cell when both indices are in bounds.
#[verifier::external_body]
pub(crate) fn labels_get(a: &Array2D<Option<char>>, row: usize, col: usize) -> (r: Option<Option<char>>)
    ensures
        r == (if row < label_rows(*a).len() && col < label_width(*a) {
            Some(label_rows(*a)[row as int][col as int])
        } else {
            None::<Option<char>>
        }),
{
    a.get(row, col).copied()
}

/// All rows of `rows` have the length of the first.
pub open spec fn same_lengths(rows: Seq<Vec<Option<char>>>) -> bool {
    forall|i: int| 0 <= i < rows.len() ==> (#[trigger] rows[i])@.len() == rows[0]@.len()
}

/// Relies on `Array2D::from_rows`: when every row has the length of the
/// first, a grid of those rows (with that many columns, or none when there
/// are no rows), whose cells it copies into one `Vec`, so their number fits
/// in a `usize`; otherwise its `DimensionMismatch` error.
#[verifier::external_body]
pub(crate) fn labels_from_rows(rows: &Vec<Vec<Option<char>>>) -> (r: Option<Array2D<Option<char>>>)
    ensures
        r is Some == same_lengths(rows@),
        r matches Some(g) ==> label_rows(g) == rows@.map_values(|v: Vec<Option<char>>| v@),
        r matches Some(g) ==> label_width(g) == (if rows@.len() == 0 {
            0
        } else {
            rows@[0]@.len()
        }),
        r matches Some(g) ==> label_rows(g).len() * label_width(g) <= usize::MAX,
{
    Array2D::from_rows(rows.as_slice()).ok()
}

} // verus!
