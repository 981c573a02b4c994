//! Counting the marked cells of a flag grid.
use array2d::Array2D;
use vstd::prelude::*;
use crate::grid::{flag_rows, flag_size_fits, flag_wf, flag_width, flags_get, flags_num_columns, flags_num_rows};

verus! {

/// Number of `true` cells in a row.
pub open spec fn row_count(s: Seq<bool>) -> nat
    decreases s.len(),
{
    if s.len() == 0 {
        0
    } else {
        row_count(s.drop_last()) + if s.last() {
            1nat
        } else {
            0nat
        }
    }
}

/// Number of `true` cells over all rows.
pub open spec fn grid_count(rows: Seq<Seq<bool>>) -> nat
    decreases rows.len(),
{
    if rows.len() == 0 {
        0
    } else {
        grid_count(rows.drop_last()) + row_count(rows.last())
    }
}

/// Number of marked cells of a flag grid.
pub open spec fn marked_count(a: Array2D<bool>) -> nat {
    grid_count(flag_rows(a))
}

/// A row has no more `true` cells than cells.
pub proof fn lemma_row_count_bound(s: Seq<bool>)
    ensures
        row_count(s) <= s.len(),
    decreases s.len(),
{
    if s.len() > 0 {
        lemma_row_count_bound(s.drop_last());
    }
}

/// Rows of `width` cells hold at most `rows.len() * width` `true` cells.
pub proof fn lemma_grid_count_bound(rows: Seq<Seq<bool>>, width: nat)
    requires
        forall|i: int| 0 <= i < rows.len() ==> (#[trigger] rows[i]).len() == width,
    ensures
        grid_count(rows) <= rows.len() * width,
    decreases rows.len(),
{
    if rows.len() > 0 {
        lemma_grid_count_bound(rows.drop_last(), width);
        lemma_row_count_bound(rows.last());
        assert((rows.len() - 1) * width + width == rows.len() * width) by (nonlinear_arith);
    }
}

/// A row that is `true` wherever another of the same length is has at least
/// as many `true` cells.
pub proof fn lemma_row_count_mono(s: Seq<bool>, t: Seq<bool>)
    requires
        s.len() == t.len(),
        forall|i: int| 0 <= i < s.len() && #[trigger] s[i] ==> t[i],
    ensures
        row_count(s) <= row_count(t),
    decreases s.len(),
{
    if s.len() > 0 {
        lemma_row_count_mono(s.drop_last(), t.drop_last());
    }
}

/// Cellwise implication between two grids of the same shape bounds their
/// counts.
pub proof fn lemma_grid_count_mono(r: Seq<Seq<bool>>, t: Seq<Seq<bool>>)
    requires
        r.len() == t.len(),
        forall|i: int| 0 <= i < r.len() ==> (#[trigger] r[i]).len() == t[i].len(),
        forall|i: int, j: int| 0 <= i < r.len() && 0 <= j < r[i].len() && #[trigger] r[i][j] ==> t[i][j],
    ensures
        grid_count(r) <= grid_count(t),
    decreases r.len(),
{
    if r.len() > 0 {
        let n = r.len() - 1;
        assert forall|j: int| 0 <= j < r.last().len() && #[trigger] r.last()[j] implies t.last()[j] by {
            assert(r[n as int][j]);
        }
        lemma_row_count_mono(r.last(), t.last());
        lemma_grid_count_mono(r.drop_last(), t.drop_last());
    }
}

/// The number of marked cells of a rectangular flag grid.
pub fn count_marked(a: &Array2D<bool>) -> (n: usize)
    requires
        flag_wf(*a),
        flag_size_fits(*a),
    ensures
        n == marked_count(*a),
{
    let nr = flags_num_rows(a);
    let nc = flags_num_columns(a);
    let ghost rows = flag_rows(*a);
    let mut n: usize = 0;
    let mut r: usize = 0;
    while r < nr
        invariant
            rows == flag_rows(*a),
            flag_wf(*a),
            nr == rows.len(),
            nc == flag_width(*a),
            nr * nc <= usize::MAX,
            r <= nr,
            n == grid_count(rows.take(r as int)),
        decreases nr - r,
    {
        let ghost row = rows[r as int];
        let mut c: usize = 0;
        let mut in_row: usize = 0;
        proof {
            lemma_grid_count_bound(rows.take(r as int), nc as nat);
            assert(row.take(0) =~= Seq::<bool>::empty());
        }
        while c < nc
            invariant
                rows == flag_rows(*a),
                flag_wf(*a),
                row == rows[r as int],
                nr == rows.len(),
                nc == flag_width(*a),
                r < nr,
                c <= nc,
                in_row == row_count(row.take(c as int)),
                in_row <= c,
            decreases nc - c,
        {
            let cell = flags_get(a, r, c);
            assert(row.take(c + 1).drop_last() =~= row.take(c as int));
            if cell == Some(true) {
                in_row += 1;
            }
            c += 1;
        }
        assert(row.take(nc as int) =~= row);
        assert(rows.take(r + 1).drop_last() =~= rows.take(r as int));
        assert(r * nc + nc <= nr * nc) by (nonlinear_arith)
            requires r < nr;
        n += in_row;
        r += 1;
    }
    assert(rows.take(nr as int) =~= rows);
    n
}

} // verus!
