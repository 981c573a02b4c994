//! Properties that relate the locators to each other and to the grid.
use array2d::Array2D;
use vstd::prelude::*;
use crate::antinode::{
    along_either, antinode_grid, basic_marks, harmonic_marks, is_antinode, lemma_pair_marks_symmetric,
    matching_pair, pair_marks,
};
use crate::count::{lemma_grid_count_mono, marked_count};
use crate::grid::{flag_at, flag_rows, flag_width, in_bounds, label_nc, label_nr};

verus! {

/// A locator is a function of its grid: two results of the same rule on
/// the same grid are the same grid of flags.
pub proof fn lemma_locator_deterministic(
    a: Array2D<Option<char>>,
    harmonic: bool,
    out1: Array2D<bool>,
    out2: Array2D<bool>,
)
    requires
        antinode_grid(a, harmonic, out1),
        antinode_grid(a, harmonic, out2),
    ensures
        flag_rows(out1) == flag_rows(out2),
        flag_width(out1) == flag_width(out2),
{
    let r1 = flag_rows(out1);
    let r2 = flag_rows(out2);
    assert forall|i: int| 0 <= i < r1.len() implies #[trigger] r1[i] == r2[i] by {
        assert forall|j: int| 0 <= j < r1[i].len() implies r1[i][j] == r2[i][j] by {
            assert(flag_at(out1, (i, j)) == flag_at(out2, (i, j)));
        }
        assert(r1[i] =~= r2[i]);
    }
    assert(r1 =~= r2);
}

/// Swapping the two cells of a pair gives the same two reflections.
pub proof fn lemma_basic_pair_symmetric(p: (int, int), q: (int, int), x: (int, int))
    ensures
        basic_marks(p, q, x) == basic_marks(q, p, x),
{
    lemma_pair_marks_symmetric(false, p, q, x);
}

/// Under the harmonic rule both cells of every matching pair are marked.
pub proof fn lemma_harmonic_marks_pair(
    a: Array2D<Option<char>>,
    out: Array2D<bool>,
    p: (int, int),
    q: (int, int),
)
    requires
        antinode_grid(a, true, out),
        matching_pair(a, p, q),
    ensures
        flag_at(out, p),
        flag_at(out, q),
{
    assert(along_either(p, q, 0, p));
    assert(harmonic_marks(p, q, p));
    assert(pair_marks(true, p, q, p));
    assert(along_either(p, q, 0, q));
    assert(harmonic_marks(p, q, q));
    assert(pair_marks(true, p, q, q));
    assert(is_antinode(a, true, p));
    assert(is_antinode(a, true, q));
}

/// Every antinode of the basic rule is one of the harmonic rule: the
/// reflections are the first harmonic step.
pub proof fn lemma_basic_within_harmonic(
    a: Array2D<Option<char>>,
    basic: Array2D<bool>,
    harmonics: Array2D<bool>,
    x: (int, int),
)
    requires
        antinode_grid(a, false, basic),
        antinode_grid(a, true, harmonics),
        in_bounds(x, label_nr(a), label_nc(a)),
        flag_at(basic, x),
    ensures
        flag_at(harmonics, x),
{
    let (p, q) = choose|p: (int, int), q: (int, int)|
        #[trigger] matching_pair(a, p, q) && pair_marks(false, p, q, x);
    assert(along_either(p, q, 1, x));
    assert(pair_marks(true, p, q, x));
}

/// A result has the grid's dimensions, and no cell of it lies outside the
/// grid; every antinode lies in the grid.
pub proof fn lemma_marks_in_bounds(a: Array2D<Option<char>>, harmonic: bool, out: Array2D<bool>)
    requires
        antinode_grid(a, harmonic, out),
    ensures
        flag_rows(out).len() == label_nr(a),
        flag_width(out) == label_nc(a),
        forall|i: int, j: int|
            0 <= i < flag_rows(out).len() && 0 <= j < flag_rows(out)[i].len() ==> in_bounds(
                (i, j),
                label_nr(a),
                label_nc(a),
            ) && #[trigger] flag_rows(out)[i][j] == is_antinode(a, harmonic, (i, j)),
        forall|x: (int, int)| #[trigger] is_antinode(a, harmonic, x) ==> in_bounds(x, label_nr(a), label_nc(a)),
{
    assert forall|i: int, j: int|
        0 <= i < flag_rows(out).len() && 0 <= j < flag_rows(out)[i].len() implies in_bounds(
        (i, j),
        label_nr(a),
        label_nc(a),
    ) && #[trigger] flag_rows(out)[i][j] == is_antinode(a, harmonic, (i, j)) by {
        assert(flag_at(out, (i, j)) == flag_rows(out)[i][j]);
    }
}

/// The harmonic rule marks at least as many cells as the basic rule.
pub proof fn lemma_harmonic_count_at_least_basic(
    a: Array2D<Option<char>>,
    basic: Array2D<bool>,
    harmonics: Array2D<bool>,
)
    requires
        antinode_grid(a, false, basic),
        antinode_grid(a, true, harmonics),
    ensures
        marked_count(basic) <= marked_count(harmonics),
{
    let rb = flag_rows(basic);
    let rh = flag_rows(harmonics);
    assert forall|i: int, j: int| 0 <= i < rb.len() && 0 <= j < rb[i].len() && #[trigger] rb[i][j] implies rh[i][j] by {
        lemma_basic_within_harmonic(a, basic, harmonics, (i, j));
    }
    lemma_grid_count_mono(rb, rh);
}

} // verus!
