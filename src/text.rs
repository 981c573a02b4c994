//! From lines of text to a label grid: `.` is an empty cell, any other
//! character labels its cell.
use array2d::Array2D;
use vstd::prelude::*;
use crate::grid::{
    flag_rows, flag_wf, flag_width, flags_get, flags_num_columns, flags_num_rows, label_rows,
    label_size_fits, label_wf, label_width, labels_from_rows, labels_get, labels_num_columns, labels_num_rows,
    same_lengths,
};

verus! {

/// The cell that character `c` stands for.
pub open spec fn cell_of(c: char) -> Option<char> {
    if c == '.' {
        None
    } else {
        Some(c)
    }
}

/// The cells of each line.
pub open spec fn cells_of(lines: Seq<Vec<char>>) -> Seq<Seq<Option<char>>> {
    lines.map_values(|l: Vec<char>| l@.map_values(|c: char| cell_of(c)))
}

/// All lines have the length of the first.
pub open spec fn rectangular_lines(lines: Seq<Vec<char>>) -> bool {
    forall|i: int| 0 <= i < lines.len() ==> (#[trigger] lines[i])@.len() == lines[0]@.len()
}

/// The cell that character `c` stands for: `None` for `.`.
pub fn cell_label(c: char) -> (r: Option<char>)
    ensures
        r == cell_of(c),
{
    if c == '.' {
        None
    } else {
        Some(c)
    }
}

/// The label grid that `lines` draw, or `None` when the lines differ in
/// length.
pub fn label_grid(lines: &Vec<Vec<char>>) -> (r: Option<Array2D<Option<char>>>)
    ensures
        r is Some == rectangular_lines(lines@),
        r matches Some(g) ==> label_rows(g) == cells_of(lines@),
        r matches Some(g) ==> label_width(g) == (if lines@.len() == 0 {
            0
        } else {
            lines@[0]@.len()
        }),
        r matches Some(g) ==> label_size_fits(g),
{
    let mut rows: Vec<Vec<Option<char>>> = Vec::new();
    let mut i: usize = 0;
    while i < lines.len()
        invariant
            i <= lines.len(),
            rows@.len() == i,
            forall|k: int| 0 <= k < i ==> (#[trigger] rows@[k])@ == cells_of(lines@)[k],
        decreases lines.len() - i,
    {
        let line = &lines[i];
        let mut row: Vec<Option<char>> = Vec::new();
        let mut j: usize = 0;
        while j < line.len()
            invariant
                j <= line.len(),
                row@.len() == j,
                forall|k: int| 0 <= k < j ==> #[trigger] row@[k] == cell_of(line@[k]),
            decreases line.len() - j,
        {
            let cell = cell_label(line[j]);
            row.push(cell);
            j += 1;
        }
        assert(row@ =~= cells_of(lines@)[i as int]);
        rows.push(row);
        i += 1;
    }
    assert(rows@.map_values(|v: Vec<Option<char>>| v@) =~= cells_of(lines@));
    assert forall|k: int| 0 <= k < rows@.len() implies (#[trigger] rows@[k])@.len() == lines@[k]@.len() by {
        assert(rows@[k]@ == cells_of(lines@)[k]);
    }
    assert(same_lengths(rows@) == rectangular_lines(lines@)) by {
        if rows@.len() > 0 {
            assert(rows@[0]@.len() == lines@[0]@.len());
            if same_lengths(rows@) {
                assert forall|k: int| 0 <= k < lines@.len() implies (#[trigger] lines@[k])@.len() == lines@[0]@.len() by {
                    assert(rows@[k]@.len() == lines@[k]@.len());
                }
            }
            if rectangular_lines(lines@) {
                assert forall|k: int| 0 <= k < rows@.len() implies (#[trigger] rows@[k])@.len() == rows@[0]@.len() by {
                    assert(lines@[k]@.len() == lines@[0]@.len());
                }
            }
        }
    }
    labels_from_rows(&rows)
}

/// Rows of characters laid out as text, each row ended by a newline.
pub open spec fn render(rows: Seq<Seq<char>>) -> Seq<char>
    decreases rows.len(),
{
    if rows.len() == 0 {
        Seq::empty()
    } else {
        render(rows.drop_last()) + rows.last() + seq!['\n']
    }
}

/// `#` for a marked cell, `.` for an unmarked one.
pub open spec fn flag_char(b: bool) -> char {
    if b {
        '#'
    } else {
        '.'
    }
}

/// The label of a cell, or `.` for an empty one.
pub open spec fn label_char(c: Option<char>) -> char {
    match c {
        Some(x) => x,
        None => '.',
    }
}

/// The text of a flag grid.
pub open spec fn flags_text(rows: Seq<Seq<bool>>) -> Seq<char> {
    render(rows.map_values(|row: Seq<bool>| row.map_values(|b: bool| flag_char(b))))
}

/// The text of a label grid.
pub open spec fn labels_text(rows: Seq<Seq<Option<char>>>) -> Seq<char> {
    render(rows.map_values(|row: Seq<Option<char>>| row.map_values(|c: Option<char>| label_char(c))))
}

/// Appending row `r` to the text of the rows before it.
proof fn lemma_render_step(rows: Seq<Seq<char>>, r: int)
    requires
        0 <= r < rows.len(),
    ensures
        render(rows.take(r + 1)) == render(rows.take(r)) + rows[r] + seq!['\n'],
{
    assert(rows.take(r + 1).drop_last() =~= rows.take(r));
}

/// A flag grid as text: `#` for a marked cell, `.` otherwise, one line per
/// row.
pub fn render_flags(a: &Array2D<bool>) -> (text: Vec<char>)
    requires
        flag_wf(*a),
    ensures
        text@ == flags_text(flag_rows(*a)),
{
    let nr = flags_num_rows(a);
    let nc = flags_num_columns(a);
    let ghost rows = flag_rows(*a).map_values(|row: Seq<bool>| row.map_values(|b: bool| flag_char(b)));
    let mut text: Vec<char> = Vec::new();
    let mut r: usize = 0;
    while r < nr
        invariant
            flag_wf(*a),
            rows == flag_rows(*a).map_values(|row: Seq<bool>| row.map_values(|b: bool| flag_char(b))),
            nr == flag_rows(*a).len(),
            nc == flag_width(*a),
            r <= nr,
            text@ == render(rows.take(r as int)),
        decreases nr - r,
    {
        let ghost start = text@;
        let mut c: usize = 0;
        while c < nc
            invariant
                flag_wf(*a),
                nr == flag_rows(*a).len(),
                nc == flag_width(*a),
                r < nr,
                c <= nc,
                rows == flag_rows(*a).map_values(|row: Seq<bool>| row.map_values(|b: bool| flag_char(b))),
                text@ == start + rows[r as int].take(c as int),
            decreases nc - c,
        {
            let cell = flags_get(a, r, c);
            let ch = if cell == Some(true) { '#' } else { '.' };
            text.push(ch);
            assert(rows[r as int].take(c + 1) =~= rows[r as int].take(c as int).push(ch));
            c += 1;
        }
        text.push('\n');
        proof {
            assert(rows[r as int].take(nc as int) =~= rows[r as int]);
            lemma_render_step(rows, r as int);
            assert(text@ =~= render(rows.take(r + 1)));
        }
        r += 1;
    }
    assert(rows.take(nr as int) =~= rows);
    text
}

/// A label grid as text: each label, or `.` for an empty cell, one line per
/// row.
pub fn render_labels(a: &Array2D<Option<char>>) -> (text: Vec<char>)
    requires
        label_wf(*a),
    ensures
        text@ == labels_text(label_rows(*a)),
{
    let nr = labels_num_rows(a);
    let nc = labels_num_columns(a);
    let ghost rows = label_rows(*a).map_values(
        |row: Seq<Option<char>>| row.map_values(|c: Option<char>| label_char(c)),
    );
    let mut text: Vec<char> = Vec::new();
    let mut r: usize = 0;
    while r < nr
        invariant
            label_wf(*a),
            rows == label_rows(*a).map_values(
                |row: Seq<Option<char>>| row.map_values(|c: Option<char>| label_char(c)),
            ),
            nr == label_rows(*a).len(),
            nc == label_width(*a),
            r <= nr,
            text@ == render(rows.take(r as int)),
        decreases nr - r,
    {
        let ghost start = text@;
        let mut c: usize = 0;
        while c < nc
            invariant
                label_wf(*a),
                nr == label_rows(*a).len(),
                nc == label_width(*a),
                r < nr,
                c <= nc,
                rows == label_rows(*a).map_values(
                    |row: Seq<Option<char>>| row.map_values(|c: Option<char>| label_char(c)),
                ),
                text@ == start + rows[r as int].take(c as int),
            decreases nc - c,
        {
            let cell = labels_get(a, r, c);
            let ch = match cell {
                Some(Some(x)) => x,
                _ => '.',
            };
            text.push(ch);
            assert(rows[r as int].take(c + 1) =~= rows[r as int].take(c as int).push(ch));
            c += 1;
        }
        text.push('\n');
        proof {
            assert(rows[r as int].take(nc as int) =~= rows[r as int]);
            lemma_render_step(rows, r as int);
            assert(text@ =~= render(rows.take(r + 1)));
        }
        r += 1;
    }
    assert(rows.take(nr as int) =~= rows);
    text
}

} // verus!
