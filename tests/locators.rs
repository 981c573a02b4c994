use antinodes::antinode::{find_antinodes, find_antinodes_harmonics, frequency_points, FrequencyPoint};
use antinodes::coord::{along_checked, Coord};
use antinodes::count::count_marked;
use antinodes::text::{cell_label, label_grid, render_flags, render_labels};
use array2d::Array2D;

fn grid(text: &str) -> Array2D<Option<char>> {
    let lines: Vec<Vec<char>> = text.lines().map(|l| l.chars().collect()).collect();
    label_grid(&lines).expect("rectangular grid")
}

fn marked(a: &Array2D<bool>) -> Vec<(usize, usize)> {
    let mut v = Vec::new();
    for r in 0..a.num_rows() {
        for c in 0..a.num_columns() {
            if a[(r, c)] {
                v.push((r, c));
            }
        }
    }
    v
}

const EXAMPLE: &str = "............\n\
........0...\n\
.....0......\n\
.......0....\n\
....0.......\n\
......A.....\n\
............\n\
............\n\
........A...\n\
.........A..\n\
............\n\
............\n";

#[test]
fn scenario_basic_minimal() {
    let g = grid(".....\n...#.\n..#..\n.....\n");
    let out = find_antinodes(&g);
    assert_eq!(out.num_rows(), 4);
    assert_eq!(out.num_columns(), 5);
    assert_eq!(marked(&out), vec![(0, 4), (3, 1)]);
    assert_eq!(count_marked(&out), 2);
}

#[test]
fn scenario_basic_out_of_bounds_discard() {
    let g = grid("#..\n.#.\n...\n");
    let out = find_antinodes(&g);
    assert_eq!(marked(&out), vec![(2, 2)]);
    assert_eq!(count_marked(&out), 1);
}

#[test]
fn scenario_harmonic_collinear_triple() {
    let g = grid("A.A.A..\n");
    let basic = find_antinodes(&g);
    let harmonic = find_antinodes_harmonics(&g);
    assert_eq!(marked(&basic), vec![(0, 0), (0, 4), (0, 6)]);
    assert_eq!(marked(&harmonic), vec![(0, 0), (0, 2), (0, 4), (0, 6)]);
    assert!(count_marked(&harmonic) > count_marked(&basic));
}

#[test]
fn scenario_no_matches() {
    let g = grid("a.b\n.c.\nd.e\n");
    let basic = find_antinodes(&g);
    let harmonic = find_antinodes_harmonics(&g);
    assert!(marked(&basic).is_empty());
    assert!(marked(&harmonic).is_empty());
    assert_eq!(count_marked(&basic), 0);
    assert_eq!(count_marked(&harmonic), 0);
}

#[test]
fn example_counts() {
    let g = grid(EXAMPLE);
    assert_eq!(count_marked(&find_antinodes(&g)), 14);
    assert_eq!(count_marked(&find_antinodes_harmonics(&g)), 34);
}

#[test]
fn harmonic_three_towers() {
    let g = grid("T.........\n...T......\n.T........\n..........\n..........\n..........\n..........\n..........\n..........\n..........\n");
    assert_eq!(count_marked(&find_antinodes_harmonics(&g)), 9);
}

#[test]
fn running_twice_gives_the_same_grid() {
    let g = grid(EXAMPLE);
    assert_eq!(find_antinodes(&g), find_antinodes(&g));
    assert_eq!(find_antinodes_harmonics(&g), find_antinodes_harmonics(&g));
}

#[test]
fn swapping_a_pair_gives_the_same_reflections() {
    let a = Coord { row: 1, col: 3 };
    let b = Coord { row: 2, col: 2 };
    let mut ab = vec![a.along(&b, 1), b.along(&a, 1)];
    let mut ba = vec![b.along(&a, 1), a.along(&b, 1)];
    ab.sort_by_key(|c| c.map(|c| (c.row, c.col)));
    ba.sort_by_key(|c| c.map(|c| (c.row, c.col)));
    assert_eq!(ab, ba);
    assert_eq!(a.along(&b, 1), Some(Coord { row: 0, col: 4 }));
    assert_eq!(b.along(&a, 1), Some(Coord { row: 3, col: 1 }));
}

#[test]
fn harmonic_marks_the_pair_itself() {
    let g = grid(EXAMPLE);
    let out = find_antinodes_harmonics(&g);
    for p in frequency_points(&g) {
        let partners = frequency_points(&g)
            .into_iter()
            .filter(|q| q.label == p.label && q.pos != p.pos)
            .count();
        if partners > 0 {
            assert!(out[(p.pos.row, p.pos.col)]);
        }
    }
}

#[test]
fn basic_marks_are_harmonic_marks() {
    for text in [EXAMPLE, "A.A.A..\n", ".....\n...#.\n..#..\n.....\n", "#..\n.#.\n...\n"] {
        let g = grid(text);
        let basic = find_antinodes(&g);
        let harmonic = find_antinodes_harmonics(&g);
        for (r, c) in marked(&basic) {
            assert!(harmonic[(r, c)]);
        }
        assert!(count_marked(&harmonic) >= count_marked(&basic));
    }
}

#[test]
fn results_have_the_grid_dimensions() {
    let g = grid("a..\n..a\n");
    for out in [find_antinodes(&g), find_antinodes_harmonics(&g)] {
        assert_eq!(out.num_rows(), 2);
        assert_eq!(out.num_columns(), 3);
    }
}

#[test]
fn empty_grid() {
    let g = label_grid(&Vec::new()).unwrap();
    let out = find_antinodes(&g);
    assert_eq!(out.num_rows(), 0);
    assert_eq!(count_marked(&out), 0);
    assert_eq!(count_marked(&find_antinodes_harmonics(&g)), 0);
}

#[test]
fn single_occupied_cell() {
    let g = grid("...\n.x.\n...\n");
    assert_eq!(count_marked(&find_antinodes(&g)), 0);
    assert_eq!(count_marked(&find_antinodes_harmonics(&g)), 0);
}

#[test]
fn equal_labels_on_one_column() {
    let g = grid("a\n.\na\n.\n.\n");
    assert_eq!(marked(&find_antinodes(&g)), vec![(4, 0)]);
    assert_eq!(marked(&find_antinodes_harmonics(&g)), vec![(0, 0), (2, 0), (4, 0)]);
}

#[test]
fn frequency_points_in_row_major_order() {
    let g = grid(".b.\na.c\n");
    let fs = frequency_points(&g);
    assert_eq!(
        fs,
        vec![
            FrequencyPoint { pos: Coord { row: 0, col: 1 }, label: 'b' },
            FrequencyPoint { pos: Coord { row: 1, col: 0 }, label: 'a' },
            FrequencyPoint { pos: Coord { row: 1, col: 2 }, label: 'c' },
        ]
    );
}

#[test]
fn ragged_lines_are_rejected() {
    let lines: Vec<Vec<char>> = vec!["ab".chars().collect(), "abc".chars().collect()];
    assert!(label_grid(&lines).is_none());
}

#[test]
fn cells_of_characters() {
    assert_eq!(cell_label('.'), None);
    assert_eq!(cell_label('a'), Some('a'));
    let g = grid(".a\n");
    assert_eq!(g[(0, 0)], None);
    assert_eq!(g[(0, 1)], Some('a'));
}

#[test]
fn checked_steps_along_a_line() {
    assert_eq!(along_checked(3, 1, 2), Some(7));
    assert_eq!(along_checked(1, 3, 0), Some(1));
    assert_eq!(along_checked(1, 3, 1), None);
    assert_eq!(along_checked(4, 3, 4), Some(8));
    assert_eq!(along_checked(3, 4, 3), Some(0));
    assert_eq!(along_checked(usize::MAX, 0, 1), None);
}

#[test]
fn flags_render_as_text() {
    let g = grid(".....\n...#.\n..#..\n.....\n");
    let text: String = render_flags(&find_antinodes(&g)).into_iter().collect();
    assert_eq!(text, "....#\n.....\n.....\n.#...\n");
}

#[test]
fn labels_render_as_text() {
    let text: String = render_labels(&grid(EXAMPLE)).into_iter().collect();
    assert_eq!(text, EXAMPLE);
    let empty: String = render_labels(&label_grid(&Vec::new()).unwrap()).into_iter().collect();
    assert_eq!(empty, "");
}
