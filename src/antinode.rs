//! The enumerator of labelled cells and the two antinode locators.
use array2d::Array2D;
use vstd::prelude::*;
use crate::coord::{along, Coord};
use crate::grid::{
    flag_at, flag_nc, flag_nr, flag_size_fits, flag_wf, flags_filled, flags_set, in_bounds, label_at,
    label_nc, label_nr, label_size_fits, labels_get, labels_num_columns, labels_num_rows,
};

verus! {

/// A labelled cell: its position and its frequency label.
#[derive(Clone, Copy, Debug, PartialEq, Eq)]
pub struct FrequencyPoint {
    pub pos: Coord,
    pub label: char,
}

/// `p` comes strictly before `q` in row-major order.
pub open spec fn before(p: (int, int), q: (int, int)) -> bool {
    p.0 < q.0 || (p.0 == q.0 && p.1 < q.1)
}

/// Cell `p` lies in the grid and carries a label.
pub open spec fn occupied(a: Array2D<Option<char>>, p: (int, int)) -> bool {
    in_bounds(p, label_nr(a), label_nc(a)) && label_at(a, p) is Some
}

/// `fs` lists, in row-major order, exactly the labelled cells of `a` with
/// their labels.
pub open spec fn lists_frequencies(a: Array2D<Option<char>>, fs: Seq<FrequencyPoint>) -> bool {
    &&& forall|k: int|
        0 <= k < fs.len() ==> in_bounds((#[trigger] fs[k]).pos@, label_nr(a), label_nc(a))
            && label_at(a, fs[k].pos@) == Some(fs[k].label)
    &&& forall|k1: int, k2: int|
        0 <= k1 < k2 < fs.len() ==> before(#[trigger] fs[k1].pos@, #[trigger] fs[k2].pos@)
    &&& forall|p: (int, int)|
        #[trigger] occupied(a, p) ==> exists|k: int| 0 <= k < fs.len() && (#[trigger] fs[k]).pos@ == p
}

/// Two distinct cells of `a` that carry the same label.
pub open spec fn matching_pair(a: Array2D<Option<char>>, p: (int, int), q: (int, int)) -> bool {
    &&& in_bounds(p, label_nr(a), label_nc(a))
    &&& in_bounds(q, label_nr(a), label_nc(a))
    &&& p != q
    &&& label_at(a, p) is Some
    &&& label_at(a, p) == label_at(a, q)
}

/// `x` is one of the two reflections of the pair `p`, `q`: `2p - q` or `2q - p`.
pub open spec fn basic_marks(p: (int, int), q: (int, int), x: (int, int)) -> bool {
    x == along(p, q, 1) || x == along(q, p, 1)
}

/// `x` lies on the line through `p` and `q` at a whole multiple of their
/// separation: `p * (k + 1) - q * k` or `q * (k + 1) - p * k` for some `k >= 0`.
pub open spec fn harmonic_marks(p: (int, int), q: (int, int), x: (int, int)) -> bool {
    exists|k: nat| #[trigger] along_either(p, q, k as int, x)
}

/// `x` is the `k`-th point out from `p` or from `q` along their line.
pub open spec fn along_either(p: (int, int), q: (int, int), k: int, x: (int, int)) -> bool {
    x == along(p, q, k) || x == along(q, p, k)
}

/// The pair `p`, `q` produces an antinode at `x` under the chosen rule.
pub open spec fn pair_marks(harmonic: bool, p: (int, int), q: (int, int), x: (int, int)) -> bool {
    if harmonic {
        harmonic_marks(p, q, x)
    } else {
        basic_marks(p, q, x)
    }
}

/// `x` is a cell of `a` at which some matching pair produces an antinode
/// under the chosen rule.
pub open spec fn is_antinode(a: Array2D<Option<char>>, harmonic: bool, x: (int, int)) -> bool {
    &&& in_bounds(x, label_nr(a), label_nc(a))
    &&& exists|p: (int, int), q: (int, int)|
        #[trigger] matching_pair(a, p, q) && pair_marks(harmonic, p, q, x)
}

/// `out` has the dimensions of `a` and is true exactly at the antinodes of
/// `a` under the chosen rule.
pub open spec fn antinode_grid(a: Array2D<Option<char>>, harmonic: bool, out: Array2D<bool>) -> bool {
    &&& flag_nr(out) == label_nr(a)
    &&& flag_nc(out) == label_nc(a)
    &&& flag_wf(out)
    &&& (label_size_fits(a) ==> flag_size_fits(out))
    &&& forall|x: (int, int)|
        in_bounds(x, label_nr(a), label_nc(a)) ==> #[trigger] flag_at(out, x) == is_antinode(a, harmonic, x)
}

/// The pair of list entries `i0 < j0` has equal labels and marks `x`.
pub open spec fn hit(fs: Seq<FrequencyPoint>, harmonic: bool, i0: int, j0: int, x: (int, int)) -> bool {
    &&& 0 <= i0 < j0 < fs.len()
    &&& fs[i0].label == fs[j0].label
    &&& pair_marks(harmonic, fs[i0].pos@, fs[j0].pos@, x)
}

/// Some pair of list entries that comes before `(i, j)` marks `x`.
pub open spec fn hit_before(fs: Seq<FrequencyPoint>, harmonic: bool, i: int, j: int, x: (int, int)) -> bool {
    exists|i0: int, j0: int| (i0 < i || (i0 == i && j0 < j)) && #[trigger] hit(fs, harmonic, i0, j0, x)
}

/// Every labelled cell of `a`, with its label, in row-major order.
/// The last element of `s.push(v)` is `v`, and the others are those of `s`.
proof fn lemma_push_last<T>(s: Seq<T>, v: T)
    ensures
        s.push(v).len() == s.len() + 1,
        s.push(v)[s.len() as int] == v,
        forall|k: int| 0 <= k < s.len() ==> #[trigger] s.push(v)[k] == s[k],
{
}

pub fn frequency_points(a: &Array2D<Option<char>>) -> (fs: Vec<FrequencyPoint>)
    ensures
        lists_frequencies(*a, fs@),
{
    let nr = labels_num_rows(a);
    let nc = labels_num_columns(a);
    let mut points: Vec<FrequencyPoint> = Vec::new();
    let mut r: usize = 0;
    while r < nr
        invariant
            nr == label_nr(*a),
            nc == label_nc(*a),
            r <= nr,
            forall|k: int|
                0 <= k < points.len() ==> in_bounds((#[trigger] points@[k]).pos@, nr as int, nc as int)
                    && label_at(*a, points@[k].pos@) == Some(points@[k].label)
                    && points@[k].pos.row < r,
            forall|k1: int, k2: int|
                0 <= k1 < k2 < points.len() ==> before(#[trigger] points@[k1].pos@, #[trigger] points@[k2].pos@),
            forall|p: (int, int)|
                #[trigger] occupied(*a, p) && p.0 < r ==> exists|k: int|
                    0 <= k < points.len() && (#[trigger] points@[k]).pos@ == p,
        decreases nr - r,
    {
        let mut c: usize = 0;
        while c < nc
            invariant
                nr == label_nr(*a),
                nc == label_nc(*a),
                r < nr,
                c <= nc,
                forall|k: int|
                    0 <= k < points.len() ==> in_bounds((#[trigger] points@[k]).pos@, nr as int, nc as int)
                        && label_at(*a, points@[k].pos@) == Some(points@[k].label)
                        && before(points@[k].pos@, (r as int, c as int)),
                forall|k1: int, k2: int|
                    0 <= k1 < k2 < points.len() ==> before(#[trigger] points@[k1].pos@, #[trigger] points@[k2].pos@),
                forall|p: (int, int)|
                    #[trigger] occupied(*a, p) && before(p, (r as int, c as int)) ==> exists|k: int|
                        0 <= k < points.len() && (#[trigger] points@[k]).pos@ == p,
            decreases nc - c,
        {
            let ghost prev = points@;
            let got = labels_get(a, r, c);
            let cell: Option<char> = match got {
                Some(cell) => cell,
                None => None,
            };
            if cell.is_some() {
                let pt = FrequencyPoint { pos: Coord { row: r, col: c }, label: cell.unwrap() };
                points.push(pt);
                assert(points@ == prev.push(pt));
                proof {
                    lemma_push_last(prev, pt);
                }
            } else {
                assert(points@ == prev);
            }
            assert(got == Some(label_at(*a, (r as int, c as int))));
            proof {
                let here = (r as int, c as int);
                assert forall|p: (int, int)|
                    #[trigger] occupied(*a, p) && before(p, (r as int, c + 1)) implies exists|k: int|
                        0 <= k < points.len() && (#[trigger] points@[k]).pos@ == p by {
                    if before(p, here) {
                        let k = choose|k: int| 0 <= k < prev.len() && (#[trigger] prev[k]).pos@ == p;
                        assert(points@[k] == prev[k]);
                    } else {
                        assert(p == here);
                        assert(points@[prev.len() as int].pos@ == p);
                    }
                }
            }
            c += 1;
        }
        r += 1;
    }
    points
}


/// `x` is one of the first `k` points out from `p` or from `q` along their line.
pub open spec fn along_within(p: (int, int), q: (int, int), k: int, x: (int, int)) -> bool {
    exists|t: nat| t < k && #[trigger] along_either(p, q, t as int, x)
}

/// A point between `a` and `a + t * d` on a line stays within `[0, n)`
/// when both ends do.
proof fn lemma_between_scalar(a: int, d: int, n: int, k: int, t: int)
    requires
        0 <= a < n,
        0 <= k <= t,
        0 <= a + t * d < n,
    ensures
        0 <= a + k * d < n,
{
    if d >= 0 {
        assert(0 <= k * d <= t * d) by (nonlinear_arith)
            requires d >= 0, 0 <= k <= t;
    } else {
        assert(t * d <= k * d <= 0) by (nonlinear_arith)
            requires d < 0, 0 <= k <= t;
    }
}

/// Within `[0, n)` a non-zero step `d` can be taken fewer than `n` times.
proof fn lemma_steps_scalar(a: int, d: int, n: int, k: int)
    requires
        0 <= a < n,
        0 <= k,
        d != 0,
        0 <= a + k * d < n,
    ensures
        k < n,
{
    if d > 0 {
        assert(k <= k * d) by (nonlinear_arith)
            requires d >= 1, k >= 0;
    } else {
        assert(k <= -(k * d)) by (nonlinear_arith)
            requires d <= -1, k >= 0;
    }
}

/// Once the `k`-th point out from `p` leaves the grid, every later one has
/// left it too.
proof fn lemma_along_leaves(p: (int, int), q: (int, int), k: int, t: int, nr: int, nc: int)
    requires
        in_bounds(p, nr, nc),
        0 <= k <= t,
        in_bounds(along(p, q, t), nr, nc),
    ensures
        in_bounds(along(p, q, k), nr, nc),
{
    lemma_between_scalar(p.0, p.0 - q.0, nr, k, t);
    lemma_between_scalar(p.1, p.1 - q.1, nc, k, t);
}

/// The `k`-th point out from `p`, for `p != q`, is in the grid only for
/// `k` below the larger side of the grid.
proof fn lemma_along_bounded(p: (int, int), q: (int, int), k: int, nr: int, nc: int)
    requires
        in_bounds(p, nr, nc),
        p != q,
        0 <= k,
        in_bounds(along(p, q, k), nr, nc),
    ensures
        k < nr || k < nc,
{
    if p.0 != q.0 {
        lemma_steps_scalar(p.0, p.0 - q.0, nr, k);
    } else {
        lemma_steps_scalar(p.1, p.1 - q.1, nc, k);
    }
}

/// The points out from `p` and `q` within the grid are exactly those before
/// the first step at which both sides have left it.
proof fn lemma_along_complete(p: (int, int), q: (int, int), k: int, nr: int, nc: int)
    requires
        in_bounds(p, nr, nc),
        in_bounds(q, nr, nc),
        0 <= k,
        !in_bounds(along(p, q, k), nr, nc),
        !in_bounds(along(q, p, k), nr, nc),
    ensures
        forall|x: (int, int)|
            in_bounds(x, nr, nc) ==> (harmonic_marks(p, q, x) <==> along_within(p, q, k, x)),
{
    assert forall|x: (int, int)| in_bounds(x, nr, nc) && harmonic_marks(p, q, x) implies along_within(
        p,
        q,
        k,
        x,
    ) by {
        let t = choose|t: nat| #[trigger] along_either(p, q, t as int, x);
        if t >= k {
            if x == along(p, q, t as int) {
                lemma_along_leaves(p, q, k, t as int, nr, nc);
            } else {
                lemma_along_leaves(q, p, k, t as int, nr, nc);
            }
        }
    }
}

/// Taking one more step adds exactly the points at that step.
proof fn lemma_along_within_step(p: (int, int), q: (int, int), k: int, x: (int, int))
    requires
        0 <= k,
    ensures
        along_within(p, q, k + 1, x) == (along_within(p, q, k, x) || along_either(p, q, k, x)),
{
    if along_either(p, q, k, x) {
        let t: nat = k as nat;
        assert(t < k + 1 && along_either(p, q, t as int, x));
    }
    if along_within(p, q, k + 1, x) && !along_either(p, q, k, x) {
        let t = choose|t: nat| t < k + 1 && #[trigger] along_either(p, q, t as int, x);
        assert(t < k);
    }
}

/// Adding the pair `(i, j)` to those before it.
proof fn lemma_hit_step(fs: Seq<FrequencyPoint>, harmonic: bool, i: int, j: int, x: (int, int))
    requires
        0 <= i < j,
    ensures
        hit_before(fs, harmonic, i, j + 1, x) == (hit_before(fs, harmonic, i, j, x) || hit(
            fs,
            harmonic,
            i,
            j,
            x,
        )),
{
    if hit_before(fs, harmonic, i, j + 1, x) {
        let (i0, j0) = choose|i0: int, j0: int|
            (i0 < i || (i0 == i && j0 < j + 1)) && #[trigger] hit(fs, harmonic, i0, j0, x);
        if !(i0 == i && j0 == j) {
            assert(hit_before(fs, harmonic, i, j, x));
        }
    }
}

/// Finishing the pairs that start at entry `i`.
proof fn lemma_hit_row(fs: Seq<FrequencyPoint>, harmonic: bool, i: int, x: (int, int))
    requires
        0 <= i,
    ensures
        hit_before(fs, harmonic, i, fs.len() as int, x) == hit_before(fs, harmonic, i + 1, i + 2, x),
{
    if hit_before(fs, harmonic, i + 1, i + 2, x) {
        let (i0, j0) = choose|i0: int, j0: int|
            (i0 < i + 1 || (i0 == i + 1 && j0 < i + 2)) && #[trigger] hit(fs, harmonic, i0, j0, x);
        assert(i0 < i || (i0 == i && j0 < fs.len()));
    }
}

/// The rule is symmetric in the two cells of a pair.
pub proof fn lemma_pair_marks_symmetric(harmonic: bool, p: (int, int), q: (int, int), x: (int, int))
    ensures
        pair_marks(harmonic, p, q, x) == pair_marks(harmonic, q, p, x),
{
    if harmonic {
        if harmonic_marks(p, q, x) {
            let k = choose|k: nat| #[trigger] along_either(p, q, k as int, x);
            assert(along_either(q, p, k as int, x));
        }
        if harmonic_marks(q, p, x) {
            let k = choose|k: nat| #[trigger] along_either(q, p, k as int, x);
            assert(along_either(p, q, k as int, x));
        }
    }
}

/// Over a complete list of labelled cells, the pairs of entries mark
/// exactly the antinodes.
proof fn lemma_hits_are_antinodes(a: Array2D<Option<char>>, fs: Seq<FrequencyPoint>, harmonic: bool)
    requires
        lists_frequencies(a, fs),
    ensures
        forall|x: (int, int)|
            in_bounds(x, label_nr(a), label_nc(a)) ==> (hit_before(
                fs,
                harmonic,
                fs.len() as int,
                fs.len() as int + 1,
                x,
            ) <==> is_antinode(a, harmonic, x)),
{
    let n = fs.len() as int;
    assert forall|x: (int, int)| in_bounds(x, label_nr(a), label_nc(a)) implies (hit_before(
        fs,
        harmonic,
        n,
        n + 1,
        x,
    ) <==> is_antinode(a, harmonic, x)) by {
        if hit_before(fs, harmonic, n, n + 1, x) {
            let (i0, j0) = choose|i0: int, j0: int|
                (i0 < n || (i0 == n && j0 < n + 1)) && #[trigger] hit(fs, harmonic, i0, j0, x);
            let p = fs[i0].pos@;
            let q = fs[j0].pos@;
            assert(before(fs[i0].pos@, fs[j0].pos@));
            assert(matching_pair(a, p, q));
        }
        if is_antinode(a, harmonic, x) {
            let (p, q) = choose|p: (int, int), q: (int, int)|
                #[trigger] matching_pair(a, p, q) && pair_marks(harmonic, p, q, x);
            assert(occupied(a, p));
            assert(occupied(a, q));
            let ip = choose|k: int| 0 <= k < n && (#[trigger] fs[k]).pos@ == p;
            let iq = choose|k: int| 0 <= k < n && (#[trigger] fs[k]).pos@ == q;
            lemma_pair_marks_symmetric(harmonic, p, q, x);
            if ip < iq {
                assert(hit(fs, harmonic, ip, iq, x));
            } else {
                assert(hit(fs, harmonic, iq, ip, x));
            }
        }
    }
}

/// Sets the flag at `p` when `p` names a cell of `out`, and reports whether
/// it did.
fn mark(out: &mut Array2D<bool>, p: Option<Coord>) -> (added: bool)
    requires
        flag_wf(*old(out)),
    ensures
        added == (p matches Some(c) && in_bounds(c@, flag_nr(*old(out)), flag_nc(*old(out)))),
        flag_nr(*final(out)) == flag_nr(*old(out)),
        flag_nc(*final(out)) == flag_nc(*old(out)),
        flag_wf(*final(out)),
        forall|x: (int, int)|
            in_bounds(x, flag_nr(*old(out)), flag_nc(*old(out))) ==> #[trigger] flag_at(*final(out), x)
                == (flag_at(*old(out), x) || (added && x == p->Some_0@)),
{
    match p {
        Some(c) => flags_set(out, c.row, c.col, true),
        None => false,
    }
}

/// The basic locator: marks the two reflections `2a - b` and `2b - a` of
/// every pair of distinct cells `a`, `b` with equal labels, where they fall
/// in the grid.
pub fn find_antinodes(a: &Array2D<Option<char>>) -> (out: Array2D<bool>)
    requires
        label_size_fits(*a),
    ensures
        antinode_grid(*a, false, out),
{
    let nr = labels_num_rows(a);
    let nc = labels_num_columns(a);
    let mut antinodes = flags_filled(false, nr, nc);
    let frequencies = frequency_points(a);
    let ghost fs = frequencies@;
    let n = frequencies.len();
    proof {
        lemma_hits_are_antinodes(*a, fs, false);
    }
    if n <= 1 {
        return antinodes;
    }
    let mut i: usize = 0;
    while i < n - 1
        invariant
            fs == frequencies@,
            n == fs.len(),
            n >= 2,
            i <= n - 1,
            nr == label_nr(*a),
            nc == label_nc(*a),
            flag_nr(antinodes) == nr,
            flag_nc(antinodes) == nc,
            flag_wf(antinodes),
            forall|x: (int, int)|
                in_bounds(x, nr as int, nc as int) ==> #[trigger] flag_at(antinodes, x)
                    == hit_before(fs, false, i as int, i + 1, x),
        decreases n - i,
    {
        let f1 = frequencies[i];
        let mut j: usize = i + 1;
        while j < n
            invariant
                fs == frequencies@,
                n == fs.len(),
                i < j <= n,
                f1 == fs[i as int],
                flag_nr(antinodes) == nr,
                flag_nc(antinodes) == nc,
                flag_wf(antinodes),
                forall|x: (int, int)|
                    in_bounds(x, nr as int, nc as int) ==> #[trigger] flag_at(antinodes, x)
                        == hit_before(fs, false, i as int, j as int, x),
            decreases n - j,
        {
            let f2 = frequencies[j];
            let ghost prev = antinodes;
            if f1.label == f2.label {
                let pa = f1.pos;
                let pb = f2.pos;
                mark(&mut antinodes, pa.along(&pb, 1));
                mark(&mut antinodes, pb.along(&pa, 1));
            }
            proof {
                assert forall|x: (int, int)| in_bounds(x, nr as int, nc as int) implies #[trigger] flag_at(
                    antinodes,
                    x,
                ) == hit_before(fs, false, i as int, j + 1, x) by {
                    lemma_hit_step(fs, false, i as int, j as int, x);
                }
            }
            j += 1;
        }
        proof {
            assert forall|x: (int, int)| in_bounds(x, nr as int, nc as int) implies #[trigger] flag_at(
                antinodes,
                x,
            ) == hit_before(fs, false, i + 1, i + 2, x) by {
                lemma_hit_row(fs, false, i as int, x);
            }
        }
        i += 1;
    }
    proof {
        assert forall|x: (int, int)| in_bounds(x, nr as int, nc as int) implies #[trigger] flag_at(
            antinodes,
            x,
        ) == is_antinode(*a, false, x) by {
            lemma_hit_row(fs, false, i as int, x);
        }
    }
    antinodes
}

/// The harmonic locator: for every pair of distinct cells `a`, `b` with
/// equal labels, marks every cell `a * (h + 1) - b * h` and
/// `b * (h + 1) - a * h`, `h = 0, 1, 2, ...`, that falls in the grid.
pub fn find_antinodes_harmonics(a: &Array2D<Option<char>>) -> (out: Array2D<bool>)
    requires
        label_size_fits(*a),
    ensures
        antinode_grid(*a, true, out),
{
    let nr = labels_num_rows(a);
    let nc = labels_num_columns(a);
    let mut antinodes = flags_filled(false, nr, nc);
    let frequencies = frequency_points(a);
    let ghost fs = frequencies@;
    let n = frequencies.len();
    proof {
        lemma_hits_are_antinodes(*a, fs, true);
    }
    if n <= 1 {
        return antinodes;
    }
    let mut i: usize = 0;
    while i < n - 1
        invariant
            fs == frequencies@,
            n == fs.len(),
            n >= 2,
            i <= n - 1,
            nr == label_nr(*a),
            nc == label_nc(*a),
            lists_frequencies(*a, fs),
            flag_nr(antinodes) == nr,
            flag_nc(antinodes) == nc,
            flag_wf(antinodes),
            forall|x: (int, int)|
                in_bounds(x, nr as int, nc as int) ==> #[trigger] flag_at(antinodes, x)
                    == hit_before(fs, true, i as int, i + 1, x),
        decreases n - i,
    {
        let f1 = frequencies[i];
        let mut j: usize = i + 1;
        while j < n
            invariant
                fs == frequencies@,
                n == fs.len(),
                i < j <= n,
                f1 == fs[i as int],
                nr == label_nr(*a),
                nc == label_nc(*a),
                lists_frequencies(*a, fs),
                flag_nr(antinodes) == nr,
                flag_nc(antinodes) == nc,
                flag_wf(antinodes),
                forall|x: (int, int)|
                    in_bounds(x, nr as int, nc as int) ==> #[trigger] flag_at(antinodes, x)
                        == hit_before(fs, true, i as int, j as int, x),
            decreases n - j,
        {
            let f2 = frequencies[j];
            if f1.label == f2.label {
                let pa = f1.pos;
                let pb = f2.pos;
                assert(before(fs[i as int].pos@, fs[j as int].pos@));
                let mut harmonic: usize = 0;
                loop
                    invariant_except_break
                        forall|x: (int, int)|
                            in_bounds(x, nr as int, nc as int) ==> #[trigger] flag_at(antinodes, x)
                                == (hit_before(fs, true, i as int, j as int, x) || along_within(
                                pa@,
                                pb@,
                                harmonic as int,
                                x,
                            )),
                    invariant
                        flag_nr(antinodes) == nr,
                        flag_nc(antinodes) == nc,
                        flag_wf(antinodes),
                        in_bounds(pa@, nr as int, nc as int),
                        in_bounds(pb@, nr as int, nc as int),
                        pa@ != pb@,
                    ensures
                        forall|x: (int, int)|
                            in_bounds(x, nr as int, nc as int) ==> #[trigger] flag_at(antinodes, x)
                                == (hit_before(fs, true, i as int, j as int, x) || harmonic_marks(
                                pa@,
                                pb@,
                                x,
                            )),
                    decreases nr + nc - harmonic,
                {
                    let ghost prev = antinodes;
                    let added_a = mark(&mut antinodes, pa.along(&pb, harmonic));
                    let added_b = mark(&mut antinodes, pb.along(&pa, harmonic));
                    proof {
                        assert forall|x: (int, int)| in_bounds(x, nr as int, nc as int) implies #[trigger] flag_at(
                            antinodes,
                            x,
                        ) == (hit_before(fs, true, i as int, j as int, x) || along_within(
                            pa@,
                            pb@,
                            harmonic + 1,
                            x,
                        )) by {
                            lemma_along_within_step(pa@, pb@, harmonic as int, x);
                        }
                    }
                    if !(added_a || added_b) {
                        proof {
                            lemma_along_complete(pa@, pb@, harmonic as int, nr as int, nc as int);
                            assert forall|x: (int, int)| in_bounds(x, nr as int, nc as int) implies #[trigger] flag_at(
                                antinodes,
                                x,
                            ) == (hit_before(fs, true, i as int, j as int, x) || harmonic_marks(
                                pa@,
                                pb@,
                                x,
                            )) by {
                                lemma_along_within_step(pa@, pb@, harmonic as int, x);
                            }
                        }
                        break;
                    }
                    proof {
                        if added_a {
                            lemma_along_bounded(pa@, pb@, harmonic as int, nr as int, nc as int);
                        } else {
                            lemma_along_bounded(pb@, pa@, harmonic as int, nr as int, nc as int);
                        }
                    }
                    harmonic += 1;
                }
            }
            proof {
                assert forall|x: (int, int)| in_bounds(x, nr as int, nc as int) implies #[trigger] flag_at(
                    antinodes,
                    x,
                ) == hit_before(fs, true, i as int, j + 1, x) by {
                    lemma_hit_step(fs, true, i as int, j as int, x);
                }
            }
            j += 1;
        }
        proof {
            assert forall|x: (int, int)| in_bounds(x, nr as int, nc as int) implies #[trigger] flag_at(
                antinodes,
                x,
            ) == hit_before(fs, true, i + 1, i + 2, x) by {
                lemma_hit_row(fs, true, i as int, x);
            }
        }
        i += 1;
    }
    proof {
        assert forall|x: (int, int)| in_bounds(x, nr as int, nc as int) implies #[trigger] flag_at(
            antinodes,
            x,
        ) == is_antinode(*a, true, x) by {
            lemma_hit_row(fs, true, i as int, x);
        }
    }
    antinodes
}

} // verus!
