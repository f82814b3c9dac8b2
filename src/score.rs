use vstd::prelude::*;
use std::ops::Range;
use crate::matrix::{cell_of, is_gap, lemma_gaps_unique, runs, BasicMatrix, MAX_DIM};
use crate::components::{component_areas, gaps_contiguous_areas, lemma_flat_len, positives, range_rows};

verus! {

/// The ranges `a` and `b` share at least one point.
pub open spec fn overlaps(a: Range<u16>, b: Range<u16>) -> bool {
    a.start < b.end && b.start < a.end
}

/// `s` lists non-overlapping ranges from left to right.
pub open spec fn ordered_ranges(s: Seq<Range<u16>>) -> bool {
    &&& forall|i: int| 0 <= i < s.len() ==> s[i].start <= s[i].end
    &&& forall|i: int, j: int| 0 <= i < j < s.len() ==> s[i].end <= s[j].start
}

/// `p` indexes a range of `xs` and a range of `ys` that overlap.
pub open spec fn is_intersection(xs: Seq<Range<u16>>, ys: Seq<Range<u16>>, p: (usize, usize)) -> bool {
    p.0 < xs.len() && p.1 < ys.len() && overlaps(xs[p.0 as int], ys[p.1 as int])
}

/// `p` comes before `q` when pairs are ordered by first index, then second.
pub open spec fn pair_lt(p: (usize, usize), q: (usize, usize)) -> bool {
    p.0 < q.0 || (p.0 == q.0 && p.1 < q.1)
}

/// `r` lists every index pair of an overlapping range of `xs` and range of `ys`,
/// each once, ordered by the index in `xs`, then by the index in `ys`.
pub open spec fn lists_intersections(
    xs: Seq<Range<u16>>,
    ys: Seq<Range<u16>>,
    r: Seq<(usize, usize)>,
) -> bool {
    &&& forall|p: (usize, usize)| r.contains(p) <==> is_intersection(xs, ys, p)
    &&& forall|k: int, l: int| 0 <= k < l < r.len() ==> pair_lt(r[k], r[l])
}

/// Returns every pair of indices `(i, j)` such that `xs[i]` overlaps `ys[j]`, in
/// order of `i`, then of `j`. Both lists hold ordered, non-overlapping ranges.
pub fn intersecting_ranges(xs: &[Range<u16>], ys: &[Range<u16>]) -> (r: Vec<(usize, usize)>)
    requires
        ordered_ranges(xs@),
        ordered_ranges(ys@),
    ensures
        lists_intersections(xs@, ys@, r@),
{
    let mut out: Vec<(usize, usize)> = Vec::new();
    let mut i1: usize = 0;
    let mut i2: usize = 0;
    while i1 < xs.len() && i2 < ys.len()
        invariant
            ordered_ranges(xs@),
            ordered_ranges(ys@),
            i1 <= xs.len(),
            i2 <= ys.len(),
            forall|k: int| 0 <= k < out.len() ==> is_intersection(xs@, ys@, #[trigger] out@[k]),
            forall|k: int|
                0 <= k < out.len() ==> (#[trigger] out@[k]).0 <= i1 && out@[k].1 <= i2 && (out@[k].0
                    < i1 || out@[k].1 < i2),
            forall|k: int, l: int| 0 <= k < l < out.len() ==> pair_lt(out@[k], out@[l]),
            forall|a: usize, b: usize|
                (a < i1 || b < i2) && is_intersection(xs@, ys@, (a, b)) ==> out@.contains((a, b)),
        decreases xs.len() - i1 + ys.len() - i2,
    {
        let r1 = &xs[i1];
        let r2 = &ys[i2];
        if r2.start >= r1.end {
            i1 = i1 + 1;
        } else if r1.start >= r2.end {
            i2 = i2 + 1;
        } else {
            let ghost prev = out@;
            out.push((i1, i2));
            assert(out@[out.len() - 1] == (i1, i2));
            assert(out@.contains((i1, i2)));
            assert forall|a: usize, b: usize|
                (a < i1 || b < i2) && is_intersection(xs@, ys@, (a, b)) implies out@.contains(
                (a, b),
            ) by {
                assert(prev.contains((a, b)));
                let k = choose|k: int| 0 <= k < prev.len() && prev[k] == (a, b);
                assert(out@[k] == prev[k]);
            }
            if r2.end >= r1.end {
                i1 = i1 + 1;
            } else {
                i2 = i2 + 1;
            }
        }
    }
    proof {
        assert forall|p: (usize, usize)| out@.contains(p) <==> is_intersection(xs@, ys@, p) by {
            if out@.contains(p) {
                let k = choose|k: int| 0 <= k < out.len() && out@[k] == p;
                assert(is_intersection(xs@, ys@, out@[k]));
            }
        }
    }
    out
}

/// Overlap between ranges is symmetric, so swapping the two lists swaps the
/// indices of every pair that `intersecting_ranges` reports.
pub proof fn lemma_intersections_symmetric(xs: Seq<Range<u16>>, ys: Seq<Range<u16>>)
    ensures
        forall|i: usize, j: usize|
            #[trigger] is_intersection(xs, ys, (i, j)) <==> is_intersection(ys, xs, (j, i)),
{
}

} // verus!

verus! {

/// Row `i` of column `j` is filled and row `i + 1` is empty, while some cell
/// above that is filled: the empty cells from row `i + 1` up are a covered hole.
/// Row `-1` stands for the floor under the board and counts as filled.
pub open spec fn hole_below(v: Seq<Seq<bool>>, cols: int, i: int, j: int) -> bool {
    &&& -1 <= i < v.len()
    &&& 0 <= j < cols
    &&& i == -1 || cell_of(v, cols, i, j)
    &&& !cell_of(v, cols, i + 1, j)
    &&& exists|k: int| i + 1 < k < v.len() && #[trigger] cell_of(v, cols, k, j)
}

/// Cell `(i1, j1)` is visited before `(i2, j2)` when rows are scanned from the top
/// down and each row from left to right.
pub open spec fn scanned_before(i1: int, j1: int, i2: int, j2: int) -> bool {
    i1 > i2 || (i1 == i2 && j1 < j2)
}

/// The hole above cell `(i, j)` is the first one met by the top-down scan.
pub open spec fn first_hole(v: Seq<Seq<bool>>, cols: int, i: int, j: int) -> bool {
    &&& hole_below(v, cols, i, j)
    &&& forall|i2: int, j2: int| scanned_before(i2, j2, i, j) ==> !#[trigger] hole_below(v, cols, i2, j2)
}

/// `res` spans column `j` from the lowest filled cell above row `i` to the
/// highest filled cell of the column.
pub open spec fn residue_above(v: Seq<Seq<bool>>, cols: int, i: int, j: int, res: Range<u16>) -> bool {
    &&& i < res.start < res.end <= v.len()
    &&& cell_of(v, cols, res.start as int, j)
    &&& forall|k: int| i < k < res.start ==> !#[trigger] cell_of(v, cols, k, j)
    &&& cell_of(v, cols, res.end - 1, j)
    &&& forall|k: int| res.end <= k ==> !#[trigger] cell_of(v, cols, k, j)
}

/// No column holds an empty cell under a filled one.
pub open spec fn settled(v: Seq<Seq<bool>>, cols: int) -> bool {
    forall|i1: int, i2: int, j: int|
        0 <= i1 < i2 && #[trigger] cell_of(v, cols, i2, j) ==> #[trigger] cell_of(v, cols, i1, j)
}

/// What the scan knows of column `c` once it has visited the rows from `lo` up:
/// nothing filled yet (`0..0`), or the contiguous block from the lowest filled
/// cell seen to the highest.
spec fn residue_ok(v: Seq<Seq<bool>>, cols: int, lo: int, c: int, res: Range<u16>) -> bool {
    ||| res.start == 0 && res.end == 0 && forall|k: int| lo <= k ==> !#[trigger] cell_of(v, cols, k, c)
    ||| lo <= res.start && residue_above(v, cols, res.start - 1, c, res) && (forall|k: int|
        res.start <= k < res.end ==> #[trigger] cell_of(v, cols, k, c)) && (forall|k: int|
        lo <= k < res.start ==> !#[trigger] cell_of(v, cols, k, c))
}

proof fn lemma_empty_under_filled_gives_hole(v: Seq<Seq<bool>>, cols: int, a: int, b: int, j: int)
    requires
        0 <= a < b < v.len(),
        0 <= j < cols,
        !cell_of(v, cols, a, j),
        cell_of(v, cols, b, j),
    ensures
        exists|i: int| #[trigger] hole_below(v, cols, i, j),
    decreases b - a,
{
    if cell_of(v, cols, a + 1, j) {
        lemma_hole_under_gap(v, cols, a, a + 1, j);
    } else {
        lemma_empty_under_filled_gives_hole(v, cols, a + 1, b, j);
    }
}

proof fn lemma_hole_under_gap(v: Seq<Seq<bool>>, cols: int, a: int, b: int, j: int)
    requires
        0 <= a < b < v.len(),
        0 <= j < cols,
        !cell_of(v, cols, a, j),
        cell_of(v, cols, b, j),
    ensures
        exists|i: int| #[trigger] hole_below(v, cols, i, j),
    decreases a,
{
    if a == 0 {
        assert(hole_below(v, cols, -1, j));
    } else if cell_of(v, cols, a - 1, j) {
        assert(hole_below(v, cols, a - 1, j));
    } else {
        lemma_hole_under_gap(v, cols, a - 1, b, j);
    }
}

/// A board has no covered hole exactly when every column is settled.
pub proof fn lemma_no_hole_iff_settled(v: Seq<Seq<bool>>, cols: int)
    ensures
        (forall|i: int, j: int| !#[trigger] hole_below(v, cols, i, j)) <==> settled(v, cols),
{
    if forall|i: int, j: int| !#[trigger] hole_below(v, cols, i, j) {
        assert forall|i1: int, i2: int, j: int|
            0 <= i1 < i2 && #[trigger] cell_of(v, cols, i2, j) implies #[trigger] cell_of(v, cols, i1, j) by {
            if !cell_of(v, cols, i1, j) {
                lemma_empty_under_filled_gives_hole(v, cols, i1, i2, j);
            }
        }
    }
    if settled(v, cols) {
        assert forall|i: int, j: int| !#[trigger] hole_below(v, cols, i, j) by {
            if hole_below(v, cols, i, j) {
                let k = choose|k: int| i + 1 < k < v.len() && #[trigger] cell_of(v, cols, k, j);
                assert(cell_of(v, cols, k, j) ==> cell_of(v, cols, i + 1, j));
            }
        }
    }
}

/// Searches for a covered hole, scanning rows from the top down and each row
/// from left to right. Returns `Some((h, res))` for the first hole found: `h` is
/// its lowest row and `res` the rows of the filled cells above it in its column.
/// `buf` is scratch space that callers may reuse between calls.
pub fn covered_hole(mat: &BasicMatrix, buf: &mut Vec<Range<u16>>) -> (r: Option<(u16, Range<u16>)>)
    requires
        mat.wf(),
    ensures
        r is None <==> forall|i: int, j: int| !#[trigger] hole_below(mat.view(), mat.spec_cols() as int, i, j),
        r is None <==> settled(mat.view(), mat.spec_cols() as int),
        r matches Some((h, res)) ==> exists|i: int, j: int|
            #[trigger] first_hole(mat.view(), mat.spec_cols() as int, i, j) && h == i + 1 && residue_above(mat.view(), mat.spec_cols() as int, i, j, res),
{
    proof {
        lemma_no_hole_iff_settled(mat.view(), mat.spec_cols() as int);
    }
    let n_rows = mat.rows();
    let n_cols = mat.cols();
    buf.clear();
    let mut c: u16 = 0;
    while c < n_cols
        invariant
            c <= n_cols,
            buf.len() == c,
            forall|k: int| 0 <= k < c ==> buf@[k].start == 0 && buf@[k].end == 0,
        decreases n_cols - c,
    {
        buf.push(Range { start: 0, end: 0 });
        c = c + 1;
    }
    let mut top: u16 = n_rows;
    while top > 0
        invariant
            mat.wf(),
            n_rows == mat.view().len(),
            n_cols == mat.spec_cols(),
            top <= n_rows,
            buf.len() == n_cols,
            forall|k: int| 0 <= k < n_cols ==> residue_ok(mat.view(), mat.spec_cols() as int, top as int, k, #[trigger] buf@[k]),
            forall|i2: int, j2: int| i2 >= top ==> !#[trigger] hole_below(mat.view(), mat.spec_cols() as int, i2, j2),
        decreases top,
    {
        let i = top - 1;
        let mut j: u16 = 0;
        while j < n_cols
            invariant
                mat.wf(),
                n_rows == mat.view().len(),
                n_cols == mat.spec_cols(),
                i < n_rows,
                j <= n_cols,
                buf.len() == n_cols,
                forall|k: int|
                    0 <= k < j ==> residue_ok(mat.view(), mat.spec_cols() as int, i as int, k, #[trigger] buf@[k]),
                forall|k: int|
                    j <= k < n_cols ==> residue_ok(mat.view(), mat.spec_cols() as int, i + 1, k, #[trigger] buf@[k]),
                forall|i2: int, j2: int|
                    scanned_before(i2, j2, i as int, j as int) ==> !#[trigger] hole_below(mat.view(), mat.spec_cols() as int, i2, j2),
            decreases n_cols - j,
        {
            if mat.get(i, j) {
                let s = buf[j as usize].start;
                let e = buf[j as usize].end;
                if s > i + 1 {
                    assert(hole_below(mat.view(), mat.spec_cols() as int, i as int, j as int)) by {
                        assert(mat.cell(s as int, j as int));
                    }
                    let res = Range { start: s, end: e };
                    assert(res == buf@[j as int]);
                    assert(residue_above(mat.view(), mat.spec_cols() as int, i as int, j as int, res));
                    assert(first_hole(mat.view(), mat.spec_cols() as int, i as int, j as int));
                    return Some((i + 1, res));
                } else {
                    let new_end = if e > i + 1 { e } else { i + 1 };
                    buf.set(j as usize, Range { start: i, end: new_end });
                    assert(!hole_below(mat.view(), mat.spec_cols() as int, i as int, j as int));
                }
            } else {
                assert(!hole_below(mat.view(), mat.spec_cols() as int, i as int, j as int));
            }
            j = j + 1;
        }
        top = i;
    }
    let mut j: u16 = 0;
    while j < n_cols
        invariant
            mat.wf(),
            n_rows == mat.view().len(),
            n_cols == mat.spec_cols(),
            j <= n_cols,
            buf.len() == n_cols,
            forall|k: int| 0 <= k < n_cols ==> residue_ok(mat.view(), mat.spec_cols() as int, 0, k, #[trigger] buf@[k]),
            forall|i2: int, j2: int|
                scanned_before(i2, j2, -1, j as int) ==> !#[trigger] hole_below(mat.view(), mat.spec_cols() as int, i2, j2),
        decreases n_cols - j,
    {
        let s = buf[j as usize].start;
        let e = buf[j as usize].end;
        if s > 0 {
            assert(hole_below(mat.view(), mat.spec_cols() as int, -1, j as int)) by {
                assert(mat.cell(s as int, j as int));
            }
            let res = Range { start: s, end: e };
            assert(res == buf@[j as int]);
            assert(residue_above(mat.view(), mat.spec_cols() as int, -1, j as int, res));
            assert(first_hole(mat.view(), mat.spec_cols() as int, -1, j as int));
            return Some((0, res));
        }
        assert(!hole_below(mat.view(), mat.spec_cols() as int, -1, j as int));
        j = j + 1;
    }
    None
}

} // verus!

verus! {

/// Weights of the evaluation.
#[derive(Clone, Debug)]
pub struct ScoreParams {
    pub row_factor: i64,
    pub piece_estimate_factor: i64,
    pub piece_penalty: i64,
}

impl Default for ScoreParams {
    fn default() -> (r: ScoreParams)
        ensures
            r.row_factor == 0,
            r.piece_estimate_factor == 3,
            r.piece_penalty == 4,
    {
        ScoreParams { row_factor: 0, piece_estimate_factor: 3, piece_penalty: 4 }
    }
}

/// The penalty for having placed `depth` pieces: the path cost of the search.
pub fn penalty(params: &ScoreParams, depth: usize) -> (r: i64)
    requires
        depth <= i64::MAX,
        i64::MIN <= depth * params.piece_penalty <= i64::MAX,
    ensures
        r == depth * params.piece_penalty,
{
    (depth as i64) * params.piece_penalty
}

/// The maximal runs of empty cells of rows `lo..hi` of the board `v`.
pub open spec fn gap_rows(v: Seq<Seq<bool>>, lo: int, hi: int) -> Seq<Seq<Range<u16>>> {
    Seq::new((hi - lo) as nat, |k: int| runs(v[lo + k]))
}

/// The areas of the connected negative spaces of rows `lo..hi` of `v`, in order
/// of their first run of empty cells.
pub open spec fn negative_areas(v: Seq<Seq<bool>>, lo: int, hi: int) -> Seq<int> {
    positives(component_areas(gap_rows(v, lo, hi)))
}

/// The number of pieces it takes to fill areas of the given sizes, four cells
/// per piece.
pub open spec fn pieces_for(areas: Seq<int>) -> int
    decreases areas.len(),
{
    if areas.len() == 0 {
        0
    } else {
        pieces_for(areas.drop_last()) + (areas.last() + 3) / 4
    }
}

/// Returns the area of each connected negative space of the rows in `row_range`.
pub fn negative_spaces(matrix: &BasicMatrix, row_range: Range<u16>) -> (r: Vec<u64>)
    requires
        matrix.wf(),
        row_range.start <= row_range.end <= matrix.view().len(),
    ensures
        r@.len() == negative_areas(matrix.view(), row_range.start as int, row_range.end as int).len(),
        forall|k: int|
            0 <= k < r.len() ==> r@[k] as int == #[trigger] negative_areas(
                matrix.view(),
                row_range.start as int,
                row_range.end as int,
            )[k],
        forall|k: int| 0 <= k < r.len() ==> #[trigger] r@[k] < 0x1_0000_0000_0000,
{
    let ghost v = matrix.view();
    let ghost lo = row_range.start as int;
    let mut rows: Vec<Vec<Range<u16>>> = Vec::new();
    let mut i: u16 = row_range.start;
    while i < row_range.end
        invariant
            matrix.wf(),
            v == matrix.view(),
            lo == row_range.start,
            row_range.start <= i <= row_range.end <= v.len(),
            range_rows(rows@) == gap_rows(v, lo, i as int),
            rows.len() == i - lo,
            forall|k: int| 0 <= k < rows.len() ==> ordered_ranges(#[trigger] rows@[k]@),
            forall|k: int| 0 <= k < rows.len() ==> (#[trigger] rows@[k]@).len() <= 65535,
        decreases row_range.end - i,
    {
        let g = matrix.gaps(i);
        proof {
            assert(v[i as int].len() == matrix.spec_cols());
            lemma_gaps_unique(v[i as int], g@);
            assert forall|a: int, b: int| 0 <= a < b < g@.len() implies g@[a].end <= g@[b].start by {
            }
            assert forall|a: int| 0 <= a < g@.len() implies g@[a].start <= g@[a].end by {
                assert(is_gap(v[i as int], g@[a].start as int, g@[a].end as int));
            }
        }
        let ghost before = rows@;
        assert(g@.len() <= 65535);
        rows.push(g);
        i = i + 1;
        assert forall|k: int| 0 <= k < rows.len() implies #[trigger] range_rows(rows@)[k] == gap_rows(v, lo, i as int)[k] by {
            if k < before.len() {
                assert(range_rows(before)[k] == gap_rows(v, lo, i - 1)[k]);
            } else {
                assert(rows@[k]@ == g@);
            }
        }
        assert(range_rows(rows@) =~= gap_rows(v, lo, i as int));
    }
    proof {
        lemma_flat_len(range_rows(rows@));
        assert(rows.len() <= 65535);
        assert(65535 * rows.len() <= 0xFFFF_FFFF) by (nonlinear_arith)
            requires
                rows.len() <= 65535,
        {
        }
    }
    gaps_contiguous_areas(&rows)
}

/// The first covered hole of the board `v`, `cols` wide, as the cell under it.
pub open spec fn found_hole(v: Seq<Seq<bool>>, cols: int) -> (int, int) {
    choose|i: int, j: int| first_hole(v, cols, i, j)
}

/// The filled cells above the first covered hole of `v`.
pub open spec fn found_residue(v: Seq<Seq<bool>>, cols: int) -> Range<u16> {
    let (i, j) = found_hole(v, cols);
    choose|res: Range<u16>| residue_above(v, cols, i, j, res)
}

/// The evaluation of `v` when `depth` holes were already cleared: the piece
/// estimate that remains, and the number of rows left once every covered hole
/// has been cleared. Clearing the first hole removes the rows from just above
/// it to the top of its residue, and costs the pieces that fill the negative
/// spaces of those rows, less `depth`, but at least one.
pub open spec fn estimate(v: Seq<Seq<bool>>, cols: int, depth: int) -> (int, int)
    decreases v.len(),
{
    let (i, j) = found_hole(v, cols);
    let res = found_residue(v, cols);
    let lo = i + 2;
    let hi = res.end as int;
    if first_hole(v, cols, i, j) && residue_above(v, cols, i, j, res) && 0 <= lo < hi <= v.len() {
        let pieces = pieces_for(negative_areas(v, lo, hi));
        let term = if pieces - depth > 1 {
            pieces - depth
        } else {
            1
        };
        let rest = v.subrange(0, lo).add(v.subrange(hi, v.len() as int));
        let (s, n) = estimate(rest, cols, depth + 1);
        (term + s, n)
    } else {
        (0, v.len() as int)
    }
}

/// The board `v` with an empty row added under it.
pub open spec fn padded(v: Seq<Seq<bool>>, cols: int) -> Seq<Seq<bool>> {
    seq![Seq::new(cols as nat, |j: int| false)].add(v)
}

/// The score of the board `v`, `cols` wide: lower is better.
pub open spec fn score_of(params: ScoreParams, v: Seq<Seq<bool>>, cols: int) -> int {
    let (s, n) = estimate(padded(v, cols), cols, 0);
    s * params.piece_estimate_factor + n * params.row_factor
}

/// The score of `v` and the products it is made of fit in an `i64`.
pub open spec fn score_fits(params: ScoreParams, v: Seq<Seq<bool>>, cols: int) -> bool {
    let (s, n) = estimate(padded(v, cols), cols, 0);
    &&& s <= 0x3FFF_FFFF_FFFF_FFFF
    &&& i64::MIN <= s * params.piece_estimate_factor <= i64::MAX
    &&& i64::MIN <= n * params.row_factor <= i64::MAX
    &&& i64::MIN <= score_of(params, v, cols) <= i64::MAX
}

proof fn lemma_estimate_nonneg(v: Seq<Seq<bool>>, cols: int, depth: int)
    ensures
        estimate(v, cols, depth).0 >= 0,
    decreases v.len(),
{
    let (i, j) = found_hole(v, cols);
    let res = found_residue(v, cols);
    let lo = i + 2;
    let hi = res.end as int;
    if first_hole(v, cols, i, j) && residue_above(v, cols, i, j, res) && 0 <= lo < hi <= v.len() {
        let rest = v.subrange(0, lo).add(v.subrange(hi, v.len() as int));
        lemma_estimate_nonneg(rest, cols, depth + 1);
    }
}

proof fn lemma_pieces_prefix(areas: Seq<int>, t: int)
    requires
        0 <= t <= areas.len(),
        forall|k: int| 0 <= k < areas.len() ==> #[trigger] areas[k] >= 0,
    ensures
        0 <= pieces_for(areas.take(t)) <= pieces_for(areas),
        t < areas.len() ==> pieces_for(areas.take(t + 1)) == pieces_for(areas.take(t)) + (areas[t] + 3) / 4,
    decreases areas.len() - t,
{
    assert forall|k: int| 0 <= k < areas.take(t).len() implies #[trigger] areas.take(t)[k] >= 0 by {
        assert(areas.take(t)[k] == areas[k]);
    }
    lemma_pieces_nonneg(areas.take(t));
    if t < areas.len() {
        assert(areas.take(t + 1).drop_last() =~= areas.take(t));
        lemma_pieces_prefix(areas, t + 1);
    } else {
        assert(areas.take(t) =~= areas);
    }
}

proof fn lemma_pieces_nonneg(areas: Seq<int>)
    requires
        forall|k: int| 0 <= k < areas.len() ==> #[trigger] areas[k] >= 0,
    ensures
        pieces_for(areas) >= 0,
    decreases areas.len(),
{
    if areas.len() > 0 {
        lemma_pieces_nonneg(areas.drop_last());
    }
}

/// The hole found by `covered_hole` is the one the evaluation speaks of.
proof fn lemma_found_hole(v: Seq<Seq<bool>>, cols: int, i: int, j: int, res: Range<u16>)
    requires
        first_hole(v, cols, i, j),
        residue_above(v, cols, i, j, res),
    ensures
        found_hole(v, cols) == (i, j),
        found_residue(v, cols) == res,
{
    let (i2, j2) = found_hole(v, cols);
    assert(first_hole(v, cols, i2, j2));
    if scanned_before(i2, j2, i, j) {
        assert(!hole_below(v, cols, i2, j2));
    }
    if scanned_before(i, j, i2, j2) {
        assert(!hole_below(v, cols, i, j));
    }
    let r2 = found_residue(v, cols);
    assert(residue_above(v, cols, i, j, r2));
    if r2.start < res.start {
        assert(!cell_of(v, cols, r2.start as int, j));
    }
    if res.start < r2.start {
        assert(!cell_of(v, cols, res.start as int, j));
    }
    if r2.end < res.end {
        assert(!cell_of(v, cols, res.end - 1, j));
    }
    if res.end < r2.end {
        assert(!cell_of(v, cols, r2.end - 1, j));
    }
}

/// Computes the score of `matrix`: lower is better. Covered holes are cleared
/// one by one, from the first the top-down scan meets, each costing the pieces
/// that fill the negative spaces above it; the estimate and the rows that remain
/// are weighted by `params`.
pub fn score(params: &ScoreParams, matrix: &BasicMatrix) -> (r: i64)
    requires
        matrix.wf(),
        matrix.view().len() < MAX_DIM,
        score_fits(*params, matrix.view(), matrix.spec_cols() as int),
    ensures
        r == score_of(*params, matrix.view(), matrix.spec_cols() as int),
{
    let ghost cols = matrix.spec_cols() as int;
    let mut m = matrix.duplicate();
    m.insert_empty_bottom_row();
    let ghost v0 = m.view();
    let ghost total = estimate(v0, cols, 0);
    proof {
        assert(v0 =~= padded(matrix.view(), cols));
    }
    let mut score: i64 = 0;
    let mut depth: i64 = 0;
    let mut buf: Vec<Range<u16>> = Vec::new();
    let mut hole = covered_hole(&m, &mut buf);
    while hole.is_some()
        invariant
            m.wf(),
            m.spec_cols() == cols,
            v0.len() <= MAX_DIM,
            total == estimate(v0, cols, 0),
            total.0 <= 0x3FFF_FFFF_FFFF_FFFF,
            0 <= depth,
            depth + m.view().len() <= v0.len(),
            0 <= score,
            score + estimate(m.view(), cols, depth as int).0 == total.0,
            estimate(m.view(), cols, depth as int).1 == total.1,
            hole is None ==> forall|i: int, j: int| !#[trigger] hole_below(m.view(), cols, i, j),
            hole matches Some((h, res)) ==> exists|i: int, j: int|
                #[trigger] first_hole(m.view(), cols, i, j) && h == i + 1 && residue_above(
                    m.view(),
                    cols,
                    i,
                    j,
                    res,
                ),
        decreases m.view().len(),
    {
        let (h, res) = hole.unwrap();
        let ghost vc = m.view();
        let ghost (i, j) = choose|i: int, j: int|
            #[trigger] first_hole(vc, cols, i, j) && h == i + 1 && residue_above(vc, cols, i, j, res);
        proof {
            lemma_found_hole(vc, cols, i, j, res);
            assert(!cell_of(vc, cols, i + 1, j));
            assert(cell_of(vc, cols, res.start as int, j));
            lemma_estimate_nonneg(
                vc.subrange(0, i + 2).add(vc.subrange(res.end as int, vc.len() as int)),
                cols,
                depth + 1,
            );
        }
        let lo = h + 1;
        let hi = res.end;
        let areas = negative_spaces(&m, Range { start: lo, end: hi });
        let ghost areas_int = negative_areas(vc, lo as int, hi as int);
        proof {
            assert forall|k: int| 0 <= k < areas_int.len() implies #[trigger] areas_int[k] >= 0 by {
                assert(areas_int[k] == areas@[k] as int);
            }
            lemma_pieces_prefix(areas_int, 0);
            lemma_pieces_nonneg(areas_int);
        }
        let mut pieces: i64 = 0;
        let mut t: usize = 0;
        while t < areas.len()
            invariant
                t <= areas.len(),
                areas@.len() == areas_int.len(),
                forall|k: int| 0 <= k < areas.len() ==> areas@[k] as int == #[trigger] areas_int[k],
                forall|k: int| 0 <= k < areas.len() ==> #[trigger] areas@[k] < 0x1_0000_0000_0000,
                forall|k: int| 0 <= k < areas_int.len() ==> #[trigger] areas_int[k] >= 0,
                pieces_for(areas_int) <= 0x3FFF_FFFF_FFFF_FFFF + 0x10000,
                pieces == pieces_for(areas_int.take(t as int)),
            decreases areas.len() - t,
        {
            proof {
                lemma_pieces_prefix(areas_int, t as int);
                lemma_pieces_prefix(areas_int, t + 1);
            }
            pieces = pieces + ((areas[t] + 3) / 4) as i64;
            t = t + 1;
        }
        proof {
            assert(areas_int.take(t as int) =~= areas_int);
        }
        m.remove_rows(Range { start: lo, end: hi });
        let term = if pieces - depth > 1 { pieces - depth } else { 1 };
        score = score + term;
        depth = depth + 1;
        proof {
            assert(m.view() =~= vc.subrange(0, i + 2).add(vc.subrange(hi as int, vc.len() as int)));
        }
        hole = covered_hole(&m, &mut buf);
    }
    proof {
        let vc = m.view();
        let (i, j) = found_hole(vc, cols);
        assert(!first_hole(vc, cols, i, j));
    }
    let rows = m.rows() as i64;
    score * params.piece_estimate_factor + rows * params.row_factor
}

/// An empty row of the given width.
pub open spec fn empty_row(cols: int) -> Seq<bool> {
    Seq::new(cols as nat, |j: int| false)
}

proof fn lemma_estimate_empty_top(v: Seq<Seq<bool>>, cols: int, depth: int)
    ensures
        estimate(v.push(empty_row(cols)), cols, depth) == (
            estimate(v, cols, depth).0,
            estimate(v, cols, depth).1 + 1,
        ),
    decreases v.len(),
{
    let w = v.push(empty_row(cols));
    assert forall|k: int, j: int|
        #![trigger cell_of(w, cols, k, j)]
        #![trigger cell_of(v, cols, k, j)]
        cell_of(w, cols, k, j) == cell_of(v, cols, k, j) by {
        if 0 <= k < v.len() {
            assert(w[k] == v[k]);
        }
    }
    assert forall|i: int, j: int|
        #![trigger hole_below(w, cols, i, j)]
        #![trigger hole_below(v, cols, i, j)]
        hole_below(w, cols, i, j) == hole_below(v, cols, i, j) by {
        if hole_below(w, cols, i, j) {
            let k = choose|k: int| i + 1 < k < w.len() && #[trigger] cell_of(w, cols, k, j);
            assert(cell_of(v, cols, k, j));
        }
        if hole_below(v, cols, i, j) {
            let k = choose|k: int| i + 1 < k < v.len() && #[trigger] cell_of(v, cols, k, j);
            assert(cell_of(w, cols, k, j));
        }
    }
    let (i, j) = found_hole(v, cols);
    let res = found_residue(v, cols);
    let (i2, j2) = found_hole(w, cols);
    let res2 = found_residue(w, cols);
    if first_hole(v, cols, i, j) && residue_above(v, cols, i, j, res) && 0 <= i + 2 < res.end <= v.len() {
        assert(first_hole(w, cols, i, j));
        assert(residue_above(w, cols, i, j, res));
        lemma_found_hole(w, cols, i, j, res);
        let lo = i + 2;
        let hi = res.end as int;
        assert(gap_rows(w, lo, hi) =~= gap_rows(v, lo, hi));
        let rest = v.subrange(0, lo).add(v.subrange(hi, v.len() as int));
        assert(w.subrange(0, lo).add(w.subrange(hi, w.len() as int)) =~= rest.push(empty_row(cols)));
        lemma_estimate_empty_top(rest, cols, depth + 1);
    } else if first_hole(w, cols, i2, j2) && residue_above(w, cols, i2, j2, res2) && 0 <= i2 + 2
        < res2.end <= w.len() {
        assert(first_hole(v, cols, i2, j2));
        assert(cell_of(w, cols, res2.end - 1, j2));
        assert(residue_above(v, cols, i2, j2, res2));
        lemma_found_hole(v, cols, i2, j2, res2);
    }
}

/// Adding an empty row on top of a board adds one row and nothing else to its
/// evaluation: with no weight on rows, its score is unchanged.
pub proof fn lemma_score_empty_row_on_top(params: ScoreParams, v: Seq<Seq<bool>>, cols: int)
    requires
        params.row_factor == 0,
    ensures
        score_of(params, v.push(empty_row(cols)), cols) == score_of(params, v, cols),
{
    assert(padded(v.push(empty_row(cols)), cols) =~= padded(v, cols).push(empty_row(cols)));
    lemma_estimate_empty_top(padded(v, cols), cols, 0);
}

/// A board with no filled cell scores zero when rows carry no weight.
pub proof fn lemma_score_empty_board(params: ScoreParams, v: Seq<Seq<bool>>, cols: int)
    requires
        params.row_factor == 0,
        forall|i: int, j: int| !#[trigger] cell_of(v, cols, i, j),
    ensures
        score_of(params, v, cols) == 0,
{
    let p = padded(v, cols);
    assert forall|i: int, j: int| !#[trigger] cell_of(p, cols, i, j) by {
        if 1 <= i < p.len() {
            assert(p[i] == v[i - 1]);
            assert(!cell_of(v, cols, i - 1, j));
        }
    }
    let (i, j) = found_hole(p, cols);
    if hole_below(p, cols, i, j) {
        let k = choose|k: int| i + 1 < k < p.len() && #[trigger] cell_of(p, cols, k, j);
    }
}

} // verus!
