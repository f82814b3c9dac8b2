use vstd::prelude::*;
use std::ops::Range;

verus! {

/// The largest number of rows or columns a board may have.
pub const MAX_DIM: u16 = 65535;

/// A half-open run `s..e` of empty cells in `row` that cannot be extended on
/// either side.
pub open spec fn is_gap(row: Seq<bool>, s: int, e: int) -> bool {
    &&& 0 <= s < e <= row.len()
    &&& forall|k: int| s <= k < e ==> !row[k]
    &&& s == 0 || row[s - 1]
    &&& e == row.len() || row[e]
}

/// The column range `g` contains column `c`.
pub open spec fn covers(g: Range<u16>, c: int) -> bool {
    g.start <= c < g.end
}

/// `gs` lists the maximal runs of empty cells of `row`, left to right.
pub open spec fn are_gaps_of(row: Seq<bool>, gs: Seq<Range<u16>>) -> bool {
    &&& forall|k: int| 0 <= k < gs.len() ==> is_gap(row, gs[k].start as int, gs[k].end as int)
    &&& forall|k: int, l: int| 0 <= k < l < gs.len() ==> gs[k].end < gs[l].start
    &&& forall|c: int|
        0 <= c < row.len() && !row[c] ==> exists|k: int|
            0 <= k < gs.len() && #[trigger] covers(gs[k], c)
}

/// The maximal runs of empty cells of `row`, left to right.
pub open spec fn runs(row: Seq<bool>) -> Seq<Range<u16>> {
    choose|gs: Seq<Range<u16>>| are_gaps_of(row, gs)
}

proof fn lemma_gap_unique(row: Seq<bool>, g1: Range<u16>, g2: Range<u16>, c: int)
    requires
        is_gap(row, g1.start as int, g1.end as int),
        is_gap(row, g2.start as int, g2.end as int),
        covers(g1, c),
        covers(g2, c),
    ensures
        g1 == g2,
{
    if g1.start < g2.start {
        assert(!row[g2.start - 1]);
    }
    if g2.start < g1.start {
        assert(!row[g1.start - 1]);
    }
    if g1.end < g2.end {
        assert(!row[g1.end as int]);
    }
    if g2.end < g1.end {
        assert(!row[g2.end as int]);
    }
}

proof fn lemma_gaps_agree(row: Seq<bool>, gs1: Seq<Range<u16>>, gs2: Seq<Range<u16>>, k: int)
    requires
        are_gaps_of(row, gs1),
        are_gaps_of(row, gs2),
        0 <= k < gs1.len(),
    ensures
        forall|l: int| 0 <= l <= k ==> l < gs2.len() && #[trigger] gs2[l] == gs1[l],
    decreases k,
{
    if k > 0 {
        lemma_gaps_agree(row, gs1, gs2, k - 1);
    }
    let c = gs1[k].start as int;
    assert(is_gap(row, gs1[k].start as int, gs1[k].end as int));
    assert(!row[c]);
    assert(covers(gs1[k], c));
    let m = choose|m: int| 0 <= m < gs2.len() && #[trigger] covers(gs2[m], c);
    lemma_gap_unique(row, gs1[k], gs2[m], c);
    if m < k {
        assert(gs2[m] == gs1[m]);
    } else if m > k {
        let c2 = gs2[k].start as int;
        assert(is_gap(row, gs2[k].start as int, gs2[k].end as int));
        assert(!row[c2]);
        assert(covers(gs2[k], c2));
        let m2 = choose|m2: int| 0 <= m2 < gs1.len() && #[trigger] covers(gs1[m2], c2);
        lemma_gap_unique(row, gs1[m2], gs2[k], c2);
        if m2 < k {
            assert(gs2[m2] == gs1[m2]);
        }
    }
}

/// A row has one list of maximal runs of empty cells.
pub proof fn lemma_gaps_unique(row: Seq<bool>, gs: Seq<Range<u16>>)
    requires
        are_gaps_of(row, gs),
    ensures
        runs(row) == gs,
        gs.len() <= row.len(),
{
    let gs2 = runs(row);
    assert(are_gaps_of(row, gs2));
    if gs.len() > 0 {
        lemma_gaps_agree(row, gs, gs2, gs.len() - 1);
        let l = gs.len() - 1;
        assert(0 <= l <= gs.len() - 1);
        assert(gs2[l] == gs[l]);
    }
    if gs2.len() > 0 {
        lemma_gaps_agree(row, gs2, gs, gs2.len() - 1);
        let l = gs2.len() - 1;
        assert(0 <= l <= gs2.len() - 1);
        assert(gs[l] == gs2[l]);
    }
    assert(gs2.len() == gs.len());
    assert forall|l: int| 0 <= l < gs.len() implies gs2[l] == gs[l] by {
        lemma_gaps_agree(row, gs, gs2, gs.len() - 1);
    }
    assert(gs2 =~= gs);
    if gs.len() > 0 {
        lemma_gap_starts(row, gs, gs.len() - 1);
    }
}

proof fn lemma_gap_starts(row: Seq<bool>, gs: Seq<Range<u16>>, k: int)
    requires
        are_gaps_of(row, gs),
        0 <= k < gs.len(),
    ensures
        gs[k].start >= k,
    decreases k,
{
    if k > 0 {
        lemma_gap_starts(row, gs, k - 1);
        assert(gs[k - 1].end < gs[k].start);
    }
}

/// Returns the maximal runs of empty cells of `row`, left to right.
pub fn row_gaps(row: &Vec<bool>) -> (r: Vec<Range<u16>>)
    requires
        row.len() <= MAX_DIM,
    ensures
        are_gaps_of(row@, r@),
{
    let n = row.len();
    let mut out: Vec<Range<u16>> = Vec::new();
    let mut j: usize = 0;
    while j < n
        invariant
            n == row.len() <= MAX_DIM,
            j <= n,
            0 < j < n ==> row@[j - 1] || row@[j as int],
            forall|k: int|
                0 <= k < out.len() ==> is_gap(row@, out@[k].start as int, out@[k].end as int),
            forall|k: int, l: int| 0 <= k < l < out.len() ==> out@[k].end < out@[l].start,
            forall|k: int| 0 <= k < out.len() ==> out@[k].end <= j,
            out.len() > 0 ==> (out@.last().end == n || row@[out@.last().end as int]),
            forall|c: int|
                0 <= c < j && !row@[c] ==> exists|k: int|
                    0 <= k < out.len() && #[trigger] covers(out@[k], c),
        decreases n - j,
    {
        if !row[j] {
            let s = j;
            while j < n && !row[j]
                invariant
                    n == row.len(),
                    s <= j <= n,
                    forall|k: int| s <= k < j ==> !row@[k],
                decreases n - j,
            {
                j = j + 1;
            }
            let ghost old_out = out@;
            out.push(Range { start: s as u16, end: j as u16 });
            assert forall|c: int|
                0 <= c < j && !row@[c] implies exists|k: int|
                    0 <= k < out.len() && #[trigger] covers(out@[k], c) by {
                if c < s {
                    let k = choose|k: int|
                        0 <= k < old_out.len() && covers(old_out[k], c);
                    assert(out@[k] == old_out[k]);
                } else {
                    assert(covers(out@[out.len() - 1], c));
                }
            }
        } else {
            j = j + 1;
        }
    }
    out
}

/// Whether the cell at row `i`, column `j` of the board with rows `v`, `cols`
/// wide, is filled; cells off the board are empty.
pub open spec fn cell_of(v: Seq<Seq<bool>>, cols: int, i: int, j: int) -> bool {
    0 <= i < v.len() && 0 <= j < cols && v[i][j]
}

/// A board: a grid with a fixed number of columns whose row 0 is the bottom.
pub struct BasicMatrix {
    cols: u16,
    rows: Vec<Vec<bool>>,
}

impl BasicMatrix {
    /// The cells, row by row from the bottom; `true` is a filled cell.
    pub closed spec fn view(&self) -> Seq<Seq<bool>> {
        Seq::new(self.rows@.len(), |i: int| self.rows@[i]@)
    }

    pub closed spec fn spec_cols(&self) -> nat {
        self.cols as nat
    }

    /// Every row is as wide as the board, and the row count fits in a `u16`.
    pub open spec fn wf(&self) -> bool {
        &&& self.view().len() <= MAX_DIM
        &&& self.spec_cols() <= MAX_DIM
        &&& forall|i: int| 0 <= i < self.view().len() ==> #[trigger] self.view()[i].len() == self.spec_cols()
    }

    /// Whether the cell at row `i`, column `j` is filled; cells off the board are empty.
    pub open spec fn cell(&self, i: int, j: int) -> bool {
        cell_of(self.view(), self.spec_cols() as int, i, j)
    }

    /// An empty board `cols` wide.
    pub fn with_cols(cols: u16) -> (r: BasicMatrix)
        ensures
            r.wf(),
            r.view().len() == 0,
            r.spec_cols() == cols,
    {
        BasicMatrix { cols, rows: Vec::new() }
    }

    /// Adds `row` on top of the board.
    pub fn push_row(&mut self, row: Vec<bool>)
        requires
            old(self).wf(),
            row.len() == old(self).spec_cols(),
            old(self).view().len() < MAX_DIM,
        ensures
            final(self).wf(),
            final(self).view() == old(self).view().push(row@),
            final(self).spec_cols() == old(self).spec_cols(),
    {
        self.rows.push(row);
        assert(self.view() =~= old(self).view().push(row@));
    }

    pub fn rows(&self) -> (r: u16)
        requires
            self.wf(),
        ensures
            r == self.view().len(),
    {
        self.rows.len() as u16
    }

    pub fn cols(&self) -> (r: u16)
        ensures
            r == self.spec_cols(),
    {
        self.cols
    }

    pub fn get(&self, i: u16, j: u16) -> (r: bool)
        requires
            self.wf(),
            i < self.view().len(),
            j < self.spec_cols(),
        ensures
            r == self.cell(i as int, j as int),
    {
        assert(self.view()[i as int].len() == self.spec_cols());
        assert(self.rows@[i as int]@ == self.view()[i as int]);
        self.rows[i as usize][j as usize]
    }

    /// The maximal runs of empty cells of row `i`, left to right.
    pub fn gaps(&self, i: u16) -> (r: Vec<Range<u16>>)
        requires
            self.wf(),
            i < self.view().len(),
        ensures
            are_gaps_of(self.view()[i as int], r@),
    {
        assert(self.rows@[i as int]@ == self.view()[i as int]);
        row_gaps(&self.rows[i as usize])
    }

    /// A copy of the board.
    pub fn duplicate(&self) -> (r: BasicMatrix)
        requires
            self.wf(),
        ensures
            r.wf(),
            r.view() == self.view(),
            r.spec_cols() == self.spec_cols(),
    {
        let mut rows: Vec<Vec<bool>> = Vec::new();
        let mut i: usize = 0;
        while i < self.rows.len()
            invariant
                i <= self.rows.len(),
                rows.len() == i,
                forall|k: int| 0 <= k < i ==> rows@[k]@ == self.rows@[k]@,
            decreases self.rows.len() - i,
        {
            let src = &self.rows[i];
            let mut row: Vec<bool> = Vec::new();
            let mut j: usize = 0;
            while j < src.len()
                invariant
                    j <= src.len(),
                    row@ == src@.subrange(0, j as int),
                decreases src.len() - j,
            {
                row.push(src[j]);
                j = j + 1;
            }
            assert(row@ =~= src@);
            rows.push(row);
            i = i + 1;
        }
        let r = BasicMatrix { cols: self.cols, rows };
        assert(r.view() =~= self.view());
        r
    }

    /// Adds an empty row under the bottom row, moving every row up by one.
    pub fn insert_empty_bottom_row(&mut self)
        requires
            old(self).wf(),
            old(self).view().len() < MAX_DIM,
        ensures
            final(self).wf(),
            final(self).view() == seq![Seq::new(old(self).spec_cols(), |j: int| false)].add(
                old(self).view(),
            ),
            final(self).spec_cols() == old(self).spec_cols(),
    {
        let mut row: Vec<bool> = Vec::new();
        let mut j: u16 = 0;
        while j < self.cols
            invariant
                j <= self.cols,
                row@ == Seq::new(j as nat, |k: int| false),
            decreases self.cols - j,
        {
            row.push(false);
            j = j + 1;
            assert(row@ =~= Seq::new(j as nat, |k: int| false));
        }
        self.rows.insert(0, row);
        assert(self.view() =~= seq![Seq::new(old(self).spec_cols(), |j: int| false)].add(
            old(self).view(),
        ));
    }

    /// Removes the rows in `range`; the rows above it move down.
    pub fn remove_rows(&mut self, range: Range<u16>)
        requires
            old(self).wf(),
            range.start <= range.end <= old(self).view().len(),
        ensures
            final(self).wf(),
            final(self).view() == old(self).view().subrange(0, range.start as int).add(
                old(self).view().subrange(range.end as int, old(self).view().len() as int),
            ),
            final(self).spec_cols() == old(self).spec_cols(),
    {
        let mut k: u16 = range.start;
        while k < range.end
            invariant
                self.cols == old(self).cols,
                range.start <= k <= range.end <= old(self).rows.len(),
                self.rows@ == old(self).rows@.subrange(0, range.start as int).add(
                    old(self).rows@.subrange(k as int, old(self).rows@.len() as int),
                ),
            decreases range.end - k,
        {
            self.rows.remove(range.start as usize);
            k = k + 1;
            assert(self.rows@ =~= old(self).rows@.subrange(0, range.start as int).add(
                old(self).rows@.subrange(k as int, old(self).rows@.len() as int),
            ));
        }
        assert(self.view() =~= old(self).view().subrange(0, range.start as int).add(
            old(self).view().subrange(range.end as int, old(self).view().len() as int),
        ));
    }
}

} // verus!
