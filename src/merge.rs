use vstd::prelude::*;

use crate::snapshot::LevelBounds;

verus! {

broadcast use vstd::seq_lib::group_to_multiset_ensures;

/// Dbz step, in tenths, of the bins that the merged volume groups voxels into.
pub const DBZ_QUANT_STEP_TENTHS: i16 = 50;

/// Largest horizontal span of a merged rectangle whose bin is below 45 dBz.
pub const MAX_SPAN_LOW_DBZ: u16 = 48;

/// Largest horizontal span of a merged rectangle whose bin is 45 dBz or more.
pub const MAX_SPAN_HIGH_DBZ: u16 = 20;

/// Largest number of levels that one brick may cover.
pub const MAX_VERTICAL_SPAN: u16 = 4;

/// What a merged cell is grouped by: its phase and its quantized reflectivity.
#[derive(Clone, Copy, Debug, PartialEq, Eq, Structural)]
pub struct MergeKey {
    pub phase: u8,
    pub dbz_tenths: i16,
}

/// One voxel of a level as the merger sees it.
#[derive(Clone, Copy, Debug, PartialEq, Eq, Structural)]
pub struct MergeCell {
    pub row: u32,
    pub col: u32,
    pub key: MergeKey,
}

/// A row-major rectangle of cells of one level that share a key.
#[derive(Clone, Copy, Debug, PartialEq, Eq, Structural)]
pub struct HorizontalRect {
    pub row_start: u32,
    pub row_end: u32,
    pub col_start: u32,
    pub col_end: u32,
    pub key: MergeKey,
}

/// A horizontal run of contiguous cells of one row that share a key.
#[derive(Clone, Copy, Debug, PartialEq, Eq, Structural)]
pub struct RowRun {
    pub row: u32,
    pub col_start: u32,
    pub col_end: u32,
    pub key: MergeKey,
}

/// A rectangle extruded over a range of consecutive levels.
#[derive(Clone, Copy, Debug, PartialEq, Eq, Structural)]
pub struct BrickCandidate {
    pub row_start: u32,
    pub row_end: u32,
    pub col_start: u32,
    pub col_end: u32,
    pub level_start: u8,
    pub level_end: u8,
    pub key: MergeKey,
}

/// Rounds `v` to the nearest multiple of `step`, halves away from zero.
pub open spec fn quantized(v: int, step: int) -> int
    recommends
        step > 1,
{
    let half = step / 2;
    if v >= 0 {
        ((v + half) / step) * step
    } else {
        -(((-v + half) / step) * step)
    }
}

pub open spec fn clamp_int(v: int, lo: int, hi: int) -> int {
    if v < lo {
        lo
    } else if v > hi {
        hi
    } else {
        v
    }
}

proof fn lemma_round_down_bounds(m: int, half: int, step: int)
    requires
        step > 1,
        0 <= half,
    ensures
        m >= 0 ==> 0 <= ((m + half) / step) * step <= m + half,
{
    if m >= 0 {
        assert(0 <= ((m + half) / step) * step <= m + half) by (nonlinear_arith)
            requires
                step > 1,
                m >= 0,
                half >= 0,
        ;
    }
}

/// Quantizes a reflectivity in tenths to bins of `step_tenths`; a step of one or
/// less leaves the value as it is.
pub fn quantize_dbz_tenths(dbz_tenths: i16, step_tenths: i16) -> (r: i16)
    ensures
        step_tenths <= 1 ==> r == dbz_tenths,
        step_tenths > 1 ==> r as int == clamp_int(
            quantized(dbz_tenths as int, step_tenths as int),
            i16::MIN as int,
            i16::MAX as int,
        ),
{
    if step_tenths <= 1 {
        return dbz_tenths;
    }
    let step = step_tenths as i32;
    let value = dbz_tenths as i32;
    let half = step / 2;
    proof {
        lemma_round_down_bounds(value as int, half as int, step as int);
        lemma_round_down_bounds(-value as int, half as int, step as int);
    }
    let quantized: i32 = if value >= 0 {
        ((value + half) / step) * step
    } else {
        -(((-value + half) / step) * step)
    };
    if quantized < i16::MIN as i32 {
        i16::MIN
    } else if quantized > i16::MAX as i32 {
        i16::MAX
    } else {
        quantized as i16
    }
}

pub open spec fn max_span_spec(dbz_tenths: i16) -> u16 {
    if dbz_tenths >= 450 {
        MAX_SPAN_HIGH_DBZ
    } else {
        MAX_SPAN_LOW_DBZ
    }
}

/// Largest horizontal span of a rectangle whose bin is `dbz_tenths`.
pub fn max_span_for_dbz(dbz_tenths: i16) -> (r: u16)
    ensures
        r == max_span_spec(dbz_tenths),
        r >= 1,
{
    if dbz_tenths >= 450 {
        MAX_SPAN_HIGH_DBZ
    } else {
        MAX_SPAN_LOW_DBZ
    }
}

pub open spec fn rect_wf(r: HorizontalRect) -> bool {
    r.row_start <= r.row_end && r.col_start <= r.col_end
}

/// `inner` lies in `outer` and has its key.
pub open spec fn rect_within(inner: HorizontalRect, outer: HorizontalRect) -> bool {
    &&& outer.row_start <= inner.row_start
    &&& inner.row_end <= outer.row_end
    &&& outer.col_start <= inner.col_start
    &&& inner.col_end <= outer.col_end
    &&& inner.key == outer.key
}

/// The two rectangles share no cell.
pub open spec fn rects_disjoint(a: HorizontalRect, b: HorizontalRect) -> bool {
    a.row_end < b.row_start || b.row_end < a.row_start || a.col_end < b.col_start || b.col_end < a.col_start
}

pub open spec fn rect_spans_at_most(r: HorizontalRect, span: int) -> bool {
    &&& r.row_end - r.row_start + 1 <= span
    &&& r.col_end - r.col_start + 1 <= span
}

/// The cell (row, col) lies in the footprint of `r`.
pub open spec fn rect_covers(r: HorizontalRect, row: int, col: int) -> bool {
    r.row_start <= row <= r.row_end && r.col_start <= col <= r.col_end
}

/// The cell (row, col) lies in some piece of `pieces`.
pub open spec fn covered_by(pieces: Seq<HorizontalRect>, row: int, col: int) -> bool {
    exists|k: int| 0 <= k < pieces.len() && #[trigger] rect_covers(pieces[k], row, col)
}

/// Cuts `rect` into pieces of at most `max_span` rows and columns, row band by
/// row band, and appends them to `out`.
pub fn split_rectangle(rect: HorizontalRect, max_span: u16, out: &mut Vec<HorizontalRect>)
    requires
        rect_wf(rect),
    ensures
        final(out)@.len() >= old(out)@.len() + 1,
        final(out)@.subrange(0, old(out)@.len() as int) == old(out)@,
        forall|k: int|
            old(out)@.len() <= k < final(out)@.len() ==> {
                &&& rect_wf(#[trigger] final(out)@[k])
                &&& rect_within(final(out)@[k], rect)
                &&& rect_spans_at_most(final(out)@[k], if max_span == 0 { 1 } else { max_span as int })
            },
        forall|row: int, col: int|
            rect.row_start <= row <= rect.row_end && rect.col_start <= col <= rect.col_end
                ==> covered_by(final(out)@.subrange(old(out)@.len() as int, final(out)@.len() as int), row, col),
        forall|a: int, b: int|
            old(out)@.len() <= a < b < final(out)@.len() ==> rects_disjoint(
                #[trigger] final(out)@[a],
                #[trigger] final(out)@[b],
            ),
{
    let ghost base = old(out)@.len() as int;
    let chunk: u32 = if max_span == 0 { 1 } else { max_span as u32 };
    let mut row_start = rect.row_start;
    loop
        invariant_except_break
            forall|k: int| base <= k < out@.len() ==> (#[trigger] out@[k]).row_end < row_start,
        invariant
            rect_wf(rect),
            1 <= chunk,
            chunk as int == if max_span == 0 { 1 } else { max_span as int },
            rect.row_start <= row_start <= rect.row_end,
            base == old(out)@.len(),
            out@.len() >= base,
            out@.subrange(0, base) == old(out)@,
            row_start > rect.row_start ==> out@.len() > base,
            forall|k: int|
                base <= k < out@.len() ==> {
                    &&& rect_wf(#[trigger] out@[k])
                    &&& rect_within(out@[k], rect)
                    &&& rect_spans_at_most(out@[k], chunk as int)
                },
            forall|row: int, col: int|
                rect.row_start <= row < row_start && rect.col_start <= col <= rect.col_end
                    ==> covered_by(out@.subrange(base, out@.len() as int), row, col),
            forall|a: int, b: int|
                base <= a < b < out@.len() ==> rects_disjoint(#[trigger] out@[a], #[trigger] out@[b]),
        ensures
            forall|a: int, b: int|
                base <= a < b < out@.len() ==> rects_disjoint(#[trigger] out@[a], #[trigger] out@[b]),
            out@.len() > base,
            out@.subrange(0, base) == old(out)@,
            forall|k: int|
                base <= k < out@.len() ==> {
                    &&& rect_wf(#[trigger] out@[k])
                    &&& rect_within(out@[k], rect)
                    &&& rect_spans_at_most(out@[k], chunk as int)
                },
            forall|row: int, col: int|
                rect.row_start <= row <= rect.row_end && rect.col_start <= col <= rect.col_end
                    ==> covered_by(out@.subrange(base, out@.len() as int), row, col),
        decreases rect.row_end - row_start,
    {
        let row_end: u32 = if rect.row_end - row_start >= chunk - 1 {
            row_start + (chunk - 1)
        } else {
            rect.row_end
        };
        let mut col_start = rect.col_start;
        let ghost band_base = out@.len() as int;
        loop
            invariant_except_break
                forall|k: int| band_base <= k < out@.len() ==> (#[trigger] out@[k]).col_end < col_start,
            invariant
                rect_wf(rect),
                1 <= chunk,
                rect.row_start <= row_start <= row_end <= rect.row_end,
                row_end - row_start + 1 <= chunk,
                rect.col_start <= col_start <= rect.col_end,
                base == old(out)@.len(),
                base <= band_base <= out@.len(),
                out@.subrange(0, base) == old(out)@,
                col_start > rect.col_start ==> out@.len() > band_base,
                forall|k: int|
                    base <= k < out@.len() ==> {
                        &&& rect_wf(#[trigger] out@[k])
                        &&& rect_within(out@[k], rect)
                        &&& rect_spans_at_most(out@[k], chunk as int)
                    },
                forall|row: int, col: int|
                    rect.row_start <= row < row_start && rect.col_start <= col <= rect.col_end
                        ==> covered_by(out@.subrange(base, out@.len() as int), row, col),
                forall|row: int, col: int|
                    row_start <= row <= row_end && rect.col_start <= col < col_start
                        ==> covered_by(out@.subrange(base, out@.len() as int), row, col),
                forall|a: int, b: int|
                    base <= a < b < out@.len() ==> rects_disjoint(#[trigger] out@[a], #[trigger] out@[b]),
                forall|k: int| base <= k < band_base ==> (#[trigger] out@[k]).row_end < row_start,
                forall|k: int|
                    band_base <= k < out@.len() ==> (#[trigger] out@[k]).row_start == row_start && out@[k].row_end
                        == row_end,
            ensures
                forall|a: int, b: int|
                    base <= a < b < out@.len() ==> rects_disjoint(#[trigger] out@[a], #[trigger] out@[b]),
                forall|k: int| base <= k < band_base ==> (#[trigger] out@[k]).row_end < row_start,
                forall|k: int|
                    band_base <= k < out@.len() ==> (#[trigger] out@[k]).row_start == row_start && out@[k].row_end
                        == row_end,
                out@.len() > band_base,
                out@.subrange(0, base) == old(out)@,
                forall|k: int|
                    base <= k < out@.len() ==> {
                        &&& rect_wf(#[trigger] out@[k])
                        &&& rect_within(out@[k], rect)
                        &&& rect_spans_at_most(out@[k], chunk as int)
                    },
                forall|row: int, col: int|
                    rect.row_start <= row < row_start && rect.col_start <= col <= rect.col_end
                        ==> covered_by(out@.subrange(base, out@.len() as int), row, col),
                forall|row: int, col: int|
                    row_start <= row <= row_end && rect.col_start <= col <= rect.col_end
                        ==> covered_by(out@.subrange(base, out@.len() as int), row, col),
            decreases rect.col_end - col_start,
        {
            let col_end: u32 = if rect.col_end - col_start >= chunk - 1 {
                col_start + (chunk - 1)
            } else {
                rect.col_end
            };
            let piece = HorizontalRect { row_start, row_end, col_start, col_end, key: rect.key };
            let ghost before = out@;
            out.push(piece);
            proof {
                assert(0 <= base <= before.len());
                let sub_old = before.subrange(base, before.len() as int);
                let sub_new = out@.subrange(base, out@.len() as int);
                assert forall|row: int, col: int|
                    covered_by(sub_old, row, col) implies covered_by(sub_new, row, col) by {
                    let k = choose|k: int|
                        0 <= k < sub_old.len() && #[trigger] rect_covers(sub_old[k], row, col);
                    assert(0 <= k < sub_old.len());
                    assert(sub_old[k] == before[base + k]);
                    assert(sub_new[k] == out@[base + k]);
                    assert(out@[base + k] == before[base + k]);
                    assert(sub_new[k] == sub_old[k]);
                    assert(rect_covers(sub_new[k], row, col));
                }
                assert forall|row: int, col: int|
                    row_start <= row <= row_end && col_start <= col <= col_end implies covered_by(
                        sub_new,
                        row,
                        col,
                    ) by {
                    assert(sub_new[sub_new.len() - 1] == piece);
                    assert(rect_covers(sub_new[sub_new.len() - 1], row, col));
                }
                assert(out@.subrange(0, base) =~= before.subrange(0, base));
                assert forall|a: int, b: int|
                    base <= a < b < out@.len() implies rects_disjoint(#[trigger] out@[a], #[trigger] out@[b]) by {
                    assert(out@[a] == before[a]);
                    if b < before.len() {
                        assert(out@[b] == before[b]);
                    }
                }
                assert forall|k: int| base <= k < band_base implies (#[trigger] out@[k]).row_end < row_start by {
                    assert(out@[k] == before[k]);
                }
            }
            if col_end == rect.col_end {
                break;
            }
            col_start = col_end + 1;
        }
        if row_end == rect.row_end {
            break;
        }
        row_start = row_end + 1;
    }
}

} // verus!

verus! {

/// Lexicographic order of cells by (row, col, phase, dbz).
pub open spec fn cell_le(a: MergeCell, b: MergeCell) -> bool {
    a.row < b.row || (a.row == b.row && (a.col < b.col || (a.col == b.col && (a.key.phase
        < b.key.phase || (a.key.phase == b.key.phase && a.key.dbz_tenths <= b.key.dbz_tenths)))))
}

pub open spec fn cells_sorted(s: Seq<MergeCell>) -> bool {
    forall|i: int, j: int| 0 <= i < j < s.len() ==> cell_le(#[trigger] s[i], #[trigger] s[j])
}

/// Some cell of `cells` sits at (row, col) with `key`.
pub open spec fn has_cell(cells: Seq<MergeCell>, row: int, col: int, key: MergeKey) -> bool {
    exists|i: int|
        0 <= i < cells.len() && (#[trigger] cells[i]).row == row && cells[i].col == col
            && cells[i].key == key
}

/// Every cell of the footprint of `r` is a cell of `cells` with `r`'s key.
pub open spec fn rect_sound(cells: Seq<MergeCell>, r: HorizontalRect) -> bool {
    forall|row: int, col: int|
        #![trigger rect_covers(r, row, col)]
        rect_covers(r, row, col) ==> has_cell(cells, row, col, r.key)
}

pub open spec fn run_sound(cells: Seq<MergeCell>, run: RowRun) -> bool {
    &&& run.col_start <= run.col_end
    &&& forall|col: int|
        run.col_start <= col <= run.col_end ==> #[trigger] has_cell(cells, run.row as int, col, run.key)
}

/// Relies on `slice::sort_unstable_by_key`: it permutes the cells into ascending
/// (row, col, phase, dbz) order, the order of the key tuple.
#[verifier::external_body]
fn sort_cells(cells: &mut Vec<MergeCell>)
    ensures
        final(cells)@.to_multiset() == old(cells)@.to_multiset(),
        cells_sorted(final(cells)@),
{
    cells.sort_unstable_by_key(|c| (c.row, c.col, c.key.phase, c.key.dbz_tenths));
}

proof fn lemma_has_cell_permuted(a: Seq<MergeCell>, b: Seq<MergeCell>, row: int, col: int, key: MergeKey)
    requires
        a.to_multiset() == b.to_multiset(),
        has_cell(a, row, col, key),
    ensures
        has_cell(b, row, col, key),
{
    let i = choose|i: int|
        0 <= i < a.len() && (#[trigger] a[i]).row == row && a[i].col == col && a[i].key == key;
    assert(a.contains(a[i]));
    assert(a.to_multiset().count(a[i]) > 0);
    assert(b.to_multiset().count(a[i]) > 0);
    assert(b.contains(a[i]));
    let j = choose|j: int| 0 <= j < b.len() && b[j] == a[i];
    assert(b[j].row == row && b[j].col == col && b[j].key == key);
}

/// The run holds the cell: same row and key, and the cell's column in its span.
pub open spec fn run_covers(run: RowRun, c: MergeCell) -> bool {
    run.row == c.row && run.col_start <= c.col <= run.col_end && run.key == c.key
}

pub open spec fn covered_by_runs(runs: Seq<RowRun>, c: MergeCell) -> bool {
    exists|r: int| 0 <= r < runs.len() && run_covers(#[trigger] runs[r], c)
}

/// No two cells share a position.
pub open spec fn positions_unique(cells: Seq<MergeCell>) -> bool {
    forall|i: int, j: int|
        0 <= i < j < cells.len() ==> !((#[trigger] cells[i]).row == (#[trigger] cells[j]).row && cells[i].col
            == cells[j].col)
}

/// Run `a` lies before run `b` in row-major order, without overlap.
pub open spec fn run_before(a: RowRun, b: RowRun) -> bool {
    a.row < b.row || (a.row == b.row && a.col_end < b.col_start)
}

pub open spec fn runs_ordered(runs: Seq<RowRun>) -> bool {
    forall|p: int, q: int| 0 <= p < q < runs.len() ==> run_before(#[trigger] runs[p], #[trigger] runs[q])
}

/// Cuts sorted cells into runs: contiguous columns of one row with one key.
fn collect_row_runs(cells: &Vec<MergeCell>) -> (runs: Vec<RowRun>)
    requires
        cells@.len() > 0,
    ensures
        runs@.len() > 0,
        forall|k: int| 0 <= k < runs@.len() ==> run_sound(cells@, #[trigger] runs@[k]),
        forall|k: int| 0 <= k < cells@.len() ==> covered_by_runs(runs@, #[trigger] cells@[k]),
        cells_sorted(cells@) && positions_unique(cells@) ==> runs_ordered(runs@),
{
    let n = cells.len();
    let mut runs: Vec<RowRun> = Vec::new();
    let first = cells[0];
    let mut run = RowRun { row: first.row, col_start: first.col, col_end: first.col, key: first.key };
    assert(cells@[0] == first);
    assert(has_cell(cells@, run.row as int, first.col as int, run.key));
    let mut i: usize = 1;
    while i < n
        invariant
            n == cells@.len(),
            1 <= i <= n,
            run_sound(cells@, run),
            forall|k: int| 0 <= k < runs@.len() ==> run_sound(cells@, #[trigger] runs@[k]),
            forall|k: int|
                0 <= k < i ==> run_covers(run, #[trigger] cells@[k]) || covered_by_runs(runs@, cells@[k]),
            cells_sorted(cells@) && positions_unique(cells@) ==> {
                &&& runs_ordered(runs@)
                &&& forall|p: int| 0 <= p < runs@.len() ==> run_before(#[trigger] runs@[p], run)
                &&& run.row == cells@[i - 1].row
                &&& run.col_end == cells@[i - 1].col
            },
        decreases n - i,
    {
        let cell = cells[i];
        proof {
            if cells_sorted(cells@) && positions_unique(cells@) {
                assert(cell_le(cells@[i - 1], cells@[i as int]));
                assert(!(cells@[i - 1].row == cells@[i as int].row && cells@[i - 1].col == cells@[i as int].col));
            }
        }
        assert(cells@[i as int] == cell);
        assert(has_cell(cells@, cell.row as int, cell.col as int, cell.key));
        let same_group = cell.row == run.row && cell.key == run.key;
        let ghost old_run = run;
        let ghost old_runs = runs@;
        if same_group && cell.col == run.col_end {
        } else if same_group && run.col_end < u32::MAX && cell.col == run.col_end + 1 {
            run.col_end = cell.col;
        } else {
            runs.push(run);
            run = RowRun { row: cell.row, col_start: cell.col, col_end: cell.col, key: cell.key };
            proof {
                if cells_sorted(cells@) && positions_unique(cells@) {
                    assert forall|p: int| 0 <= p < runs@.len() implies run_before(#[trigger] runs@[p], run) by {
                        if p < old_runs.len() {
                            assert(runs@[p] == old_runs[p]);
                            assert(run_before(old_runs[p], old_run));
                        }
                    }
                    assert forall|p: int, q: int| 0 <= p < q < runs@.len() implies run_before(
                        #[trigger] runs@[p],
                        #[trigger] runs@[q],
                    ) by {
                        assert(runs@[p] == old_runs[p]);
                        if q < old_runs.len() {
                            assert(runs@[q] == old_runs[q]);
                        }
                    }
                }
                assert forall|k: int| 0 <= k < i implies run_covers(run, #[trigger] cells@[k]) || covered_by_runs(
                    runs@,
                    cells@[k],
                ) by {
                    if run_covers(old_run, cells@[k]) {
                        assert(runs@[old_runs.len() as int] == old_run);
                    } else {
                        let r = choose|r: int| 0 <= r < old_runs.len() && run_covers(#[trigger] old_runs[r], cells@[k]);
                        assert(runs@[r] == old_runs[r]);
                    }
                }
            }
        }
        i = i + 1;
    }
    let ghost last_run = run;
    let ghost old_runs = runs@;
    runs.push(run);
    proof {
        if cells_sorted(cells@) && positions_unique(cells@) {
            assert forall|p: int, q: int| 0 <= p < q < runs@.len() implies run_before(
                #[trigger] runs@[p],
                #[trigger] runs@[q],
            ) by {
                assert(runs@[p] == old_runs[p]);
                if q < old_runs.len() {
                    assert(runs@[q] == old_runs[q]);
                }
            }
        }
        assert forall|k: int| 0 <= k < cells@.len() implies covered_by_runs(runs@, #[trigger] cells@[k]) by {
            if run_covers(last_run, cells@[k]) {
                assert(runs@[old_runs.len() as int] == last_run);
            } else {
                let r = choose|r: int| 0 <= r < old_runs.len() && run_covers(#[trigger] old_runs[r], cells@[k]);
                assert(runs@[r] == old_runs[r]);
            }
        }
    }
    runs
}

} // verus!

verus! {

/// The rectangle spans the row of the run with the run's columns and key.
pub open spec fn rect_holds_run(r: HorizontalRect, run: RowRun) -> bool {
    r.row_start <= run.row <= r.row_end && r.col_start == run.col_start && r.col_end == run.col_end
        && r.key == run.key
}

pub open spec fn rects_hold_run(rects: Seq<HorizontalRect>, run: RowRun) -> bool {
    exists|k: int| 0 <= k < rects.len() && rect_holds_run(#[trigger] rects[k], run)
}

/// Some rectangle of `rects` covers the cell with the cell's key.
pub open spec fn cell_in_rects(rects: Seq<HorizontalRect>, c: MergeCell) -> bool {
    exists|k: int|
        0 <= k < rects.len() && rect_covers(#[trigger] rects[k], c.row as int, c.col as int) && rects[k].key
            == c.key
}

/// Some run that `owner` gives to rectangle `k` lies on row `r`.
pub open spec fn row_owned(owner: Seq<int>, runs: Seq<RowRun>, k: int, r: int) -> bool {
    exists|q: int| 0 <= q < owner.len() && owner[q] == k && (#[trigger] runs[q]).row == r
}

pub open spec fn rects_pairwise_disjoint(rects: Seq<HorizontalRect>) -> bool {
    forall|a: int, b: int| 0 <= a < b < rects.len() ==> rects_disjoint(#[trigger] rects[a], #[trigger] rects[b])
}

proof fn lemma_row_owned_push(owner: Seq<int>, runs: Seq<RowRun>, x: int, k: int, r: int)
    requires
        row_owned(owner, runs, k, r),
    ensures
        row_owned(owner.push(x), runs, k, r),
{
    let q = choose|q: int| 0 <= q < owner.len() && owner[q] == k && (#[trigger] runs[q]).row == r;
    assert(owner.push(x)[q] == owner[q]);
}

/// Rectangles built from ordered runs, each row of each rectangle backed by a
/// run of its own with the rectangle's columns, do not overlap.
proof fn lemma_owned_rects_disjoint(runs: Seq<RowRun>, rects: Seq<HorizontalRect>, owner: Seq<int>)
    requires
        runs_ordered(runs),
        owner.len() == runs.len(),
        forall|q: int|
            0 <= q < owner.len() ==> 0 <= #[trigger] owner[q] < rects.len() && rects[owner[q]].col_start
                == runs[q].col_start && rects[owner[q]].col_end == runs[q].col_end,
        forall|k: int, r: int|
            0 <= k < rects.len() && rects[k].row_start <= r <= rects[k].row_end ==> #[trigger] row_owned(
                owner,
                runs,
                k,
                r,
            ),
        forall|k: int| 0 <= k < rects.len() ==> rect_wf(#[trigger] rects[k]),
    ensures
        rects_pairwise_disjoint(rects),
{
    assert forall|a: int, b: int| 0 <= a < b < rects.len() implies rects_disjoint(
        #[trigger] rects[a],
        #[trigger] rects[b],
    ) by {
        if !rects_disjoint(rects[a], rects[b]) {
            let ra = rects[a];
            let rb = rects[b];
            let r = if ra.row_start >= rb.row_start { ra.row_start as int } else { rb.row_start as int };
            let c = if ra.col_start >= rb.col_start { ra.col_start as int } else { rb.col_start as int };
            assert(row_owned(owner, runs, a, r));
            assert(row_owned(owner, runs, b, r));
            let q1 = choose|q: int| 0 <= q < owner.len() && owner[q] == a && (#[trigger] runs[q]).row == r;
            let q2 = choose|q: int| 0 <= q < owner.len() && owner[q] == b && (#[trigger] runs[q]).row == r;
            assert(q1 != q2);
            if q1 < q2 {
                assert(run_before(runs[q1], runs[q2]));
            } else {
                assert(run_before(runs[q2], runs[q1]));
            }
        }
    }
}

proof fn lemma_unique_permuted(a: Seq<MergeCell>, b: Seq<MergeCell>)
    requires
        a.to_multiset() == b.to_multiset(),
        positions_unique(a),
    ensures
        positions_unique(b),
{
    assert(a.no_duplicates()) by {
        assert forall|i: int, j: int| 0 <= i < a.len() && 0 <= j < a.len() && i != j implies a[i] != a[j] by {
            if i < j {
                assert(!(a[i].row == a[j].row && a[i].col == a[j].col));
            } else {
                assert(!(a[j].row == a[i].row && a[j].col == a[i].col));
            }
        }
    }
    a.lemma_multiset_has_no_duplicates();
    b.lemma_multiset_has_no_duplicates_conv();
    assert forall|i: int, j: int| 0 <= i < j < b.len() implies !((#[trigger] b[i]).row == (#[trigger] b[j]).row
        && b[i].col == b[j].col) by {
        if b[i].row == b[j].row && b[i].col == b[j].col {
            assert(b[i] != b[j]);
            assert(b.contains(b[i]));
            assert(b.contains(b[j]));
            assert(a.to_multiset().count(b[i]) > 0);
            assert(a.to_multiset().count(b[j]) > 0);
            assert(a.contains(b[i]));
            assert(a.contains(b[j]));
            let ia = choose|ia: int| 0 <= ia < a.len() && a[ia] == b[i];
            let ib = choose|ib: int| 0 <= ib < a.len() && a[ib] == b[j];
            if ia < ib {
                assert(!(a[ia].row == a[ib].row && a[ia].col == a[ib].col));
            } else {
                assert(!(a[ib].row == a[ia].row && a[ib].col == a[ia].col));
            }
        }
    }
}

/// Merges the cells of one level into rectangles: runs of contiguous columns with
/// one key, stacked over consecutive rows while the same run recurs. The cells are
/// sorted by (row, col, phase, dbz) on the way.
#[verifier::rlimit(100)]
pub fn build_level_rectangles(cells: &mut Vec<MergeCell>) -> (rects: Vec<HorizontalRect>)
    ensures
        final(cells)@.to_multiset() == old(cells)@.to_multiset(),
        cells_sorted(final(cells)@),
        old(cells)@.len() == 0 <==> rects@.len() == 0,
        forall|k: int|
            0 <= k < rects@.len() ==> rect_wf(#[trigger] rects@[k]) && rect_sound(
                old(cells)@,
                rects@[k],
            ),
        forall|i: int| 0 <= i < old(cells)@.len() ==> cell_in_rects(rects@, #[trigger] old(cells)@[i]),
        positions_unique(old(cells)@) ==> rects_pairwise_disjoint(rects@),
{
    sort_cells(cells);
    if cells.len() == 0 {
        proof {
            assert(final(cells)@.to_multiset().len() == 0);
        }
        return Vec::new();
    }
    let runs = collect_row_runs(cells);
    let ghost sorted = cells@;
    let ghost mut owner: Seq<int> = Seq::empty();
    let mut rects: Vec<HorizontalRect> = Vec::new();
    let mut active: Vec<usize> = Vec::new();
    let mut next_active: Vec<usize> = Vec::new();
    let mut cur_row: u32 = runs[0].row;
    let mut j: usize = 0;
    while j < runs.len()
        invariant
            sorted == cells@,
            0 <= j <= runs@.len(),
            runs@.len() > 0,
            j > 0 ==> rects@.len() > 0,
            forall|k: int| 0 <= k < runs@.len() ==> run_sound(sorted, #[trigger] runs@[k]),
            forall|k: int| 0 <= k < sorted.len() ==> covered_by_runs(runs@, #[trigger] sorted[k]),
            forall|q: int| 0 <= q < j ==> rects_hold_run(rects@, #[trigger] runs@[q]),
            forall|k: int|
                0 <= k < rects@.len() ==> rect_wf(#[trigger] rects@[k]) && rect_sound(
                    sorted,
                    rects@[k],
                ),
            owner.len() == j,
            forall|q: int|
                0 <= q < owner.len() ==> 0 <= #[trigger] owner[q] < rects@.len() && rects@[owner[q]].col_start
                    == runs@[q].col_start && rects@[owner[q]].col_end == runs@[q].col_end,
            forall|k: int, r: int|
                0 <= k < rects@.len() && rects@[k].row_start <= r <= rects@[k].row_end ==> #[trigger] row_owned(
                    owner,
                    runs@,
                    k,
                    r,
                ),
            forall|p: int|
                0 <= p < active@.len() ==> {
                    &&& (#[trigger] active@[p]) < rects@.len()
                    &&& rects@[active@[p] as int].row_end <= cur_row
                    &&& rects@[active@[p] as int].row_end + 1 >= cur_row
                },
            forall|p: int|
                0 <= p < next_active@.len() ==> {
                    &&& (#[trigger] next_active@[p]) < rects@.len()
                    &&& rects@[next_active@[p] as int].row_end == cur_row
                },
        decreases runs@.len() - j,
    {
        let run = runs[j];
        assert(run_sound(sorted, run));
        if run.row != cur_row {
            if cur_row < u32::MAX && run.row == cur_row + 1 {
                active = next_active;
            } else {
                active = Vec::new();
            }
            next_active = Vec::new();
            cur_row = run.row;
        }
        let mut p: usize = 0;
        let mut found: Option<usize> = None;
        while p < active.len()
            invariant
                0 <= p <= active@.len(),
                found is Some ==> {
                    &&& found->0 < active@.len()
                    &&& active@[found->0 as int] < rects@.len()
                    &&& rects@[active@[found->0 as int] as int].col_start == run.col_start
                    &&& rects@[active@[found->0 as int] as int].col_end == run.col_end
                    &&& rects@[active@[found->0 as int] as int].key == run.key
                },
            decreases active@.len() - p,
        {
            let idx = active[p];
            if idx < rects.len() {
                let cand = rects[idx];
                if cand.col_start == run.col_start && cand.col_end == run.col_end && cand.key
                    == run.key {
                    found = Some(p);
                    break;
                }
            }
            p = p + 1;
        }
        match found {
            Some(pos) => {
                let ghost before_active = active@;
                let idx = active.remove(pos);
                assert(idx == before_active[pos as int]);
                let old_rect = rects[idx];
                proof {
                    assert forall|q: int| 0 <= q < active@.len() implies (#[trigger] active@[q])
                        < rects@.len() && rects@[active@[q] as int].row_end <= cur_row
                        && rects@[active@[q] as int].row_end + 1 >= cur_row by {
                        if q < pos {
                            assert(active@[q] == before_active[q]);
                        } else {
                            assert(active@[q] == before_active[q + 1]);
                        }
                    }
                }
                let ghost before = rects@;
                let extended = HorizontalRect { row_end: run.row, ..old_rect };
                rects.set(idx, extended);
                proof {
                    assert forall|row: int, col: int|
                        #![trigger rect_covers(extended, row, col)]
                        rect_covers(extended, row, col) implies has_cell(
                            sorted,
                            row,
                            col,
                            extended.key,
                        ) by {
                        if row <= old_rect.row_end {
                            assert(rect_covers(old_rect, row, col));
                        } else {
                            assert(has_cell(sorted, run.row as int, col, run.key));
                        }
                    }
                    assert(rect_sound(sorted, rects@[idx as int]));
                    assert forall|q: int| 0 <= q < j + 1 implies rects_hold_run(rects@, #[trigger] runs@[q]) by {
                        if q == j {
                            assert(rect_holds_run(rects@[idx as int], run));
                        } else {
                            let k = choose|k: int| 0 <= k < before.len() && rect_holds_run(#[trigger] before[k], runs@[q]);
                            if k == idx {
                                assert(rect_holds_run(rects@[k], runs@[q]));
                            } else {
                                assert(rects@[k] == before[k]);
                            }
                        }
                    }
                    let old_owner = owner;
                    owner = owner.push(idx as int);
                    assert forall|q: int|
                        0 <= q < owner.len() implies 0 <= #[trigger] owner[q] < rects@.len() && rects@[owner[q]].col_start
                        == runs@[q].col_start && rects@[owner[q]].col_end == runs@[q].col_end by {
                        if q < old_owner.len() {
                            assert(owner[q] == old_owner[q]);
                            if owner[q] != idx {
                                assert(rects@[owner[q]] == before[owner[q]]);
                            }
                        }
                    }
                    assert forall|k: int, r: int|
                        0 <= k < rects@.len() && rects@[k].row_start <= r <= rects@[k].row_end implies #[trigger] row_owned(
                        owner,
                        runs@,
                        k,
                        r,
                    ) by {
                        if k != idx {
                            assert(rects@[k] == before[k]);
                            lemma_row_owned_push(old_owner, runs@, idx as int, k, r);
                        } else if r <= old_rect.row_end {
                            assert(row_owned(old_owner, runs@, k, r));
                            lemma_row_owned_push(old_owner, runs@, idx as int, k, r);
                        } else {
                            assert(owner[j as int] == idx);
                            assert(runs@[j as int].row == r);
                        }
                    }
                }
                next_active.push(idx);
            },
            None => {
                let idx = rects.len();
                let ghost before_push = rects@;
                rects.push(
                    HorizontalRect {
                        row_start: run.row,
                        row_end: run.row,
                        col_start: run.col_start,
                        col_end: run.col_end,
                        key: run.key,
                    },
                );
                proof {
                    let r = rects@[idx as int];
                    assert forall|q: int| 0 <= q < j + 1 implies rects_hold_run(rects@, #[trigger] runs@[q]) by {
                        if q == j {
                            assert(rect_holds_run(rects@[idx as int], run));
                        } else {
                            let k = choose|k: int| 0 <= k < before_push.len() && rect_holds_run(#[trigger] before_push[k], runs@[q]);
                            assert(rects@[k] == before_push[k]);
                        }
                    }
                    assert forall|row: int, col: int|
                        #![trigger rect_covers(r, row, col)]
                        rect_covers(r, row, col) implies has_cell(sorted, row, col, r.key) by {
                        assert(has_cell(sorted, run.row as int, col, run.key));
                    }
                    let old_owner = owner;
                    owner = owner.push(idx as int);
                    assert forall|q: int|
                        0 <= q < owner.len() implies 0 <= #[trigger] owner[q] < rects@.len() && rects@[owner[q]].col_start
                        == runs@[q].col_start && rects@[owner[q]].col_end == runs@[q].col_end by {
                        if q < old_owner.len() {
                            assert(owner[q] == old_owner[q]);
                            assert(rects@[owner[q]] == before_push[owner[q]]);
                        }
                    }
                    assert forall|k: int, r2: int|
                        0 <= k < rects@.len() && rects@[k].row_start <= r2 <= rects@[k].row_end implies #[trigger] row_owned(
                        owner,
                        runs@,
                        k,
                        r2,
                    ) by {
                        if k < idx {
                            assert(rects@[k] == before_push[k]);
                            lemma_row_owned_push(old_owner, runs@, idx as int, k, r2);
                        } else {
                            assert(owner[j as int] == idx);
                            assert(runs@[j as int].row == r2);
                        }
                    }
                }
                next_active.push(idx);
            },
        }
        j = j + 1;
    }
    proof {
        if positions_unique(old(cells)@) {
            lemma_unique_permuted(old(cells)@, sorted);
            assert(runs_ordered(runs@));
            lemma_owned_rects_disjoint(runs@, rects@, owner);
        }
        assert(cells@.to_multiset().len() == cells@.len());
        assert(old(cells)@.to_multiset().len() == old(cells)@.len());
        assert forall|i: int| 0 <= i < old(cells)@.len() implies cell_in_rects(rects@, #[trigger] old(cells)@[i]) by {
            let c = old(cells)@[i];
            assert(old(cells)@.contains(c));
            assert(old(cells)@.to_multiset().count(c) > 0);
            assert(sorted.contains(c));
            let s_idx = choose|s_idx: int| 0 <= s_idx < sorted.len() && sorted[s_idx] == c;
            assert(covered_by_runs(runs@, sorted[s_idx]));
            let r = choose|r: int| 0 <= r < runs@.len() && run_covers(#[trigger] runs@[r], c);
            assert(rects_hold_run(rects@, runs@[r]));
            let k = choose|k: int| 0 <= k < rects@.len() && rect_holds_run(#[trigger] rects@[k], runs@[r]);
            assert(rect_covers(rects@[k], c.row as int, c.col as int));
        }
        assert forall|k: int| 0 <= k < rects@.len() implies rect_sound(old(cells)@, #[trigger] rects@[k]) by {
            let r = rects@[k];
            assert(rect_sound(sorted, r));
            assert forall|row: int, col: int|
                #![trigger rect_covers(r, row, col)]
                rect_covers(r, row, col) implies has_cell(old(cells)@, row, col, r.key) by {
                lemma_has_cell_permuted(sorted, old(cells)@, row, col, r.key);
            }
        }
    }
    rects
}

} // verus!

verus! {

/// Some rectangle of `rects` has exactly the footprint and key of `b`.
pub open spec fn has_rect_of(rects: Seq<HorizontalRect>, b: BrickCandidate) -> bool {
    exists|i: int|
        0 <= i < rects.len() && (#[trigger] rects[i]).row_start == b.row_start
            && rects[i].row_end == b.row_end && rects[i].col_start == b.col_start
            && rects[i].col_end == b.col_end && rects[i].key == b.key
}

/// A brick stands on a rectangle of each level it covers, covers at most
/// `MAX_VERTICAL_SPAN` consecutive levels, and no level it covers starts above
/// the one below it.
pub open spec fn brick_sound(
    rects_by_level: Seq<Vec<HorizontalRect>>,
    bounds: Seq<LevelBounds>,
    b: BrickCandidate,
) -> bool {
    &&& b.level_start <= b.level_end < rects_by_level.len()
    &&& b.level_end - b.level_start + 1 <= MAX_VERTICAL_SPAN
    &&& forall|l: int|
        b.level_start <= l <= b.level_end ==> has_rect_of(#[trigger] rects_by_level[l]@, b)
    &&& forall|l: int|
        b.level_start < l <= b.level_end ==> (#[trigger] bounds[l]).bottom_feet <= bounds[l
            - 1].top_feet + 1
}

/// The brick stands on rectangle `r` at level `l`: it covers the level, with
/// the rectangle's footprint and key.
pub open spec fn brick_holds(b: BrickCandidate, l: int, r: HorizontalRect) -> bool {
    &&& b.level_start <= l <= b.level_end
    &&& b.row_start == r.row_start
    &&& b.row_end == r.row_end
    &&& b.col_start == r.col_start
    &&& b.col_end == r.col_end
    &&& b.key == r.key
}

pub open spec fn bricks_hold(bricks: Seq<BrickCandidate>, l: int, r: HorizontalRect) -> bool {
    exists|k: int| 0 <= k < bricks.len() && brick_holds(#[trigger] bricks[k], l, r)
}

/// The bricks' level ranges only grow at their top: each old brick is a new
/// brick of the same footprint, start and key whose end is at least the old end.
pub open spec fn bricks_grow(old_b: Seq<BrickCandidate>, new_b: Seq<BrickCandidate>) -> bool {
    &&& old_b.len() <= new_b.len()
    &&& forall|k: int|
        0 <= k < old_b.len() ==> {
            &&& (#[trigger] new_b[k]).row_start == old_b[k].row_start
            &&& new_b[k].row_end == old_b[k].row_end
            &&& new_b[k].col_start == old_b[k].col_start
            &&& new_b[k].col_end == old_b[k].col_end
            &&& new_b[k].key == old_b[k].key
            &&& new_b[k].level_start == old_b[k].level_start
            &&& new_b[k].level_end >= old_b[k].level_end
        }
}

proof fn lemma_bricks_grow_hold(old_b: Seq<BrickCandidate>, new_b: Seq<BrickCandidate>, l: int, r: HorizontalRect)
    requires
        bricks_grow(old_b, new_b),
        bricks_hold(old_b, l, r),
    ensures
        bricks_hold(new_b, l, r),
{
    let k = choose|k: int| 0 <= k < old_b.len() && brick_holds(#[trigger] old_b[k], l, r);
    assert(brick_holds(new_b[k], l, r));
}

/// Position in `active` of a brick with the footprint and key of `rect`.
fn find_matching_brick(bricks: &Vec<BrickCandidate>, active: &Vec<usize>, rect: &HorizontalRect) -> (found: Option<
    usize,
>)
    ensures
        found is Some ==> {
            &&& found->0 < active@.len()
            &&& active@[found->0 as int] < bricks@.len()
            &&& bricks@[active@[found->0 as int] as int].row_start == rect.row_start
            &&& bricks@[active@[found->0 as int] as int].row_end == rect.row_end
            &&& bricks@[active@[found->0 as int] as int].col_start == rect.col_start
            &&& bricks@[active@[found->0 as int] as int].col_end == rect.col_end
            &&& bricks@[active@[found->0 as int] as int].key == rect.key
        },
{
    let mut p: usize = 0;
    let mut found: Option<usize> = None;
    while p < active.len()
        invariant
            0 <= p <= active@.len(),
            found is Some ==> {
                &&& found->0 < active@.len()
                &&& active@[found->0 as int] < bricks@.len()
                &&& bricks@[active@[found->0 as int] as int].row_start == rect.row_start
                &&& bricks@[active@[found->0 as int] as int].row_end == rect.row_end
                &&& bricks@[active@[found->0 as int] as int].col_start == rect.col_start
                &&& bricks@[active@[found->0 as int] as int].col_end == rect.col_end
                &&& bricks@[active@[found->0 as int] as int].key == rect.key
            },
        decreases active@.len() - p,
    {
        let idx = active[p];
        if idx < bricks.len() {
            let cand = bricks[idx];
            if cand.row_start == rect.row_start && cand.row_end == rect.row_end && cand.col_start
                == rect.col_start && cand.col_end == rect.col_end && cand.key == rect.key {
                found = Some(p);
                break;
            }
        }
        p = p + 1;
    }
    found
}

proof fn lemma_grown_brick_sound(
    rects_by_level: Seq<Vec<HorizontalRect>>,
    level_bounds: Seq<LevelBounds>,
    current: BrickCandidate,
    grown: BrickCandidate,
    level: int,
    i: int,
)
    requires
        brick_sound(rects_by_level, level_bounds, current),
        0 <= level < rects_by_level.len(),
        0 <= i < rects_by_level[level]@.len(),
        current.level_end + 1 == level,
        level - current.level_start + 1 <= MAX_VERTICAL_SPAN,
        level_bounds[level].bottom_feet <= level_bounds[current.level_end as int].top_feet + 1,
        grown == (BrickCandidate { level_end: level as u8, ..current }),
        rects_by_level[level]@[i].row_start == current.row_start,
        rects_by_level[level]@[i].row_end == current.row_end,
        rects_by_level[level]@[i].col_start == current.col_start,
        rects_by_level[level]@[i].col_end == current.col_end,
        rects_by_level[level]@[i].key == current.key,
        level < 256,
    ensures
        brick_sound(rects_by_level, level_bounds, grown),
{
    assert forall|l: int| grown.level_start <= l <= grown.level_end implies has_rect_of(
        #[trigger] rects_by_level[l]@,
        grown,
    ) by {
        if l < level {
            assert(has_rect_of(rects_by_level[l]@, current));
        } else {
            assert(rects_by_level[l]@[i] == rects_by_level[level]@[i]);
        }
    }
    assert forall|l: int|
        grown.level_start < l <= grown.level_end implies (#[trigger] level_bounds[l]).bottom_feet
        <= level_bounds[l - 1].top_feet + 1 by {
    }
}

/// The brick has the footprint and key of rectangle `r`.
pub open spec fn brick_on_rect(b: BrickCandidate, r: HorizontalRect) -> bool {
    b.row_start == r.row_start && b.row_end == r.row_end && b.col_start == r.col_start && b.col_end
        == r.col_end && b.key == r.key
}

pub open spec fn same_footprint(a: BrickCandidate, b: BrickCandidate) -> bool {
    a.row_start == b.row_start && a.row_end == b.row_end && a.col_start == b.col_start && a.col_end
        == b.col_end && a.key == b.key
}

/// Bricks of one footprint and key never share a level.
pub open spec fn stacks_apart(bricks: Seq<BrickCandidate>) -> bool {
    forall|k: int, m: int|
        0 <= k < m < bricks.len() && same_footprint(#[trigger] bricks[k], #[trigger] bricks[m])
            ==> bricks[k].level_end < bricks[m].level_start || bricks[m].level_end < bricks[k].level_start
}

/// No brick reaches above `level`, and those that reach it stand on one of the
/// first `i` rectangles of that level.
pub open spec fn bricks_up_to(bricks: Seq<BrickCandidate>, rects: Seq<HorizontalRect>, level: int, i: int) -> bool {
    forall|k: int|
        0 <= k < bricks.len() ==> (#[trigger] bricks[k]).level_start <= bricks[k].level_end <= level && (
        bricks[k].level_end == level ==> exists|q: int| 0 <= q < i && brick_on_rect(bricks[k], #[trigger] rects[q]))
}

/// `new` is `old` with one brick grown from `level - 1` to `level` on rectangle
/// `r`, or with one brick of the single level `level` on `r` added.
pub open spec fn placed_one(old_b: Seq<BrickCandidate>, new_b: Seq<BrickCandidate>, level: int, r: HorizontalRect) -> bool {
    ||| (new_b.len() == old_b.len() + 1 && new_b.subrange(0, old_b.len() as int) == old_b && brick_on_rect(
        new_b[old_b.len() as int],
        r,
    ) && new_b[old_b.len() as int].level_start == level && new_b[old_b.len() as int].level_end == level)
    ||| exists|k: int|
        0 <= k < old_b.len() && old_b[k].level_end + 1 == level && brick_on_rect(#[trigger] old_b[k], r)
            && new_b == old_b.update(k, BrickCandidate { level_end: level as u8, ..old_b[k] })
}

proof fn lemma_placed_up_to(
    old_b: Seq<BrickCandidate>,
    new_b: Seq<BrickCandidate>,
    rects: Seq<HorizontalRect>,
    level: int,
    i: int,
)
    requires
        bricks_up_to(old_b, rects, level, i),
        0 <= i < rects.len(),
        0 <= level < 256,
        placed_one(old_b, new_b, level, rects[i]),
    ensures
        bricks_up_to(new_b, rects, level, i + 1),
{
    let r = rects[i];
    if new_b.len() == old_b.len() + 1 && new_b.subrange(0, old_b.len() as int) == old_b && brick_on_rect(
        new_b[old_b.len() as int],
        r,
    ) && new_b[old_b.len() as int].level_start == level && new_b[old_b.len() as int].level_end == level {
        let n = old_b.len() as int;
        assert forall|k: int| 0 <= k < new_b.len() implies (#[trigger] new_b[k]).level_start <= new_b[k].level_end
            <= level && (new_b[k].level_end == level ==> exists|q: int| 0 <= q < i + 1 && brick_on_rect(new_b[k], #[trigger] rects[q])) by {
            if k == n {
                assert(brick_on_rect(new_b[k], rects[i]));
            } else {
                assert(new_b[k] == new_b.subrange(0, n)[k]);
                if new_b[k].level_end == level {
                    let q = choose|q: int| 0 <= q < i && brick_on_rect(old_b[k], #[trigger] rects[q]);
                    assert(brick_on_rect(new_b[k], rects[q]));
                }
            }
        }
    } else {
        let g = choose|k: int|
            0 <= k < old_b.len() && old_b[k].level_end + 1 == level && brick_on_rect(#[trigger] old_b[k], r)
                && new_b == old_b.update(k, BrickCandidate { level_end: level as u8, ..old_b[k] });
        assert forall|k: int| 0 <= k < new_b.len() implies (#[trigger] new_b[k]).level_start <= new_b[k].level_end
            <= level && (new_b[k].level_end == level ==> exists|q: int| 0 <= q < i + 1 && brick_on_rect(new_b[k], #[trigger] rects[q])) by {
            if k == g {
                assert(brick_on_rect(new_b[k], rects[i]));
            } else {
                assert(new_b[k] == old_b[k]);
                if new_b[k].level_end == level {
                    let q = choose|q: int| 0 <= q < i && brick_on_rect(old_b[k], #[trigger] rects[q]);
                    assert(brick_on_rect(new_b[k], rects[q]));
                }
            }
        }
    }
}

proof fn lemma_no_brick_at_level_on(
    bricks: Seq<BrickCandidate>,
    rects: Seq<HorizontalRect>,
    level: int,
    i: int,
    m: int,
)
    requires
        bricks_up_to(bricks, rects, level, i),
        rects_pairwise_disjoint(rects),
        forall|q: int| 0 <= q < rects.len() ==> rect_wf(#[trigger] rects[q]),
        0 <= i < rects.len(),
        0 <= m < bricks.len(),
        brick_on_rect(bricks[m], rects[i]),
    ensures
        bricks[m].level_end < level,
{
    if bricks[m].level_end == level {
        let q = choose|q: int| 0 <= q < i && brick_on_rect(bricks[m], #[trigger] rects[q]);
        assert(rects_disjoint(rects[q], rects[i]));
    }
}

proof fn lemma_placed_keeps_apart(
    old_b: Seq<BrickCandidate>,
    new_b: Seq<BrickCandidate>,
    rects: Seq<HorizontalRect>,
    level: int,
    i: int,
)
    requires
        stacks_apart(old_b),
        bricks_up_to(old_b, rects, level, i),
        rects_pairwise_disjoint(rects),
        forall|q: int| 0 <= q < rects.len() ==> rect_wf(#[trigger] rects[q]),
        0 <= i < rects.len(),
        0 <= level < 256,
        placed_one(old_b, new_b, level, rects[i]),
    ensures
        stacks_apart(new_b),
        bricks_up_to(new_b, rects, level, i + 1),
{
    let r = rects[i];
    if new_b.len() == old_b.len() + 1 && new_b.subrange(0, old_b.len() as int) == old_b && brick_on_rect(
        new_b[old_b.len() as int],
        r,
    ) && new_b[old_b.len() as int].level_start == level && new_b[old_b.len() as int].level_end == level {
        let n = old_b.len() as int;
        assert forall|k: int| 0 <= k < n implies #[trigger] new_b[k] == old_b[k] by {
            assert(new_b[k] == new_b.subrange(0, n)[k]);
        }
        assert forall|k: int, m: int|
            0 <= k < m < new_b.len() && same_footprint(#[trigger] new_b[k], #[trigger] new_b[m]) implies new_b[k].level_end
            < new_b[m].level_start || new_b[m].level_end < new_b[k].level_start by {
            if m == n {
                assert(brick_on_rect(old_b[k], r));
                lemma_no_brick_at_level_on(old_b, rects, level, i, k);
            } else {
                assert(new_b[k] == old_b[k] && new_b[m] == old_b[m]);
            }
        }
        assert forall|k: int| 0 <= k < new_b.len() implies (#[trigger] new_b[k]).level_start <= new_b[k].level_end
            <= level && (new_b[k].level_end == level ==> exists|q: int| 0 <= q < i + 1 && brick_on_rect(new_b[k], #[trigger] rects[q])) by {
            if k == n {
                assert(brick_on_rect(new_b[k], rects[i]));
            } else {
                assert(new_b[k] == old_b[k]);
                if new_b[k].level_end == level {
                    let q = choose|q: int| 0 <= q < i && brick_on_rect(old_b[k], #[trigger] rects[q]);
                    assert(brick_on_rect(new_b[k], rects[q]));
                }
            }
        }
    } else {
        let g = choose|k: int|
            0 <= k < old_b.len() && old_b[k].level_end + 1 == level && brick_on_rect(#[trigger] old_b[k], r)
                && new_b == old_b.update(k, BrickCandidate { level_end: level as u8, ..old_b[k] });
        assert forall|k: int, m: int|
            0 <= k < m < new_b.len() && same_footprint(#[trigger] new_b[k], #[trigger] new_b[m]) implies new_b[k].level_end
            < new_b[m].level_start || new_b[m].level_end < new_b[k].level_start by {
            if k == g {
                assert(brick_on_rect(old_b[m], r));
                if old_b[m].level_start > old_b[g].level_end {
                    lemma_no_brick_at_level_on(old_b, rects, level, i, m);
                }
            } else if m == g {
                assert(brick_on_rect(old_b[k], r));
                if old_b[k].level_start > old_b[g].level_end {
                    lemma_no_brick_at_level_on(old_b, rects, level, i, k);
                }
            }
        }
        assert forall|k: int| 0 <= k < new_b.len() implies (#[trigger] new_b[k]).level_start <= new_b[k].level_end
            <= level && (new_b[k].level_end == level ==> exists|q: int| 0 <= q < i + 1 && brick_on_rect(new_b[k], #[trigger] rects[q])) by {
            if k == g {
                assert(brick_on_rect(new_b[k], rects[i]));
            } else {
                assert(new_b[k] == old_b[k]);
                if new_b[k].level_end == level {
                    let q = choose|q: int| 0 <= q < i && brick_on_rect(old_b[k], #[trigger] rects[q]);
                    assert(brick_on_rect(new_b[k], rects[q]));
                }
            }
        }
    }
}

/// The two bricks share no voxel: their level ranges or their footprints are
/// apart.
pub open spec fn bricks_disjoint(a: BrickCandidate, b: BrickCandidate) -> bool {
    ||| a.level_end < b.level_start
    ||| b.level_end < a.level_start
    ||| a.row_end < b.row_start
    ||| b.row_end < a.row_start
    ||| a.col_end < b.col_start
    ||| b.col_end < a.col_start
}

pub open spec fn bricks_pairwise_disjoint(bricks: Seq<BrickCandidate>) -> bool {
    forall|k: int, m: int| 0 <= k < m < bricks.len() ==> bricks_disjoint(#[trigger] bricks[k], #[trigger] bricks[m])
}

pub open spec fn levels_disjoint(rects_by_level: Seq<Vec<HorizontalRect>>) -> bool {
    forall|l: int| 0 <= l < rects_by_level.len() ==> rects_pairwise_disjoint(#[trigger] rects_by_level[l]@)
}

proof fn lemma_stacked_bricks_disjoint(
    rects_by_level: Seq<Vec<HorizontalRect>>,
    level_bounds: Seq<LevelBounds>,
    bricks: Seq<BrickCandidate>,
)
    requires
        levels_disjoint(rects_by_level),
        stacks_apart(bricks),
        forall|k: int| 0 <= k < bricks.len() ==> brick_sound(rects_by_level, level_bounds, #[trigger] bricks[k]),
    ensures
        bricks_pairwise_disjoint(bricks),
{
    assert forall|k: int, m: int| 0 <= k < m < bricks.len() implies bricks_disjoint(
        #[trigger] bricks[k],
        #[trigger] bricks[m],
    ) by {
        let a = bricks[k];
        let b = bricks[m];
        if !bricks_disjoint(a, b) {
            assert(brick_sound(rects_by_level, level_bounds, a));
            assert(brick_sound(rects_by_level, level_bounds, b));
            let l = if a.level_start >= b.level_start { a.level_start as int } else { b.level_start as int };
            let rs = rects_by_level[l]@;
            assert(has_rect_of(rs, a));
            assert(has_rect_of(rs, b));
            let ia = choose|ia: int|
                0 <= ia < rs.len() && (#[trigger] rs[ia]).row_start == a.row_start && rs[ia].row_end == a.row_end
                    && rs[ia].col_start == a.col_start && rs[ia].col_end == a.col_end && rs[ia].key == a.key;
            let ib = choose|ib: int|
                0 <= ib < rs.len() && (#[trigger] rs[ib]).row_start == b.row_start && rs[ib].row_end == b.row_end
                    && rs[ib].col_start == b.col_start && rs[ib].col_end == b.col_end && rs[ib].key == b.key;
            assert(rects_pairwise_disjoint(rs));
            if ia < ib {
                assert(rects_disjoint(rs[ia], rs[ib]));
            } else if ib < ia {
                assert(rects_disjoint(rs[ib], rs[ia]));
            } else {
                assert(same_footprint(a, b));
            }
        }
    }
}

/// Where the rectangle at (`level`, `i`) goes: onto the matching brick of the
/// level below when that brick may grow, else into a new brick.
#[verifier::rlimit(100)]
fn place_rect(
    rects_by_level: &Vec<Vec<HorizontalRect>>,
    level_bounds: &Vec<LevelBounds>,
    level: usize,
    i: usize,
    bricks: &mut Vec<BrickCandidate>,
    active: &mut Vec<usize>,
    next_active: &mut Vec<usize>,
)
    requires
        rects_by_level@.len() <= level_bounds@.len(),
        rects_by_level@.len() <= 256,
        level < rects_by_level@.len(),
        i < rects_by_level@[level as int]@.len(),
        forall|k: int|
            0 <= k < old(bricks)@.len() ==> brick_sound(rects_by_level@, level_bounds@, #[trigger] old(bricks)@[k]),
        forall|p: int|
            0 <= p < old(active)@.len() ==> {
                &&& (#[trigger] old(active)@[p]) < old(bricks)@.len()
                &&& old(bricks)@[old(active)@[p] as int].level_end + 1 >= level
                &&& old(bricks)@[old(active)@[p] as int].level_end <= level
            },
        forall|p: int|
            0 <= p < old(next_active)@.len() ==> {
                &&& (#[trigger] old(next_active)@[p]) < old(bricks)@.len()
                &&& old(bricks)@[old(next_active)@[p] as int].level_end == level
            },
    ensures
        forall|k: int|
            0 <= k < final(bricks)@.len() ==> brick_sound(rects_by_level@, level_bounds@, #[trigger] final(bricks)@[k]),
        forall|p: int|
            0 <= p < final(active)@.len() ==> {
                &&& (#[trigger] final(active)@[p]) < final(bricks)@.len()
                &&& final(bricks)@[final(active)@[p] as int].level_end + 1 >= level
                &&& final(bricks)@[final(active)@[p] as int].level_end <= level
            },
        forall|p: int|
            0 <= p < final(next_active)@.len() ==> {
                &&& (#[trigger] final(next_active)@[p]) < final(bricks)@.len()
                &&& final(bricks)@[final(next_active)@[p] as int].level_end == level
            },
        bricks_grow(old(bricks)@, final(bricks)@),
        bricks_hold(final(bricks)@, level as int, rects_by_level@[level as int]@[i as int]),
        placed_one(old(bricks)@, final(bricks)@, level as int, rects_by_level@[level as int]@[i as int]),
{
    let rect = rects_by_level[level][i];
    assert(rects_by_level@[level as int]@[i as int] == rect);
    let found = find_matching_brick(bricks, active, &rect);
    if let Some(pos) = found {
        let ghost before_active = active@;
        let idx = active.remove(pos);
        assert(idx == before_active[pos as int]);
        proof {
            assert forall|q: int| 0 <= q < active@.len() implies (#[trigger] active@[q]) < bricks@.len()
                && bricks@[active@[q] as int].level_end + 1 >= level && bricks@[active@[q] as int].level_end
                <= level by {
                if q < pos {
                    assert(active@[q] == before_active[q]);
                } else {
                    assert(active@[q] == before_active[q + 1]);
                }
            }
        }
        let current = bricks[idx];
        let span = level as u16 - current.level_start as u16 + 1;
        if current.level_end as usize + 1 == level && span <= MAX_VERTICAL_SPAN {
            let prev_bounds = level_bounds[current.level_end as usize];
            let next_bounds = level_bounds[level];
            if next_bounds.bottom_feet as u32 <= prev_bounds.top_feet as u32 + 1 {
                let grown = BrickCandidate { level_end: level as u8, ..current };
                proof {
                    assert(brick_sound(rects_by_level@, level_bounds@, current));
                    lemma_grown_brick_sound(rects_by_level@, level_bounds@, current, grown, level as int, i as int);
                }
                let ghost before = bricks@;
                bricks.set(idx, grown);
                next_active.push(idx);
                proof {
                    assert(bricks@ == before.update(idx as int, BrickCandidate { level_end: level as u8, ..before[idx as int] }));
                    assert(brick_on_rect(before[idx as int], rect));
                    assert(brick_holds(bricks@[idx as int], level as int, rect));
                    assert forall|k: int| 0 <= k < before.len() implies {
                        &&& (#[trigger] bricks@[k]).row_start == before[k].row_start
                        &&& bricks@[k].row_end == before[k].row_end
                        &&& bricks@[k].col_start == before[k].col_start
                        &&& bricks@[k].col_end == before[k].col_end
                        &&& bricks@[k].key == before[k].key
                        &&& bricks@[k].level_start == before[k].level_start
                        &&& bricks@[k].level_end >= before[k].level_end
                    } by {}
                }
                return;
            }
        }
    }
    let new_idx = bricks.len();
    let fresh = BrickCandidate {
        row_start: rect.row_start,
        row_end: rect.row_end,
        col_start: rect.col_start,
        col_end: rect.col_end,
        level_start: level as u8,
        level_end: level as u8,
        key: rect.key,
    };
    assert(has_rect_of(rects_by_level@[level as int]@, fresh));
    let ghost before = bricks@;
    bricks.push(fresh);
    next_active.push(new_idx);
    proof {
        assert(bricks@.subrange(0, before.len() as int) =~= before);
        assert(brick_holds(bricks@[new_idx as int], level as int, rect));
        assert forall|k: int| 0 <= k < before.len() implies {
            &&& (#[trigger] bricks@[k]).row_start == before[k].row_start
            &&& bricks@[k].row_end == before[k].row_end
            &&& bricks@[k].col_start == before[k].col_start
            &&& bricks@[k].col_end == before[k].col_end
            &&& bricks@[k].key == before[k].key
            &&& bricks@[k].level_start == before[k].level_start
            &&& bricks@[k].level_end >= before[k].level_end
        } by {
            assert(bricks@[k] == before[k]);
        }
    }
}

/// Stacks rectangles of identical footprint and key on consecutive levels into
/// bricks of at most `MAX_VERTICAL_SPAN` levels, without vertical gaps; every
/// rectangle of every level ends up in a brick.
pub fn extrude_bricks(
    rects_by_level: &Vec<Vec<HorizontalRect>>,
    level_bounds: &Vec<LevelBounds>,
) -> (bricks: Vec<BrickCandidate>)
    requires
        rects_by_level@.len() <= level_bounds@.len(),
        rects_by_level@.len() <= 256,
        forall|l: int, i: int|
            0 <= l < rects_by_level@.len() && 0 <= i < rects_by_level@[l]@.len() ==> rect_wf(
                #[trigger] rects_by_level@[l]@[i],
            ),
    ensures
        forall|k: int|
            0 <= k < bricks@.len() ==> brick_sound(rects_by_level@, level_bounds@, #[trigger] bricks@[k]),
        levels_disjoint(rects_by_level@) ==> bricks_pairwise_disjoint(bricks@),
        forall|l: int, i: int|
            0 <= l < rects_by_level@.len() && 0 <= i < rects_by_level@[l]@.len() ==> bricks_hold(
                bricks@,
                l,
                #[trigger] rects_by_level@[l]@[i],
            ),
{
    let mut bricks: Vec<BrickCandidate> = Vec::new();
    let mut active: Vec<usize> = Vec::new();
    let mut level: usize = 0;
    while level < rects_by_level.len()
        invariant
            rects_by_level@.len() <= level_bounds@.len(),
            rects_by_level@.len() <= 256,
            0 <= level <= rects_by_level@.len(),
            forall|k: int|
                0 <= k < bricks@.len() ==> brick_sound(rects_by_level@, level_bounds@, #[trigger] bricks@[k]),
            forall|p: int|
                0 <= p < active@.len() ==> {
                    &&& (#[trigger] active@[p]) < bricks@.len()
                    &&& bricks@[active@[p] as int].level_end + 1 == level
                },
            forall|l: int, i: int|
                0 <= l < level && 0 <= i < rects_by_level@[l]@.len() ==> bricks_hold(
                    bricks@,
                    l,
                    #[trigger] rects_by_level@[l]@[i],
                ),
            forall|l: int, i: int|
                0 <= l < rects_by_level@.len() && 0 <= i < rects_by_level@[l]@.len() ==> rect_wf(
                    #[trigger] rects_by_level@[l]@[i],
                ),
            levels_disjoint(rects_by_level@) ==> stacks_apart(bricks@),
            forall|k: int| 0 <= k < bricks@.len() ==> (#[trigger] bricks@[k]).level_end < level,
        decreases rects_by_level@.len() - level,
    {
        let mut next_active: Vec<usize> = Vec::new();
        let n = rects_by_level[level].len();
        proof {
            assert forall|k: int| 0 <= k < bricks@.len() implies (#[trigger] bricks@[k]).level_start
                <= bricks@[k].level_end <= level && (bricks@[k].level_end == level ==> exists|q: int|
                0 <= q < 0 && brick_on_rect(bricks@[k], #[trigger] rects_by_level@[level as int]@[q])) by {
                assert(brick_sound(rects_by_level@, level_bounds@, bricks@[k]));
            }
        }
        let mut i: usize = 0;
        while i < n
            invariant
                rects_by_level@.len() <= level_bounds@.len(),
                rects_by_level@.len() <= 256,
                0 <= level < rects_by_level@.len(),
                n == rects_by_level@[level as int]@.len(),
                0 <= i <= n,
                forall|k: int|
                    0 <= k < bricks@.len() ==> brick_sound(rects_by_level@, level_bounds@, #[trigger] bricks@[k]),
                forall|p: int|
                    0 <= p < active@.len() ==> {
                        &&& (#[trigger] active@[p]) < bricks@.len()
                        &&& bricks@[active@[p] as int].level_end + 1 >= level
                        &&& bricks@[active@[p] as int].level_end <= level
                    },
                forall|p: int|
                    0 <= p < next_active@.len() ==> {
                        &&& (#[trigger] next_active@[p]) < bricks@.len()
                        &&& bricks@[next_active@[p] as int].level_end == level
                    },
                forall|l: int, q: int|
                    0 <= l < level && 0 <= q < rects_by_level@[l]@.len() ==> bricks_hold(
                        bricks@,
                        l,
                        #[trigger] rects_by_level@[l]@[q],
                    ),
                forall|q: int|
                    0 <= q < i ==> bricks_hold(bricks@, level as int, #[trigger] rects_by_level@[level as int]@[q]),
                forall|l: int, q: int|
                    0 <= l < rects_by_level@.len() && 0 <= q < rects_by_level@[l]@.len() ==> rect_wf(
                        #[trigger] rects_by_level@[l]@[q],
                    ),
                levels_disjoint(rects_by_level@) ==> stacks_apart(bricks@),
                bricks_up_to(bricks@, rects_by_level@[level as int]@, level as int, i as int),
            decreases n - i,
        {
            let ghost before = bricks@;
            place_rect(rects_by_level, level_bounds, level, i, &mut bricks, &mut active, &mut next_active);
            proof {
                let rs = rects_by_level@[level as int]@;
                if levels_disjoint(rects_by_level@) {
                    assert(rects_pairwise_disjoint(rs));
                    lemma_placed_keeps_apart(before, bricks@, rs, level as int, i as int);
                } else {
                    lemma_placed_up_to(before, bricks@, rs, level as int, i as int);
                }
                assert forall|l: int, q: int|
                    0 <= l < level && 0 <= q < rects_by_level@[l]@.len() implies bricks_hold(
                    bricks@,
                    l,
                    #[trigger] rects_by_level@[l]@[q],
                ) by {
                    lemma_bricks_grow_hold(before, bricks@, l, rects_by_level@[l]@[q]);
                }
                assert forall|q: int|
                    0 <= q < i + 1 implies bricks_hold(bricks@, level as int, #[trigger] rects_by_level@[level as int]@[q]) by {
                    if q < i {
                        lemma_bricks_grow_hold(before, bricks@, level as int, rects_by_level@[level as int]@[q]);
                    }
                }
            }
            i = i + 1;
        }
        proof {
            assert forall|k: int| 0 <= k < bricks@.len() implies (#[trigger] bricks@[k]).level_end < level + 1 by {
                assert(bricks_up_to(bricks@, rects_by_level@[level as int]@, level as int, n as int));
            }
        }
        active = next_active;
        level = level + 1;
    }
    proof {
        if levels_disjoint(rects_by_level@) {
            lemma_stacked_bricks_disjoint(rects_by_level@, level_bounds@, bricks@);
        }
    }
    bricks
}

} // verus!

verus! {

/// The brick covers level `l` and the cell's position, with the cell's key.
pub open spec fn brick_covers_cell(b: BrickCandidate, l: int, c: MergeCell) -> bool {
    &&& b.level_start <= l <= b.level_end
    &&& b.row_start <= c.row <= b.row_end
    &&& b.col_start <= c.col <= b.col_end
    &&& b.key == c.key
}

pub open spec fn bricks_cover_cell(bricks: Seq<BrickCandidate>, l: int, c: MergeCell) -> bool {
    exists|k: int| 0 <= k < bricks.len() && brick_covers_cell(#[trigger] bricks[k], l, c)
}

/// Well-formedness and size limits of an emitted brick: its row, column and
/// level ranges are ordered, its footprint spans at most the limit of its
/// reflectivity bin, and it covers at most `MAX_VERTICAL_SPAN` levels.
pub open spec fn brick_within_limits(b: BrickCandidate) -> bool {
    &&& b.row_start <= b.row_end
    &&& b.col_start <= b.col_end
    &&& b.level_start <= b.level_end
    &&& b.row_end - b.row_start + 1 <= max_span_spec(b.key.dbz_tenths)
    &&& b.col_end - b.col_start + 1 <= max_span_spec(b.key.dbz_tenths)
    &&& b.level_end - b.level_start + 1 <= MAX_VERTICAL_SPAN
}

/// Every cell of the footprint of `b`, on every level it covers, is a cell of
/// that level with `b`'s key.
pub open spec fn brick_cells_present(cells_by_level: Seq<Vec<MergeCell>>, b: BrickCandidate) -> bool {
    forall|l: int, row: int, col: int|
        #![trigger has_cell(cells_by_level[l]@, row, col, b.key)]
        b.level_start <= l <= b.level_end && b.row_start <= row <= b.row_end && b.col_start <= col
            <= b.col_end ==> has_cell(cells_by_level[l]@, row, col, b.key)
}

fn copy_cells(v: &Vec<MergeCell>) -> (r: Vec<MergeCell>)
    ensures
        r@ == v@,
{
    let mut r: Vec<MergeCell> = Vec::new();
    let mut i: usize = 0;
    while i < v.len()
        invariant
            0 <= i <= v@.len(),
            r@ == v@.subrange(0, i as int),
        decreases v@.len() - i,
    {
        r.push(v[i]);
        i = i + 1;
        assert(r@ =~= v@.subrange(0, i as int));
    }
    assert(r@ =~= v@);
    r
}

/// Some rectangle of `rects` with key `key` covers (row, col).
pub open spec fn covered_with_key(rects: Seq<HorizontalRect>, row: int, col: int, key: MergeKey) -> bool {
    exists|m: int| 0 <= m < rects.len() && #[trigger] rect_covers(rects[m], row, col) && rects[m].key == key
}

/// Splits each rectangle of a level to the span limit of its bin.
fn split_level_rectangles(rects: &Vec<HorizontalRect>, level_cells: Ghost<Seq<MergeCell>>) -> (split: Vec<
    HorizontalRect,
>)
    requires
        forall|k: int|
            0 <= k < rects@.len() ==> rect_wf(#[trigger] rects@[k]) && rect_sound(level_cells@, rects@[k]),
    ensures
        forall|k: int|
            0 <= k < split@.len() ==> {
                &&& rect_wf(#[trigger] split@[k])
                &&& rect_sound(level_cells@, split@[k])
                &&& rect_spans_at_most(split@[k], max_span_spec(split@[k].key.dbz_tenths) as int)
            },
        forall|k: int, row: int, col: int|
            0 <= k < rects@.len() && #[trigger] rect_covers(rects@[k], row, col) ==> covered_with_key(
                split@,
                row,
                col,
                rects@[k].key,
            ),
        rects_pairwise_disjoint(rects@) ==> rects_pairwise_disjoint(split@),
{
    let ghost level_cells = level_cells@;
    let ghost mut parent: Seq<int> = Seq::empty();
    let mut split: Vec<HorizontalRect> = Vec::new();
    let mut i: usize = 0;
    while i < rects.len()
        invariant
            0 <= i <= rects@.len(),
            forall|k: int|
                0 <= k < rects@.len() ==> rect_wf(#[trigger] rects@[k]) && rect_sound(
                    level_cells,
                    rects@[k],
                ),
            forall|k: int|
                0 <= k < split@.len() ==> {
                    &&& rect_wf(#[trigger] split@[k])
                    &&& rect_sound(level_cells, split@[k])
                    &&& rect_spans_at_most(split@[k], max_span_spec(split@[k].key.dbz_tenths) as int)
                },
            forall|k: int, row: int, col: int|
                0 <= k < i && #[trigger] rect_covers(rects@[k], row, col) ==> covered_with_key(
                    split@,
                    row,
                    col,
                    rects@[k].key,
                ),
            parent.len() == split@.len(),
            forall|m: int|
                0 <= m < split@.len() ==> 0 <= #[trigger] parent[m] < i && rect_within(split@[m], rects@[parent[m]]),
            forall|x: int, y: int|
                0 <= x < y < split@.len() && parent[x] == parent[y] ==> rects_disjoint(
                    #[trigger] split@[x],
                    #[trigger] split@[y],
                ),
        decreases rects@.len() - i,
    {
        let rect = rects[i];
        assert(rect_wf(rects@[i as int]) && rect_sound(level_cells, rects@[i as int]));
        let max_span = max_span_for_dbz(rect.key.dbz_tenths);
        let ghost before = split@;
        split_rectangle(rect, max_span, &mut split);
        proof {
            let old_parent = parent;
            parent = parent + Seq::new((split@.len() - before.len()) as nat, |m: int| i as int);
            assert forall|m: int|
                0 <= m < split@.len() implies 0 <= #[trigger] parent[m] < i + 1 && rect_within(split@[m], rects@[parent[m]]) by {
                if m < before.len() {
                    assert(parent[m] == old_parent[m]);
                    assert(split@[m] == split@.subrange(0, before.len() as int)[m]);
                } else {
                    assert(parent[m] == i);
                }
            }
            assert forall|x: int, y: int|
                0 <= x < y < split@.len() && parent[x] == parent[y] implies rects_disjoint(
                #[trigger] split@[x],
                #[trigger] split@[y],
            ) by {
                if y < before.len() {
                    assert(parent[x] == old_parent[x] && parent[y] == old_parent[y]);
                    assert(split@[x] == split@.subrange(0, before.len() as int)[x]);
                    assert(split@[y] == split@.subrange(0, before.len() as int)[y]);
                } else if x < before.len() {
                    assert(parent[x] == old_parent[x]);
                    assert(parent[y] == i);
                }
            }
            assert forall|k: int| 0 <= k < split@.len() implies {
                &&& rect_wf(#[trigger] split@[k])
                &&& rect_sound(level_cells, split@[k])
                &&& rect_spans_at_most(split@[k], max_span_spec(split@[k].key.dbz_tenths) as int)
            } by {
                if k < before.len() {
                    assert(split@[k] == split@.subrange(0, before.len() as int)[k]);
                } else {
                    let piece = split@[k];
                    assert(rect_within(piece, rect));
                    assert forall|row: int, col: int|
                        #![trigger rect_covers(piece, row, col)]
                        rect_covers(piece, row, col) implies has_cell(level_cells, row, col, piece.key) by {
                        assert(rect_covers(rect, row, col));
                    }
                }
            }
            assert forall|k: int, row: int, col: int|
                0 <= k < i + 1 && #[trigger] rect_covers(rects@[k], row, col) implies covered_with_key(
                split@,
                row,
                col,
                rects@[k].key,
            ) by {
                if k < i {
                    let m = choose|m: int|
                        0 <= m < before.len() && #[trigger] rect_covers(before[m], row, col) && before[m].key
                            == rects@[k].key;
                    assert(split@[m] == split@.subrange(0, before.len() as int)[m]);
                } else {
                    let sub = split@.subrange(before.len() as int, split@.len() as int);
                    assert(covered_by(sub, row, col));
                    let m = choose|m: int| 0 <= m < sub.len() && #[trigger] rect_covers(sub[m], row, col);
                    assert(sub[m] == split@[before.len() + m]);
                    assert(rect_within(split@[before.len() + m], rect));
                    assert(rect_covers(split@[before.len() + m], row, col));
                }
            }
        }
        i = i + 1;
    }
    proof {
        if rects_pairwise_disjoint(rects@) {
            assert forall|x: int, y: int| 0 <= x < y < split@.len() implies rects_disjoint(
                #[trigger] split@[x],
                #[trigger] split@[y],
            ) by {
                if parent[x] != parent[y] {
                    let px = parent[x];
                    let py = parent[y];
                    if px < py {
                        assert(rects_disjoint(rects@[px], rects@[py]));
                    } else {
                        assert(rects_disjoint(rects@[py], rects@[px]));
                    }
                }
            }
        }
    }
    split
}

/// The merge of the volume: per level, cells become rectangles, rectangles are
/// split to the span limit of their bin, and identical rectangles of consecutive
/// levels are extruded into bricks.
pub fn merge_level_bricks(
    cells_by_level: &Vec<Vec<MergeCell>>,
    level_bounds: &Vec<LevelBounds>,
) -> (bricks: Vec<BrickCandidate>)
    requires
        cells_by_level@.len() <= level_bounds@.len(),
        cells_by_level@.len() <= 256,
    ensures
        forall|k: int|
            0 <= k < bricks@.len() ==> {
                &&& brick_within_limits(#[trigger] bricks@[k])
                &&& brick_cells_present(cells_by_level@, bricks@[k])
                &&& bricks@[k].level_end < cells_by_level@.len()
            },
        forall|l: int, i: int|
            0 <= l < cells_by_level@.len() && 0 <= i < cells_by_level@[l]@.len() ==> bricks_cover_cell(
                bricks@,
                l,
                #[trigger] cells_by_level@[l]@[i],
            ),
        (forall|l: int| 0 <= l < cells_by_level@.len() ==> positions_unique(#[trigger] cells_by_level@[l]@))
            ==> bricks_pairwise_disjoint(bricks@),
{
    let mut rects_by_level: Vec<Vec<HorizontalRect>> = Vec::new();
    let mut level: usize = 0;
    while level < cells_by_level.len()
        invariant
            0 <= level <= cells_by_level@.len(),
            rects_by_level@.len() == level,
            forall|l: int, k: int|
                0 <= l < level && 0 <= k < rects_by_level@[l]@.len() ==> {
                    &&& rect_wf(#[trigger] rects_by_level@[l]@[k])
                    &&& rect_sound(cells_by_level@[l]@, rects_by_level@[l]@[k])
                    &&& rect_spans_at_most(
                        rects_by_level@[l]@[k],
                        max_span_spec(rects_by_level@[l]@[k].key.dbz_tenths) as int,
                    )
                },
            forall|l: int, i: int|
                0 <= l < level && 0 <= i < cells_by_level@[l]@.len() ==> covered_with_key(
                    rects_by_level@[l]@,
                    (#[trigger] cells_by_level@[l]@[i]).row as int,
                    cells_by_level@[l]@[i].col as int,
                    cells_by_level@[l]@[i].key,
                ),
            (forall|l: int| 0 <= l < cells_by_level@.len() ==> positions_unique(#[trigger] cells_by_level@[l]@))
                ==> forall|l: int| 0 <= l < level ==> rects_pairwise_disjoint(#[trigger] rects_by_level@[l]@),
        decreases cells_by_level@.len() - level,
    {
        let mut cells = copy_cells(&cells_by_level[level]);
        let ghost level_cells = cells_by_level@[level as int]@;
        let rects = build_level_rectangles(&mut cells);
        let split = split_level_rectangles(&rects, Ghost(level_cells));
        let ghost prev = rects_by_level@;
        rects_by_level.push(split);
        proof {
            assert forall|l: int, k: int|
                0 <= l < level + 1 && 0 <= k < rects_by_level@[l]@.len() implies {
                    &&& rect_wf(#[trigger] rects_by_level@[l]@[k])
                    &&& rect_sound(cells_by_level@[l]@, rects_by_level@[l]@[k])
                    &&& rect_spans_at_most(
                        rects_by_level@[l]@[k],
                        max_span_spec(rects_by_level@[l]@[k].key.dbz_tenths) as int,
                    )
                } by {
                if l < level {
                    assert(rects_by_level@[l] == prev[l]);
                }
            }
            if forall|l: int| 0 <= l < cells_by_level@.len() ==> positions_unique(#[trigger] cells_by_level@[l]@) {
                assert(positions_unique(cells_by_level@[level as int]@));
                assert forall|l: int| 0 <= l < level + 1 implies rects_pairwise_disjoint(#[trigger] rects_by_level@[l]@) by {
                    if l < level {
                        assert(rects_by_level@[l] == prev[l]);
                    }
                }
            }
            assert forall|l: int, i: int|
                0 <= l < level + 1 && 0 <= i < cells_by_level@[l]@.len() implies covered_with_key(
                rects_by_level@[l]@,
                (#[trigger] cells_by_level@[l]@[i]).row as int,
                cells_by_level@[l]@[i].col as int,
                cells_by_level@[l]@[i].key,
            ) by {
                if l < level {
                    assert(rects_by_level@[l] == prev[l]);
                } else {
                    let c = cells_by_level@[l]@[i];
                    assert(level_cells[i] == c);
                    assert(cell_in_rects(rects@, level_cells[i]));
                    let k = choose|k: int|
                        0 <= k < rects@.len() && rect_covers(#[trigger] rects@[k], c.row as int, c.col as int)
                            && rects@[k].key == c.key;
                    assert(rect_covers(rects@[k], c.row as int, c.col as int));
                    assert(rects_by_level@[l] == split);
                }
            }
        }
        level = level + 1;
    }
    let bricks = extrude_bricks(&rects_by_level, level_bounds);
    proof {
        if forall|l: int| 0 <= l < cells_by_level@.len() ==> positions_unique(#[trigger] cells_by_level@[l]@) {
            assert(levels_disjoint(rects_by_level@));
        }
    }
    proof {
        assert forall|l: int, i: int|
            0 <= l < cells_by_level@.len() && 0 <= i < cells_by_level@[l]@.len() implies bricks_cover_cell(
            bricks@,
            l,
            #[trigger] cells_by_level@[l]@[i],
        ) by {
            let c = cells_by_level@[l]@[i];
            assert(covered_with_key(rects_by_level@[l]@, c.row as int, c.col as int, c.key));
            let m = choose|m: int|
                0 <= m < rects_by_level@[l]@.len() && #[trigger] rect_covers(rects_by_level@[l]@[m], c.row as int, c.col as int)
                    && rects_by_level@[l]@[m].key == c.key;
            let piece = rects_by_level@[l]@[m];
            assert(bricks_hold(bricks@, l, piece));
            let k = choose|k: int| 0 <= k < bricks@.len() && brick_holds(#[trigger] bricks@[k], l, piece);
            assert(brick_covers_cell(bricks@[k], l, c));
        }
    }
    proof {
        assert forall|k: int| 0 <= k < bricks@.len() implies {
            &&& brick_within_limits(#[trigger] bricks@[k])
            &&& brick_cells_present(cells_by_level@, bricks@[k])
            &&& bricks@[k].level_end < cells_by_level@.len()
        } by {
            let b = bricks@[k];
            assert(brick_sound(rects_by_level@, level_bounds@, b));
            assert(has_rect_of(rects_by_level@[b.level_start as int]@, b));
            let i = choose|i: int|
                0 <= i < rects_by_level@[b.level_start as int]@.len()
                    && (#[trigger] rects_by_level@[b.level_start as int]@[i]).row_start == b.row_start
                    && rects_by_level@[b.level_start as int]@[i].row_end == b.row_end
                    && rects_by_level@[b.level_start as int]@[i].col_start == b.col_start
                    && rects_by_level@[b.level_start as int]@[i].col_end == b.col_end
                    && rects_by_level@[b.level_start as int]@[i].key == b.key;
            let r = rects_by_level@[b.level_start as int]@[i];
            assert(rect_wf(r));
            assert(rect_spans_at_most(r, max_span_spec(r.key.dbz_tenths) as int));
            assert forall|l: int, row: int, col: int|
                #![trigger has_cell(cells_by_level@[l]@, row, col, b.key)]
                b.level_start <= l <= b.level_end && b.row_start <= row <= b.row_end
                    && b.col_start <= col <= b.col_end implies has_cell(
                    cells_by_level@[l]@,
                    row,
                    col,
                    b.key,
                ) by {
                assert(has_rect_of(rects_by_level@[l]@, b));
                let j = choose|j: int|
                    0 <= j < rects_by_level@[l]@.len()
                        && (#[trigger] rects_by_level@[l]@[j]).row_start == b.row_start
                        && rects_by_level@[l]@[j].row_end == b.row_end
                        && rects_by_level@[l]@[j].col_start == b.col_start
                        && rects_by_level@[l]@[j].col_end == b.col_end
                        && rects_by_level@[l]@[j].key == b.key;
                let q = rects_by_level@[l]@[j];
                assert(rect_sound(cells_by_level@[l]@, q));
                assert(rect_covers(q, row, col));
            }
        }
    }
    bricks
}

} // verus!
