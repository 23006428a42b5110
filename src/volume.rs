use vstd::prelude::*;

use crate::merge::{quantize_dbz_tenths, quantized, clamp_int, BrickCandidate, MergeCell, MergeKey, DBZ_QUANT_STEP_TENTHS};
use crate::snapshot::{LevelBounds, StoredVoxel, ScanSnapshot};
use crate::wire::{counts_sum, BrickRecord};

verus! {

broadcast use vstd::seq_lib::group_filter_ensures;

/// The merge cell of a voxel: its position, phase and quantized reflectivity.
pub open spec fn merge_cell_of(v: StoredVoxel) -> MergeCell {
    MergeCell {
        row: v.row as u32,
        col: v.col as u32,
        key: MergeKey {
            phase: v.phase,
            dbz_tenths: clamp_int(
                quantized(v.dbz_tenths as int, DBZ_QUANT_STEP_TENTHS as int),
                i16::MIN as int,
                i16::MAX as int,
            ) as i16,
        },
    }
}

pub open spec fn on_level(l: int) -> spec_fn(StoredVoxel) -> bool {
    |v: StoredVoxel| v.level_idx as int == l
}

pub open spec fn below_level(n: int) -> spec_fn(StoredVoxel) -> bool {
    |v: StoredVoxel| (v.level_idx as int) < n
}

/// The voxels of the window grouped by level, as merge cells, with the number
/// of voxels of each level.
pub struct LevelCells {
    pub cells_by_level: Vec<Vec<MergeCell>>,
    pub layer_counts: Vec<u32>,
}

proof fn lemma_filter_push_voxel(s: Seq<StoredVoxel>, x: StoredVoxel, p: spec_fn(StoredVoxel) -> bool)
    ensures
        s.push(x).filter(p) == if p(x) {
            s.filter(p).push(x)
        } else {
            s.filter(p)
        },
{
    assert(s.push(x).drop_last() =~= s);
    reveal_with_fuel(Seq::filter, 1);
}

proof fn lemma_counts_sum_bump(a: Seq<u32>, l: int)
    requires
        0 <= l < a.len(),
        a[l] < u32::MAX,
    ensures
        counts_sum(a.update(l, (a[l] + 1) as u32)) == counts_sum(a) + 1,
    decreases a.len(),
{
    let b = a.update(l, (a[l] + 1) as u32);
    if l < a.len() - 1 {
        lemma_counts_sum_bump(a.drop_last(), l);
        assert(b.drop_last() =~= a.drop_last().update(l, (a[l] + 1) as u32));
    } else {
        assert(b.drop_last() =~= a.drop_last());
    }
}

proof fn lemma_counts_sum_zeros(n: nat)
    ensures
        counts_sum(Seq::new(n, |i: int| 0u32)) == 0,
    decreases n,
{
    if n > 0 {
        lemma_counts_sum_zeros((n - 1) as nat);
        assert(Seq::new(n, |i: int| 0u32).drop_last() =~= Seq::new((n - 1) as nat, |i: int| 0u32));
    }
}

/// Groups voxels by level (levels at or above `level_count` are left out),
/// turning each into its merge cell; each level keeps the voxels' order, and
/// its count is the number of its voxels.
pub fn group_level_cells(voxels: &Vec<StoredVoxel>, level_count: usize) -> (r: LevelCells)
    requires
        voxels@.len() <= u32::MAX,
        level_count <= 256,
    ensures
        r.cells_by_level@.len() == level_count,
        r.layer_counts@.len() == level_count,
        forall|l: int|
            0 <= l < level_count ==> (#[trigger] r.cells_by_level@[l])@ == voxels@.filter(on_level(l)).map_values(
                |v: StoredVoxel| merge_cell_of(v),
            ),
        forall|l: int| 0 <= l < level_count ==> #[trigger] r.layer_counts@[l] == r.cells_by_level@[l]@.len(),
        counts_sum(r.layer_counts@) == voxels@.filter(below_level(level_count as int)).len(),
{
    let mut cells_by_level: Vec<Vec<MergeCell>> = Vec::new();
    let mut layer_counts: Vec<u32> = Vec::new();
    while cells_by_level.len() < level_count
        invariant
            cells_by_level@.len() == layer_counts@.len(),
            cells_by_level@.len() <= level_count,
            forall|l: int| 0 <= l < cells_by_level@.len() ==> (#[trigger] cells_by_level@[l])@.len() == 0,
            forall|l: int| 0 <= l < layer_counts@.len() ==> #[trigger] layer_counts@[l] == 0,
        decreases level_count - cells_by_level@.len(),
    {
        cells_by_level.push(Vec::new());
        layer_counts.push(0);
    }
    proof {
        assert(layer_counts@ =~= Seq::new(level_count as nat, |i: int| 0u32));
        lemma_counts_sum_zeros(level_count as nat);
    }
    let mut i: usize = 0;
    while i < voxels.len()
        invariant
            voxels@.len() <= u32::MAX,
            0 <= i <= voxels@.len(),
            cells_by_level@.len() == level_count,
            layer_counts@.len() == level_count,
            forall|l: int|
                0 <= l < level_count ==> (#[trigger] cells_by_level@[l])@ == voxels@.subrange(0, i as int).filter(
                    on_level(l),
                ).map_values(|v: StoredVoxel| merge_cell_of(v)),
            forall|l: int| 0 <= l < level_count ==> #[trigger] layer_counts@[l] == cells_by_level@[l]@.len(),
            counts_sum(layer_counts@) == voxels@.subrange(0, i as int).filter(below_level(level_count as int)).len(),
            counts_sum(layer_counts@) <= i,
        decreases voxels@.len() - i,
    {
        let v = voxels[i];
        let ghost pre = voxels@.subrange(0, i as int);
        assert(voxels@.subrange(0, i + 1) =~= pre.push(v));
        proof {
            lemma_filter_push_voxel(pre, v, below_level(level_count as int));
        }
        let level = v.level_idx as usize;
        if level < level_count {
            let cell = MergeCell {
                row: v.row as u32,
                col: v.col as u32,
                key: MergeKey {
                    phase: v.phase,
                    dbz_tenths: quantize_dbz_tenths(v.dbz_tenths, DBZ_QUANT_STEP_TENTHS),
                },
            };
            assert(cell == merge_cell_of(v));
            let ghost old_cells = cells_by_level@;
            let ghost old_counts = layer_counts@;
            cells_by_level[level].push(cell);
            let c = layer_counts[level];
            proof {
                lemma_counts_sum_bump(old_counts, level as int);
            }
            layer_counts.set(level, c + 1);
            proof {
                assert(layer_counts@ == old_counts.update(level as int, (old_counts[level as int] + 1) as u32));
                assert forall|l: int| 0 <= l < level_count implies (#[trigger] cells_by_level@[l])@
                    == voxels@.subrange(0, i + 1).filter(on_level(l)).map_values(
                    |v: StoredVoxel| merge_cell_of(v),
                ) by {
                    lemma_filter_push_voxel(pre, v, on_level(l));
                    if l != level {
                        assert(cells_by_level@[l] == old_cells[l]);
                    } else {
                        assert(pre.push(v).filter(on_level(l)) == pre.filter(on_level(l)).push(v));
                        assert(pre.filter(on_level(l)).push(v).map_values(|v: StoredVoxel| merge_cell_of(v))
                            =~= pre.filter(on_level(l)).map_values(|v: StoredVoxel| merge_cell_of(v)).push(
                            merge_cell_of(v),
                        ));
                    }
                }
                assert forall|l: int| 0 <= l < level_count implies #[trigger] layer_counts@[l]
                    == cells_by_level@[l]@.len() by {
                    if l != level {
                        assert(cells_by_level@[l] == old_cells[l]);
                    }
                }
            }
        } else {
            proof {
                assert forall|l: int| 0 <= l < level_count implies (#[trigger] cells_by_level@[l])@
                    == voxels@.subrange(0, i + 1).filter(on_level(l)).map_values(
                    |v: StoredVoxel| merge_cell_of(v),
                ) by {
                    lemma_filter_push_voxel(pre, v, on_level(l));
                }
            }
        }
        i = i + 1;
    }
    assert(voxels@.subrange(0, i as int) =~= voxels@);
    LevelCells { cells_by_level, layer_counts }
}

/// The wire record of a brick whose footprint centre projects to (x, z), in
/// hundredths of a nautical mile: it spans from the bottom of its first level
/// to the top of its last.
pub fn brick_record(b: &BrickCandidate, x_centi_nm: i16, z_centi_nm: i16, level_bounds: &Vec<LevelBounds>) -> (r:
    BrickRecord)
    requires
        b.row_start <= b.row_end,
        b.col_start <= b.col_end,
        b.level_start <= b.level_end < level_bounds@.len(),
    ensures
        r.x_centi_nm == x_centi_nm,
        r.z_centi_nm == z_centi_nm,
        r.bottom_feet == level_bounds@[b.level_start as int].bottom_feet,
        r.top_feet == level_bounds@[b.level_end as int].top_feet,
        r.dbz_tenths == b.key.dbz_tenths,
        r.phase == b.key.phase,
        r.level_start == b.level_start,
        r.span_x as int == clamp_int(b.col_end - b.col_start + 1, 0, u16::MAX as int),
        r.span_y as int == clamp_int(b.row_end - b.row_start + 1, 0, u16::MAX as int),
        r.span_z as int == b.level_end - b.level_start + 1,
{
    let span_x = b.col_end - b.col_start;
    let span_y = b.row_end - b.row_start;
    BrickRecord {
        x_centi_nm,
        z_centi_nm,
        bottom_feet: level_bounds[b.level_start as usize].bottom_feet,
        top_feet: level_bounds[b.level_end as usize].top_feet,
        dbz_tenths: b.key.dbz_tenths,
        phase: b.key.phase,
        level_start: b.level_start,
        span_x: if span_x >= u16::MAX as u32 { u16::MAX } else { (span_x + 1) as u16 },
        span_y: if span_y >= u16::MAX as u32 { u16::MAX } else { (span_y + 1) as u16 },
        span_z: (b.level_end - b.level_start) as u16 + 1,
    }
}

/// The grid and tile ranges that a query scans, and its reflectivity floor.
/// With `lon_wrapped` every column is in range.
#[derive(Clone, Copy, Debug, PartialEq, Eq, Structural)]
pub struct GridWindow {
    pub row_start: u32,
    pub row_end: u32,
    pub col_start: u32,
    pub col_end: u32,
    pub lon_wrapped: bool,
    pub tile_row_start: u32,
    pub tile_row_end: u32,
    pub tile_col_start: u32,
    pub tile_col_end: u32,
    pub min_dbz_tenths: i16,
}

pub open spec fn in_window(v: StoredVoxel, w: GridWindow) -> bool {
    &&& w.row_start <= v.row <= w.row_end
    &&& (w.lon_wrapped || w.col_start <= v.col <= w.col_end)
    &&& v.dbz_tenths >= w.min_dbz_tenths
}

/// Every voxel that tile `t` holds and that the window takes is in `out`.
pub open spec fn tile_taken(snap: &ScanSnapshot, w: GridWindow, t: int, out: Seq<StoredVoxel>) -> bool {
    t + 1 < snap.tile_offsets@.len() ==> forall|i: int|
        snap.tile_offsets@[t] <= i < snap.tile_offsets@[t + 1] && in_window(#[trigger] snap.voxels@[i], w)
            ==> out.contains(snap.voxels@[i])
}

/// The tile at (row, col) of the tile grid lies in the window's tile range.
pub open spec fn tile_in_window(w: GridWindow, tr: int, tc: int) -> bool {
    w.tile_row_start <= tr <= w.tile_row_end && w.tile_col_start <= tc <= w.tile_col_end
}

/// Membership in the window, as a filter predicate.
pub open spec fn window_pred(w: GridWindow) -> spec_fn(StoredVoxel) -> bool {
    |v: StoredVoxel| in_window(v, w)
}

/// The voxels that the window takes from tile `t`, in their stored order.
pub open spec fn tile_pick(snap: &ScanSnapshot, w: GridWindow, t: int) -> Seq<StoredVoxel> {
    if 0 <= t && t + 1 < snap.tile_offsets@.len() {
        snap.voxels@.subrange(snap.tile_offsets@[t] as int, snap.tile_offsets@[t + 1] as int).filter(
            window_pred(w),
        )
    } else {
        Seq::empty()
    }
}

/// The picks of the tiles of tile row `tr`, from the window's first tile column
/// up to (not including) `tc_end`.
pub open spec fn row_pick(snap: &ScanSnapshot, w: GridWindow, tr: int, tc_end: int) -> Seq<StoredVoxel>
    decreases tc_end - w.tile_col_start,
{
    if tc_end <= w.tile_col_start {
        Seq::empty()
    } else {
        let t = tr * snap.tile_cols + (tc_end - 1);
        row_pick(snap, w, tr, tc_end - 1) + if t < u32::MAX {
            tile_pick(snap, w, t)
        } else {
            Seq::empty()
        }
    }
}

/// The picks of the window's tile rows up to (not including) `tr_end`.
pub open spec fn rows_pick(snap: &ScanSnapshot, w: GridWindow, tr_end: int) -> Seq<StoredVoxel>
    decreases tr_end - w.tile_row_start,
{
    if tr_end <= w.tile_row_start {
        Seq::empty()
    } else {
        rows_pick(snap, w, tr_end - 1) + row_pick(snap, w, tr_end - 1, w.tile_col_end + 1)
    }
}

/// Everything the window takes, tile by tile in row-major tile order.
pub open spec fn window_pick(snap: &ScanSnapshot, w: GridWindow) -> Seq<StoredVoxel> {
    if w.tile_row_start > w.tile_row_end || w.tile_col_start > w.tile_col_end {
        Seq::empty()
    } else {
        rows_pick(snap, w, w.tile_row_end + 1)
    }
}

fn take_tile(snap: &ScanSnapshot, w: &GridWindow, t: usize, out: &mut Vec<StoredVoxel>)
    requires
        snap.wf(),
    ensures
        old(out)@.len() <= final(out)@.len(),
        forall|k: int| 0 <= k < old(out)@.len() ==> #[trigger] final(out)@[k] == old(out)@[k],
        forall|k: int|
            old(out)@.len() <= k < final(out)@.len() ==> in_window(#[trigger] final(out)@[k], *w)
                && snap.voxels@.contains(final(out)@[k]),
        tile_taken(snap, *w, t as int, final(out)@),
        final(out)@ == old(out)@ + tile_pick(snap, *w, t as int),
{
    if t >= snap.tile_offsets.len() || snap.tile_offsets.len() - t < 2 {
        assert(old(out)@ + Seq::<StoredVoxel>::empty() =~= old(out)@);
        return;
    }
    let start = snap.tile_offsets[t] as usize;
    let end = snap.tile_offsets[t + 1] as usize;
    proof {
        assert(snap.tile_offsets@[t as int] <= snap.tile_offsets@[t + 1]);
        assert(snap.tile_offsets@[t + 1] <= snap.tile_offsets@[snap.tile_count()]);
    }
    let mut i = start;
    while i < end
        invariant
            start <= i <= end,
            end <= snap.voxels@.len(),
            start == snap.tile_offsets@[t as int],
            end == snap.tile_offsets@[t + 1],
            old(out)@.len() <= out@.len(),
            forall|k: int| 0 <= k < old(out)@.len() ==> #[trigger] out@[k] == old(out)@[k],
            forall|k: int|
                old(out)@.len() <= k < out@.len() ==> in_window(#[trigger] out@[k], *w)
                    && snap.voxels@.contains(out@[k]),
            forall|j: int| start <= j < i && in_window(#[trigger] snap.voxels@[j], *w) ==> out@.contains(snap.voxels@[j]),
            out@ == old(out)@ + snap.voxels@.subrange(start as int, i as int).filter(window_pred(*w)),
        decreases end - i,
    {
        let v = snap.voxels[i];
        let ghost before = out@;
        proof {
            assert(snap.voxels@.subrange(start as int, i + 1) =~= snap.voxels@.subrange(start as int, i as int).push(v));
            lemma_filter_push_voxel(snap.voxels@.subrange(start as int, i as int), v, window_pred(*w));
        }
        if v.row as u32 >= w.row_start && v.row as u32 <= w.row_end && (w.lon_wrapped || (v.col as u32
            >= w.col_start && v.col as u32 <= w.col_end)) && v.dbz_tenths >= w.min_dbz_tenths {
            out.push(v);
            proof {
                assert(out@[before.len() as int] == v);
                assert forall|j: int| start <= j < i + 1 && in_window(#[trigger] snap.voxels@[j], *w) implies out@.contains(
                    snap.voxels@[j],
                ) by {
                    if j < i {
                        let k = choose|k: int| 0 <= k < before.len() && before[k] == snap.voxels@[j];
                        assert(out@[k] == before[k]);
                    }
                }
                assert(out@ =~= old(out)@ + snap.voxels@.subrange(start as int, i + 1).filter(window_pred(*w)));
            }
        }
        i = i + 1;
    }
}

/// The voxels of the snapshot that the window takes: those of the tiles in its
/// tile range that lie in its rows (and columns, unless the window wraps) and
/// reach its reflectivity floor, tile by tile in row-major tile order.
pub fn select_window_voxels(snap: &ScanSnapshot, w: &GridWindow) -> (r: Vec<StoredVoxel>)
    requires
        snap.wf(),
        w.tile_row_end < u32::MAX,
        w.tile_col_end < u32::MAX,
    ensures
        r@ == window_pick(snap, *w),
        forall|k: int| 0 <= k < r@.len() ==> in_window(#[trigger] r@[k], *w) && snap.voxels@.contains(r@[k]),
        forall|tr: int, tc: int|
            tile_in_window(*w, tr, tc) && tr * snap.tile_cols + tc < u32::MAX ==> #[trigger] tile_taken(
                snap,
                *w,
                tr * snap.tile_cols + tc,
                r@,
            ),
{
    let mut out: Vec<StoredVoxel> = Vec::new();
    if w.tile_row_start > w.tile_row_end || w.tile_col_start > w.tile_col_end {
        return out;
    }
    let cols = snap.tile_cols as u64;
    let mut tr = w.tile_row_start;
    assert(rows_pick(snap, *w, tr as int) =~= Seq::<StoredVoxel>::empty());
    while tr <= w.tile_row_end
        invariant
            snap.wf(),
            w.tile_row_end < u32::MAX,
            w.tile_col_end < u32::MAX,
            cols == snap.tile_cols,
            w.tile_row_start <= tr <= w.tile_row_end + 1,
            w.tile_col_start <= w.tile_col_end,
            out@ == rows_pick(snap, *w, tr as int),
            forall|k: int| 0 <= k < out@.len() ==> in_window(#[trigger] out@[k], *w) && snap.voxels@.contains(out@[k]),
            forall|r: int, c: int|
                tile_in_window(*w, r, c) && r < tr && r * snap.tile_cols + c < u32::MAX ==> #[trigger] tile_taken(
                    snap,
                    *w,
                    r * snap.tile_cols + c,
                    out@,
                ),
        decreases w.tile_row_end + 1 - tr,
    {
        let mut tc = w.tile_col_start;
        proof {
            assert(row_pick(snap, *w, tr as int, w.tile_col_start as int) =~= Seq::<StoredVoxel>::empty());
            assert(out@ =~= rows_pick(snap, *w, tr as int) + row_pick(snap, *w, tr as int, w.tile_col_start as int));
        }
        while tc <= w.tile_col_end
            invariant
                snap.wf(),
                w.tile_row_end < u32::MAX,
                w.tile_col_end < u32::MAX,
                cols == snap.tile_cols,
                w.tile_row_start <= tr <= w.tile_row_end,
                w.tile_col_start <= tc <= w.tile_col_end + 1,
                out@ == rows_pick(snap, *w, tr as int) + row_pick(snap, *w, tr as int, tc as int),
                forall|k: int| 0 <= k < out@.len() ==> in_window(#[trigger] out@[k], *w) && snap.voxels@.contains(out@[k]),
                forall|r: int, c: int|
                    tile_in_window(*w, r, c) && (r < tr || (r == tr && c < tc)) && r * snap.tile_cols + c
                        < u32::MAX ==> #[trigger] tile_taken(snap, *w, r * snap.tile_cols + c, out@),
            decreases w.tile_col_end + 1 - tc,
        {
            proof {
                assert(tr as int * cols as int <= 0xffff_ffff * 0xffff) by (nonlinear_arith)
                    requires
                        tr <= 0xffff_ffff,
                        cols <= 0xffff,
                ;
            }
            let t64 = tr as u64 * cols + tc as u64;
            let ghost prefix = rows_pick(snap, *w, tr as int);
            let ghost row_so_far = row_pick(snap, *w, tr as int, tc as int);
            assert(t64 as int == tr as int * snap.tile_cols as int + tc as int);
            if t64 < u32::MAX as u64 {
                let ghost before = out@;
                take_tile(snap, w, t64 as usize, &mut out);
                proof {
                    assert(row_pick(snap, *w, tr as int, tc + 1) == row_so_far + tile_pick(snap, *w, t64 as int));
                    assert(out@ =~= prefix + row_pick(snap, *w, tr as int, tc + 1));
                    assert forall|r: int, c: int|
                        tile_in_window(*w, r, c) && (r < tr || (r == tr && c < tc + 1)) && r * snap.tile_cols + c
                            < u32::MAX implies #[trigger] tile_taken(snap, *w, r * snap.tile_cols + c, out@) by {
                        if r < tr || c < tc {
                            let t = r * snap.tile_cols + c;
                            assert(tile_taken(snap, *w, t, before));
                            if t + 1 < snap.tile_offsets@.len() {
                                assert forall|i: int|
                                    snap.tile_offsets@[t] <= i < snap.tile_offsets@[t + 1] && in_window(
                                        #[trigger] snap.voxels@[i],
                                        *w,
                                    ) implies out@.contains(snap.voxels@[i]) by {
                                    let k = choose|k: int| 0 <= k < before.len() && before[k] == snap.voxels@[i];
                                    assert(out@[k] == before[k]);
                                }
                            }
                        }
                    }
                }
            } else {
                proof {
                    assert(row_pick(snap, *w, tr as int, tc + 1) =~= row_so_far + Seq::<StoredVoxel>::empty());
                    assert(out@ =~= prefix + row_pick(snap, *w, tr as int, tc + 1));
                }
            }
            tc = tc + 1;
        }
        proof {
            assert(rows_pick(snap, *w, tr + 1) == rows_pick(snap, *w, tr as int) + row_pick(
                snap,
                *w,
                tr as int,
                w.tile_col_end + 1,
            ));
        }
        tr = tr + 1;
    }
    out
}

} // verus!
