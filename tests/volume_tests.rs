use approach_viz::levels::{compute_level_bounds, level_heights_hundredths_km, level_tags};
use approach_viz::merge::{
    build_level_rectangles, max_span_for_dbz, merge_level_bricks, quantize_dbz_tenths, split_rectangle,
    HorizontalRect, MergeCell, MergeKey,
};
use approach_viz::snapshot::{
    build_tiled_index, reflective_cells, GridDef, LevelBounds, LevelPhaseVoxel, PhaseDebugMetadata,
    ScanSnapshot, StoredVoxel,
};
use approach_viz::storage::{retention_deletions, frame_snapshot, snapshot_file_bytes, snapshot_payload, unframe_snapshot, SnapshotFileError};
use approach_viz::volume::{brick_record, group_level_cells, select_window_voxels, GridWindow};
use approach_viz::wire::{encode_volume_v1, encode_volume_v2, encode_wire_header, VoxelRecord, WireHeader};

fn header() -> WireHeader {
    WireHeader {
        generated_at_ms: 1_700_000_000_000,
        scan_time_ms: 1_699_999_999_000,
        footprint_x_milli: 460,
        footprint_y_milli: 600,
        min_dbz_tenths: 50,
        max_range_tenths_nm: 500,
        tile_size: 64,
        origin_lat_microdeg: 40_000_000,
        origin_lon_microdeg: -75_000_000,
    }
}

fn u32_at(b: &[u8], off: usize) -> u32 {
    u32::from_le_bytes([b[off], b[off + 1], b[off + 2], b[off + 3]])
}

#[test]
fn wire_header_v2_layout() {
    let counts = vec![0_u32; 33];
    let bytes = encode_volume_v2(&header(), &counts, &Vec::new());
    assert_eq!(&bytes[0..4], b"AVMR");
    assert_eq!(&bytes[4..6], &[0x02, 0x00]);
    assert_eq!(&bytes[6..8], &[64, 0]);
    assert_eq!(&bytes[16..18], &[33, 0]);
    assert_eq!(&bytes[18..20], &[20, 0]);
    assert_eq!(&bytes[40..42], &[0x32, 0x00]);
    assert_eq!(&bytes[42..44], &[0xF4, 0x01]);
    assert_eq!(&bytes[44..46], &[64, 0]);
    assert_eq!(&bytes[46..48], &[0x32, 0x00]);
    assert_eq!(&bytes[48..52], &40_000_000_i32.to_le_bytes());
    assert_eq!(bytes.len(), 64 + 33 * 4);
}

#[test]
fn wire_header_signed_fields() {
    let bytes = encode_wire_header(&header(), 1, 16, 0, 33, 7, 0);
    assert_eq!(bytes.len(), 64);
    assert_eq!(&bytes[52..56], &(-75_000_000_i32).to_le_bytes());
    assert_eq!(&bytes[20..28], &1_700_000_000_000_i64.to_le_bytes());
    assert_eq!(u32_at(&bytes, 8), 7);
    assert_eq!(&bytes[56..64], &[0; 8]);
}

#[test]
fn v1_voxel_record_bytes() {
    let record = VoxelRecord {
        x_centi_nm: -1235,
        z_centi_nm: 457,
        bottom_feet: 5000,
        top_feet: 6000,
        dbz_tenths: 375,
        phase: 0,
        level_idx: 5,
    };
    let mut counts = vec![0_u32; 33];
    counts[5] = 1;
    let bytes = encode_volume_v1(&header(), &counts, &vec![record]);
    let start = 64 + 33 * 4;
    assert_eq!(bytes.len(), start + 16);
    assert_eq!(u32_at(&bytes, 8), 1);
    let rec = &bytes[start..];
    assert_eq!(&rec[0..2], &(-1235_i16).to_le_bytes());
    assert_eq!(&rec[2..4], &457_i16.to_le_bytes());
    assert_eq!(&rec[4..6], &5000_u16.to_le_bytes());
    assert_eq!(&rec[6..8], &6000_u16.to_le_bytes());
    assert_eq!(&rec[8..10], &375_i16.to_le_bytes());
    assert_eq!(rec[10], 0);
    assert_eq!(rec[11], 5);
    assert_eq!(&rec[12..16], &[0, 0, 0, 0]);
}

#[test]
fn quantize_and_spans() {
    assert_eq!(quantize_dbz_tenths(374, 50), 350);
    assert_eq!(quantize_dbz_tenths(375, 50), 400);
    assert_eq!(quantize_dbz_tenths(-26, 50), -50);
    assert_eq!(quantize_dbz_tenths(-24, 50), 0);
    assert_eq!(quantize_dbz_tenths(123, 1), 123);
    assert_eq!(max_span_for_dbz(450), 20);
    assert_eq!(max_span_for_dbz(449), 48);
}

#[test]
fn split_rectangle_caps_span() {
    let key = MergeKey { phase: 0, dbz_tenths: 500 };
    let rect = HorizontalRect { row_start: 0, row_end: 44, col_start: 10, col_end: 30, key };
    let mut out = Vec::new();
    split_rectangle(rect, 20, &mut out);
    assert_eq!(out.len(), 6);
    assert!(out.iter().all(|r| r.row_end - r.row_start + 1 <= 20 && r.col_end - r.col_start + 1 <= 20));
    let cells: u32 = out.iter().map(|r| (r.row_end - r.row_start + 1) * (r.col_end - r.col_start + 1)).sum();
    assert_eq!(cells, 45 * 21);
}

fn cell(row: u32, col: u32, phase: u8, dbz: i16) -> MergeCell {
    MergeCell { row, col, key: MergeKey { phase, dbz_tenths: dbz } }
}

#[test]
fn rectangles_from_runs() {
    let mut cells = vec![
        cell(2, 1, 0, 200),
        cell(1, 1, 0, 200),
        cell(1, 2, 0, 200),
        cell(2, 2, 0, 200),
        cell(1, 4, 2, 200),
        cell(4, 1, 0, 200),
        cell(4, 2, 0, 200),
    ];
    let rects = build_level_rectangles(&mut cells);
    assert_eq!(rects.len(), 3);
    let key = MergeKey { phase: 0, dbz_tenths: 200 };
    assert_eq!(rects[0], HorizontalRect { row_start: 1, row_end: 2, col_start: 1, col_end: 2, key });
    assert_eq!(rects[1], HorizontalRect { row_start: 1, row_end: 1, col_start: 4, col_end: 4, key: MergeKey { phase: 2, dbz_tenths: 200 } });
    assert_eq!(rects[2], HorizontalRect { row_start: 4, row_end: 4, col_start: 1, col_end: 2, key });
    assert_eq!(cells[0], cell(1, 1, 0, 200));
}

#[test]
fn bricks_extrude_and_respect_limits() {
    let heights = level_heights_hundredths_km();
    let bounds = compute_level_bounds(&heights);
    let mut levels = Vec::new();
    for _ in 0..6 {
        levels.push(vec![cell(3, 3, 1, 300), cell(3, 4, 1, 300)]);
    }
    let bricks = merge_level_bricks(&levels, &bounds);
    assert_eq!(bricks.len(), 2);
    assert_eq!((bricks[0].level_start, bricks[0].level_end), (0, 3));
    assert_eq!((bricks[1].level_start, bricks[1].level_end), (4, 5));
    for b in &bricks {
        assert!(b.row_start <= b.row_end && b.col_start <= b.col_end && b.level_start <= b.level_end);
        assert!(b.level_end - b.level_start + 1 <= 4);
        assert_eq!((b.col_start, b.col_end), (3, 4));
    }
    let record = brick_record(&bricks[0], 10, -20, &bounds);
    assert_eq!(record.span_x, 2);
    assert_eq!(record.span_y, 1);
    assert_eq!(record.span_z, 4);
    assert_eq!(record.bottom_feet, bounds[0].bottom_feet);
    assert_eq!(record.top_feet, bounds[3].top_feet);
}

#[test]
fn bricks_split_wide_high_reflectivity() {
    let bounds = compute_level_bounds(&level_heights_hundredths_km());
    let mut row = Vec::new();
    for col in 0..50 {
        row.push(cell(0, col, 0, 500));
    }
    let bricks = merge_level_bricks(&vec![row], &bounds);
    assert_eq!(bricks.len(), 3);
    assert!(bricks.iter().all(|b| b.col_end - b.col_start + 1 <= 20));
}

#[test]
fn level_counts_sum_to_source_count() {
    let voxels = vec![
        StoredVoxel { row: 1, col: 1, level_idx: 0, phase: 0, dbz_tenths: 120 },
        StoredVoxel { row: 1, col: 2, level_idx: 2, phase: 1, dbz_tenths: 374 },
        StoredVoxel { row: 1, col: 3, level_idx: 2, phase: 2, dbz_tenths: 376 },
        StoredVoxel { row: 1, col: 4, level_idx: 40, phase: 2, dbz_tenths: 376 },
    ];
    let grouped = group_level_cells(&voxels, 33);
    assert_eq!(grouped.layer_counts[0], 1);
    assert_eq!(grouped.layer_counts[2], 2);
    assert_eq!(grouped.cells_by_level[2][0].key.dbz_tenths, 350);
    assert_eq!(grouped.cells_by_level[2][1].key.dbz_tenths, 400);
    let bytes = encode_volume_v2(&header(), &grouped.layer_counts, &Vec::new());
    let table_sum: u32 = (0..33).map(|l| u32_at(&bytes, 64 + 4 * l)).sum();
    assert_eq!(u32_at(&bytes, 8), 3);
    assert_eq!(table_sum, 3);
    assert_eq!(u32_at(&bytes, 12), 0);
}

#[test]
fn level_bounds_of_fixed_tags() {
    let heights = level_heights_hundredths_km();
    assert_eq!(heights.len(), level_tags().len());
    let bounds = compute_level_bounds(&heights);
    assert_eq!(bounds[0], LevelBounds { bottom_feet: 1230, top_feet: 2051 });
    assert_eq!(bounds[10], LevelBounds { bottom_feet: 9432, top_feet: 10663 });
    assert_eq!(bounds[32], LevelBounds { bottom_feet: 60696, top_feet: 63976 });
    for i in 0..32 {
        assert!(bounds[i].top_feet <= bounds[i + 1].top_feet);
        assert!(bounds[i].bottom_feet <= bounds[i].top_feet);
    }
}

fn level_voxel(row: u16, col: u16, dbz: i16, phase: u8) -> LevelPhaseVoxel {
    LevelPhaseVoxel { row, col, dbz_tenths: dbz, phase, transition_candidate: false }
}

fn debug() -> PhaseDebugMetadata {
    PhaseDebugMetadata {
        mode: "thermo-primary".to_string(),
        detail: String::new(),
        zdr_timestamp: None,
        rhohv_timestamp: None,
        precip_flag_timestamp: None,
        freezing_level_timestamp: None,
        zdr_age_seconds: None,
        rhohv_age_seconds: None,
    }
}

#[test]
fn tiled_index_layout() {
    let levels = vec![
        vec![level_voxel(0, 0, 60, 0), level_voxel(20, 20, 70, 1), level_voxel(0, 17, 80, 2)],
        vec![level_voxel(1, 1, 90, 0)],
    ];
    let index = build_tiled_index(&levels, 40, 30, 8);
    assert_eq!(index.tile_size, 16);
    assert_eq!((index.tile_cols, index.tile_rows), (3, 2));
    assert_eq!(index.tile_offsets, vec![0, 2, 3, 3, 3, 4, 4]);
    assert_eq!(index.voxels.len(), 4);
    assert_eq!(index.voxels[0].level_idx, 0);
    assert_eq!(index.voxels[1], StoredVoxel { row: 1, col: 1, level_idx: 1, phase: 0, dbz_tenths: 90 });
    assert_eq!(index.voxels[2].col, 17);
    assert_eq!(index.voxels[3].row, 20);
}

#[test]
fn reflective_cells_keep_stored_values() {
    let dbz = vec![10, 50, i16::MIN, 49, 300, 51];
    let cells = reflective_cells(&dbz, 3, 2);
    assert_eq!(cells.len(), 3);
    assert_eq!((cells[0].row, cells[0].col, cells[0].dbz_tenths), (0, 1, 50));
    assert_eq!((cells[1].row, cells[1].col), (1, 1));
    assert_eq!((cells[2].row, cells[2].col), (1, 2));
}

fn snapshot() -> ScanSnapshot {
    let levels = vec![vec![
        level_voxel(0, 0, 60, 0),
        level_voxel(20, 20, 70, 1),
        level_voxel(0, 17, 80, 2),
        level_voxel(2, 3, 40 + 100, 2),
    ]];
    let index = build_tiled_index(&levels, 40, 30, 16);
    let grid = GridDef {
        nx: 40,
        ny: 30,
        la1_microdeg: 55_000_000,
        lo1_microdeg360: 230_000_000,
        di_microdeg: 10_000,
        dj_microdeg: 10_000,
        scanning_mode: 0,
    };
    ScanSnapshot::assemble(
        "20260101-001200".to_string(),
        0,
        0,
        grid,
        compute_level_bounds(&level_heights_hundredths_km()),
        index,
        debug(),
    )
}

#[test]
fn window_selection_filters_rows_cols_and_dbz() {
    let snap = snapshot();
    let window = GridWindow {
        row_start: 0,
        row_end: 5,
        col_start: 0,
        col_end: 10,
        lon_wrapped: false,
        tile_row_start: 0,
        tile_row_end: 0,
        tile_col_start: 0,
        tile_col_end: 1,
        min_dbz_tenths: 70,
    };
    let picked = select_window_voxels(&snap, &window);
    assert_eq!(picked.len(), 1);
    assert_eq!((picked[0].row, picked[0].col), (2, 3));
    let wrapped = GridWindow { lon_wrapped: true, min_dbz_tenths: 50, ..window };
    let picked = select_window_voxels(&snap, &wrapped);
    assert_eq!(picked.len(), 3);
}

#[test]
fn grid_steps_follow_scanning_mode() {
    let grid = snapshot().grid;
    assert_eq!(grid.lat_step_microdeg(), -10_000);
    assert_eq!(grid.lon_step_microdeg(), 10_000);
    let flipped = GridDef { scanning_mode: 0xC0, ..grid };
    assert_eq!(flipped.lat_step_microdeg(), 10_000);
    assert_eq!(flipped.lon_step_microdeg(), -10_000);
}

#[test]
fn snapshot_frame_round_trip() {
    let payload = vec![1_u8, 2, 3, 250, 0, 7];
    let body = frame_snapshot(&payload);
    assert_eq!(&body[0..6], &[0x41, 0x56, 0x53, 0x4E, 1, 0]);
    assert_eq!(unframe_snapshot(&body), Ok(payload.clone()));
    let file = snapshot_file_bytes(&payload).expect("compressed");
    assert_ne!(file, body);
    assert_eq!(snapshot_payload(&file), Ok(payload));
}

#[test]
fn snapshot_frame_errors() {
    assert_eq!(unframe_snapshot(&vec![0x41, 0x56]), Err(SnapshotFileError::TooShort));
    assert_eq!(unframe_snapshot(&vec![0x41, 0x56, 0x53, 0x4F, 1, 0]), Err(SnapshotFileError::BadMagic));
    assert_eq!(unframe_snapshot(&vec![0x41, 0x56, 0x53, 0x4E, 2, 0]), Err(SnapshotFileError::UnsupportedVersion(2)));
    assert_eq!(snapshot_payload(&[1, 2, 3]), Err(SnapshotFileError::Decompress));
}

#[test]
fn retention_deletes_oldest_until_within_budget() {
    assert_eq!(retention_deletions(&vec![10, 20, 30], 60), 0);
    assert_eq!(retention_deletions(&vec![10, 20, 30], 50), 1);
    assert_eq!(retention_deletions(&vec![10, 20, 30], 30), 2);
    assert_eq!(retention_deletions(&vec![10, 20, 30], 0), 3);
    assert_eq!(retention_deletions(&vec![], 0), 0);
}

#[test]
fn level_tags_follow_heights() {
    let tags = level_tags();
    assert_eq!(tags[0], "00.50");
    assert_eq!(tags[11], "03.50");
    assert_eq!(tags[23], "10.00");
    assert_eq!(tags[32], "19.00");
}

#[test]
fn loaded_snapshot_invariant_check() {
    let mut snap = snapshot();
    assert!(snap.is_well_formed());
    snap.voxels[0].dbz_tenths = 10;
    assert!(!snap.is_well_formed());
    let mut snap = snapshot();
    snap.tile_offsets[1] = 9;
    assert!(!snap.is_well_formed());
}
