use approach_viz::phase::use_dual_pol_fallback;
use approach_viz::keys::{build_level_key, MRMS_PRODUCT_PREFIX, MRMS_RHOHV_PRODUCT_PREFIX, MRMS_ZDR_PRODUCT_PREFIX};
use approach_viz::phase::{apply_precip_snow_override, phase_from_precip_code, promote_mixed_transition_edges};
use approach_viz::snapshot::{LevelPhaseVoxel, PHASE_MIXED, PHASE_RAIN, PHASE_SNOW};

#[test]
fn promote_mixed_transition_edges_marks_adjacent_rain_and_snow() {
    let mut records = vec![
        LevelPhaseVoxel { row: 10, col: 10, dbz_tenths: 180, phase: PHASE_RAIN, transition_candidate: true },
        LevelPhaseVoxel { row: 10, col: 11, dbz_tenths: 170, phase: PHASE_SNOW, transition_candidate: true },
        LevelPhaseVoxel { row: 20, col: 20, dbz_tenths: 160, phase: PHASE_SNOW, transition_candidate: true },
    ];
    let promoted = promote_mixed_transition_edges(&mut records, 200, 200);
    assert_eq!(promoted, 2);
    assert_eq!(records[0].phase, PHASE_MIXED);
    assert_eq!(records[1].phase, PHASE_MIXED);
    assert_eq!(records[2].phase, PHASE_SNOW);
}

#[test]
fn promote_mixed_transition_edges_skips_non_candidates() {
    let mut records = vec![
        LevelPhaseVoxel { row: 15, col: 15, dbz_tenths: 150, phase: PHASE_RAIN, transition_candidate: false },
        LevelPhaseVoxel { row: 15, col: 16, dbz_tenths: 150, phase: PHASE_SNOW, transition_candidate: false },
    ];
    let promoted = promote_mixed_transition_edges(&mut records, 200, 200);
    assert_eq!(promoted, 0);
    assert_eq!(records[0].phase, PHASE_RAIN);
    assert_eq!(records[1].phase, PHASE_SNOW);
}

#[test]
fn promote_mixed_transition_edges_diagonal_neighbor_and_one_sided_candidate() {
    let mut records = vec![
        LevelPhaseVoxel { row: 5, col: 5, dbz_tenths: 200, phase: PHASE_RAIN, transition_candidate: true },
        LevelPhaseVoxel { row: 6, col: 6, dbz_tenths: 200, phase: PHASE_SNOW, transition_candidate: false },
        LevelPhaseVoxel { row: 0, col: 0, dbz_tenths: 200, phase: PHASE_MIXED, transition_candidate: true },
    ];
    let promoted = promote_mixed_transition_edges(&mut records, 10, 10);
    assert_eq!(promoted, 1);
    assert_eq!(records[0].phase, PHASE_MIXED);
    assert_eq!(records[1].phase, PHASE_SNOW);
    assert_eq!(records[2].phase, PHASE_MIXED);
}

#[test]
fn phase_from_precip_flag_maps_known_codes() {
    assert_eq!(phase_from_precip_code(3), Some(PHASE_SNOW));
    assert_eq!(phase_from_precip_code(7), Some(PHASE_MIXED));
    assert_eq!(phase_from_precip_code(0), Some(PHASE_RAIN));
    assert_eq!(phase_from_precip_code(91), Some(PHASE_RAIN));
    assert_eq!(phase_from_precip_code(-3), Some(PHASE_RAIN));
    assert_eq!(phase_from_precip_code(4), None);
}

#[test]
fn precip_flag_snow_overrides_dual_rain() {
    let (phase, forced) = apply_precip_snow_override(PHASE_RAIN, phase_from_precip_code(3), PHASE_SNOW, false);
    assert_eq!(phase, PHASE_SNOW);
    assert!(forced);
}

#[test]
fn precip_flag_snow_needs_snow_or_transition() {
    let (phase, forced) = apply_precip_snow_override(PHASE_RAIN, Some(PHASE_SNOW), PHASE_RAIN, false);
    assert_eq!(phase, PHASE_RAIN);
    assert!(!forced);
    let (phase, forced) = apply_precip_snow_override(PHASE_MIXED, Some(PHASE_SNOW), PHASE_RAIN, true);
    assert_eq!(phase, PHASE_SNOW);
    assert!(forced);
    let (phase, forced) = apply_precip_snow_override(PHASE_SNOW, Some(PHASE_SNOW), PHASE_SNOW, true);
    assert_eq!(phase, PHASE_SNOW);
    assert!(!forced);
}

#[test]
fn dual_pol_keys_share_same_timestamp_and_level_as_reflectivity() {
    let date = "20260212";
    let timestamp = "20260212-123456";
    let level = "03.00";
    let suffix = format!("_{level}_{timestamp}.grib2.gz");

    let reflectivity = build_level_key(MRMS_PRODUCT_PREFIX, level, date, timestamp);
    let zdr = build_level_key(MRMS_ZDR_PRODUCT_PREFIX, level, date, timestamp);
    let rhohv = build_level_key(MRMS_RHOHV_PRODUCT_PREFIX, level, date, timestamp);

    assert!(reflectivity.ends_with(&suffix));
    assert!(zdr.ends_with(&suffix));
    assert!(rhohv.ends_with(&suffix));
}

#[test]
fn dual_pol_staleness() {
    assert!(!use_dual_pol_fallback(Some(0), Some(300), 33, 33, 33));
    assert!(use_dual_pol_fallback(Some(301), Some(0), 33, 33, 33));
    assert!(use_dual_pol_fallback(None, Some(400), 33, 33, 33));
    assert!(use_dual_pol_fallback(None, None, 32, 33, 33));
    assert!(!use_dual_pol_fallback(None, None, 33, 33, 33));
}
