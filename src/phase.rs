use vstd::prelude::*;
use vstd::hash_map::HashMapWithView;

use crate::snapshot::{LevelPhaseVoxel, PHASE_MIXED, PHASE_RAIN, PHASE_SNOW};

verus! {

broadcast use vstd::std_specs::hash::group_hash_axioms;

/// `b` is one of the eight grid neighbours of `a`.
pub open spec fn adjacent(a: LevelPhaseVoxel, b: LevelPhaseVoxel) -> bool {
    let dr = b.row - a.row;
    let dc = b.col - a.col;
    -1 <= dr <= 1 && -1 <= dc <= 1 && !(dr == 0 && dc == 0)
}

pub open spec fn same_position(a: LevelPhaseVoxel, b: LevelPhaseVoxel) -> bool {
    a.row == b.row && a.col == b.col
}

/// No later record of `s` sits where record `j` sits: `j` is the record that a
/// lookup by position finds.
pub open spec fn last_at_position(s: Seq<LevelPhaseVoxel>, j: int) -> bool {
    forall|k: int| j < k < s.len() ==> !same_position(#[trigger] s[k], s[j])
}

pub open spec fn opposite_phase(p: u8) -> u8 {
    if p == PHASE_RAIN {
        PHASE_SNOW
    } else {
        PHASE_RAIN
    }
}

/// Record `i` is a rain or snow transition candidate next to a record of the
/// other of the two phases.
pub open spec fn edge_promoted(s: Seq<LevelPhaseVoxel>, i: int) -> bool {
    &&& s[i].transition_candidate
    &&& (s[i].phase == PHASE_RAIN || s[i].phase == PHASE_SNOW)
    &&& exists|j: int|
        0 <= j < s.len() && last_at_position(s, j) && adjacent(s[i], #[trigger] s[j]) && s[j].phase
            == opposite_phase(s[i].phase)
}

pub open spec fn promoted_count(s: Seq<LevelPhaseVoxel>, n: int) -> int
    decreases n,
{
    if n <= 0 {
        0
    } else {
        promoted_count(s, n - 1) + if edge_promoted(s, n - 1) {
            1int
        } else {
            0
        }
    }
}

pub open spec fn position_key(row: int, col: int, nx: int) -> int {
    row * nx + col
}

proof fn lemma_position_key_injective(r1: int, c1: int, r2: int, c2: int, nx: int)
    requires
        0 <= c1 < nx,
        0 <= c2 < nx,
        0 <= r1,
        0 <= r2,
        position_key(r1, c1, nx) == position_key(r2, c2, nx),
    ensures
        r1 == r2 && c1 == c2,
{
    assert(r1 == r2 && c1 == c2) by (nonlinear_arith)
        requires
            0 <= c1 < nx,
            0 <= c2 < nx,
            0 <= r1,
            0 <= r2,
            r1 * nx + c1 == r2 * nx + c2,
    ;
}

proof fn lemma_key_fits(row: int, col: int, nx: int)
    requires
        0 <= row <= 65536,
        0 <= col < nx,
        nx <= 0xffff_ffff,
    ensures
        0 <= row * nx + col <= 65537 * 0xffff_ffff,
{
    assert(0 <= row * nx + col <= 65537 * 0xffff_ffff) by (nonlinear_arith)
        requires
            0 <= row <= 65536,
            0 <= col < nx,
            nx <= 0xffff_ffff,
    ;
}

/// The record found at (row, col), if any, has the wanted phase.
fn neighbor_has_phase(
    index: &HashMapWithView<u64, usize>,
    records: &Vec<LevelPhaseVoxel>,
    row: i64,
    col: i64,
    nx: u32,
    ny: u32,
    wanted: u8,
) -> (r: bool)
    requires
        forall|i: int|
            0 <= i < records@.len() ==> (#[trigger] records@[i]).row < ny && records@[i].col < nx,
        forall|k: u64|
            #[trigger] index@.contains_key(k) ==> {
                &&& index@[k] < records@.len()
                &&& last_at_position(records@, index@[k] as int)
                &&& k == position_key(
                    records@[index@[k] as int].row as int,
                    records@[index@[k] as int].col as int,
                    nx as int,
                )
            },
        forall|i: int|
            0 <= i < records@.len() ==> index@.contains_key(
                position_key(
                    (#[trigger] records@[i]).row as int,
                    records@[i].col as int,
                    nx as int,
                ) as u64,
            ),
        -2 <= row <= 65536,
        -2 <= col <= 65536,
    ensures
        r == exists|j: int|
            0 <= j < records@.len() && last_at_position(records@, j) && (#[trigger] records@[j]).row
                == row && records@[j].col == col && records@[j].phase == wanted,
{
    if row < 0 || col < 0 || row >= ny as i64 || col >= nx as i64 {
        return false;
    }
    proof {
        lemma_key_fits(row as int, col as int, nx as int);
    }
    let key: u64 = row as u64 * nx as u64 + col as u64;
    match index.get(&key) {
        Some(j) => {
            let j = *j;
            let found = records[j].phase == wanted;
            proof {
                let rj = records@[j as int];
                lemma_position_key_injective(rj.row as int, rj.col as int, row as int, col as int, nx as int);
                if !found {
                    assert forall|j2: int|
                        0 <= j2 < records@.len() && last_at_position(records@, j2) && (
                        #[trigger] records@[j2]).row == row && records@[j2].col == col implies records@[j2].phase
                        != wanted by {
                        if j2 != j {
                            if j2 < j {
                                assert(same_position(records@[j as int], records@[j2]));
                            } else {
                                assert(same_position(records@[j2], records@[j as int]));
                            }
                        }
                    }
                }
            }
            found
        },
        None => {
            proof {
                assert forall|j2: int|
                    0 <= j2 < records@.len() implies !((#[trigger] records@[j2]).row == row
                    && records@[j2].col == col) by {
                    if records@[j2].row == row && records@[j2].col == col {
                        assert(index@.contains_key(key));
                    }
                }
            }
            false
        },
    }
}

/// Turns every rain or snow transition candidate of a level that touches a voxel
/// of the other of the two phases (8-connected) into mixed, judged on the phases
/// as they were before the call; returns how many it turned.
pub fn promote_mixed_transition_edges(records: &mut Vec<LevelPhaseVoxel>, grid_nx: u32, grid_ny: u32) -> (r: u64)
    requires
        forall|i: int|
            0 <= i < old(records)@.len() ==> (#[trigger] old(records)@[i]).row < grid_ny
                && old(records)@[i].col < grid_nx,
    ensures
        final(records)@.len() == old(records)@.len(),
        forall|i: int|
            0 <= i < old(records)@.len() ==> #[trigger] final(records)@[i] == if edge_promoted(
                old(records)@,
                i,
            ) {
                LevelPhaseVoxel { phase: PHASE_MIXED, ..old(records)@[i] }
            } else {
                old(records)@[i]
            },
        r == promoted_count(old(records)@, old(records)@.len() as int),
{
    let n = records.len();
    let ghost s = records@;
    let mut index: HashMapWithView<u64, usize> = HashMapWithView::new();
    let mut i: usize = 0;
    while i < n
        invariant
            n == records@.len(),
            s == records@,
            0 <= i <= n,
            forall|k: int|
                0 <= k < s.len() ==> (#[trigger] s[k]).row < grid_ny && s[k].col < grid_nx,
            forall|k: u64|
                #[trigger] index@.contains_key(k) ==> {
                    &&& index@[k] < i
                    &&& (forall|m: int| index@[k] < m < i ==> !same_position(#[trigger] s[m], s[index@[k] as int]))
                    &&& k == position_key(
                        s[index@[k] as int].row as int,
                        s[index@[k] as int].col as int,
                        grid_nx as int,
                    )
                },
            forall|k: int|
                0 <= k < i ==> index@.contains_key(
                    position_key((#[trigger] s[k]).row as int, s[k].col as int, grid_nx as int) as u64,
                ),
        decreases n - i,
    {
        let v = records[i];
        proof {
            assert(s[i as int] == v);
            lemma_key_fits(v.row as int, v.col as int, grid_nx as int);
        }
        let key: u64 = v.row as u64 * grid_nx as u64 + v.col as u64;
        let ghost before = index@;
        index.insert(key, i);
        proof {
            assert forall|k: u64| #[trigger] index@.contains_key(k) implies {
                &&& index@[k] < i + 1
                &&& (forall|m: int| index@[k] < m < i + 1 ==> !same_position(#[trigger] s[m], s[index@[k] as int]))
                &&& k == position_key(
                    s[index@[k] as int].row as int,
                    s[index@[k] as int].col as int,
                    grid_nx as int,
                )
            } by {
                if k != key {
                    let j = before[k];
                    assert(index@[k] == j);
                    if same_position(s[i as int], s[j as int]) {
                        assert(k == key);
                    }
                }
            }
        }
        i = i + 1;
    }
    let mut flags: Vec<bool> = Vec::new();
    let mut count: u64 = 0;
    let mut i: usize = 0;
    while i < n
        invariant
            n == records@.len(),
            s == records@,
            0 <= i <= n,
            forall|k: int|
                0 <= k < s.len() ==> (#[trigger] s[k]).row < grid_ny && s[k].col < grid_nx,
            forall|k: u64|
                #[trigger] index@.contains_key(k) ==> {
                    &&& index@[k] < s.len()
                    &&& last_at_position(s, index@[k] as int)
                    &&& k == position_key(
                        s[index@[k] as int].row as int,
                        s[index@[k] as int].col as int,
                        grid_nx as int,
                    )
                },
            forall|k: int|
                0 <= k < s.len() ==> index@.contains_key(
                    position_key((#[trigger] s[k]).row as int, s[k].col as int, grid_nx as int) as u64,
                ),
            flags@.len() == i,
            forall|k: int| 0 <= k < i ==> #[trigger] flags@[k] == edge_promoted(s, k),
            count == promoted_count(s, i as int),
            count <= i,
        decreases n - i,
    {
        let v = records[i];
        let mut promote = false;
        if v.transition_candidate && (v.phase == PHASE_RAIN || v.phase == PHASE_SNOW) {
            let wanted = if v.phase == PHASE_RAIN {
                PHASE_SNOW
            } else {
                PHASE_RAIN
            };
            let row = v.row as i64;
            let col = v.col as i64;
            let a = neighbor_has_phase(&index, records, row - 1, col - 1, grid_nx, grid_ny, wanted);
            let b = neighbor_has_phase(&index, records, row - 1, col, grid_nx, grid_ny, wanted);
            let c = neighbor_has_phase(&index, records, row - 1, col + 1, grid_nx, grid_ny, wanted);
            let d = neighbor_has_phase(&index, records, row, col - 1, grid_nx, grid_ny, wanted);
            let e = neighbor_has_phase(&index, records, row, col + 1, grid_nx, grid_ny, wanted);
            let f = neighbor_has_phase(&index, records, row + 1, col - 1, grid_nx, grid_ny, wanted);
            let g = neighbor_has_phase(&index, records, row + 1, col, grid_nx, grid_ny, wanted);
            let h = neighbor_has_phase(&index, records, row + 1, col + 1, grid_nx, grid_ny, wanted);
            promote = a || b || c || d || e || f || g || h;
            proof {
                if edge_promoted(s, i as int) {
                    let j = choose|j: int|
                        0 <= j < s.len() && last_at_position(s, j) && adjacent(s[i as int], #[trigger] s[j])
                            && s[j].phase == opposite_phase(s[i as int].phase);
                    assert(s[j] == records@[j]);
                }
            }
        }
        flags.push(promote);
        if promote {
            count = count + 1;
        }
        i = i + 1;
    }
    let mut i: usize = 0;
    while i < n
        invariant
            n == s.len(),
            records@.len() == n,
            flags@.len() == n,
            0 <= i <= n,
            forall|k: int| 0 <= k < n ==> #[trigger] flags@[k] == edge_promoted(s, k),
            forall|k: int|
                0 <= k < n ==> #[trigger] records@[k] == if k < i && edge_promoted(s, k) {
                    LevelPhaseVoxel { phase: PHASE_MIXED, ..s[k] }
                } else {
                    s[k]
                },
        decreases n - i,
    {
        if flags[i] {
            let mut v = records[i];
            v.phase = PHASE_MIXED;
            records.set(i, v);
        }
        i = i + 1;
    }
    count
}

/// The phase that a precipitation-type code of the flag product stands for.
pub open spec fn precip_code_phase(code: int) -> Option<u8> {
    if code == 3 {
        Some(PHASE_SNOW)
    } else if code == 7 {
        Some(PHASE_MIXED)
    } else if code == -3 || code == 0 || code == 1 || code == 6 || code == 10 || code == 91 || code == 96 {
        Some(PHASE_RAIN)
    } else {
        None
    }
}

/// Maps a rounded precipitation-type code to a phase: 3 is snow, 7 is mixed,
/// -3, 0, 1, 6, 10, 91 and 96 are rain, anything else says nothing.
pub fn phase_from_precip_code(code: i32) -> (r: Option<u8>)
    ensures
        r == precip_code_phase(code as int),
{
    match code {
        3 => Some(PHASE_SNOW),
        7 => Some(PHASE_MIXED),
        -3 | 0 | 1 | 6 | 10 | 91 | 96 => Some(PHASE_RAIN),
        _ => None,
    }
}

/// The phase after the precipitation-flag override.
pub open spec fn snow_override_spec(
    selected: u8,
    precip_flag_phase: Option<u8>,
    thermo_phase: u8,
    near_transition: bool,
) -> (u8, bool) {
    if precip_flag_phase == Some(PHASE_SNOW) && selected != PHASE_SNOW && (thermo_phase
        == PHASE_SNOW || near_transition) {
        (PHASE_SNOW, true)
    } else {
        (selected, false)
    }
}

/// Forces snow where the precipitation flag says snow, the fused choice is not
/// snow, and the thermodynamic evidence ranks snow first or is transition-like;
/// the flag of the result tells whether it did.
pub fn apply_precip_snow_override(
    selected: u8,
    precip_flag_phase: Option<u8>,
    thermo_phase: u8,
    near_transition: bool,
) -> (r: (u8, bool))
    ensures
        r == snow_override_spec(selected, precip_flag_phase, thermo_phase, near_transition),
{
    if precip_flag_phase == Some(PHASE_SNOW) && selected != PHASE_SNOW {
        if thermo_phase == PHASE_SNOW || near_transition {
            return (PHASE_SNOW, true);
        }
    }
    (selected, false)
}

/// Where the precipitation flag reads snow (code 3) and the thermodynamic
/// evidence ranks snow first, the resolved phase is snow, whatever the fused
/// choice of dual-polarization and thermodynamic evidence was.
pub proof fn lemma_precip_snow_overrides(selected: u8, near_transition: bool)
    ensures
        snow_override_spec(selected, precip_code_phase(3), PHASE_SNOW, near_transition).0
            == PHASE_SNOW,
{
}

/// Age, in seconds, beyond which dual-polarization fields count as stale.
pub const DUAL_POL_STALE_THRESHOLD_SECONDS: i64 = 300;

/// Dual-polarization evidence is down-weighted when either field is older than
/// the threshold or either misses a level.
pub open spec fn dual_pol_fallback(
    zdr_age_seconds: Option<i64>,
    rhohv_age_seconds: Option<i64>,
    zdr_levels: usize,
    rhohv_levels: usize,
    level_count: usize,
) -> bool {
    (zdr_age_seconds matches Some(a) && a > DUAL_POL_STALE_THRESHOLD_SECONDS) || (rhohv_age_seconds matches Some(
        a,
    ) && a > DUAL_POL_STALE_THRESHOLD_SECONDS) || zdr_levels < level_count || rhohv_levels < level_count
}

/// Whether phase fusion weighs dual-polarization evidence as stale.
pub fn use_dual_pol_fallback(
    zdr_age_seconds: Option<i64>,
    rhohv_age_seconds: Option<i64>,
    zdr_levels: usize,
    rhohv_levels: usize,
    level_count: usize,
) -> (r: bool)
    ensures
        r == dual_pol_fallback(zdr_age_seconds, rhohv_age_seconds, zdr_levels, rhohv_levels, level_count),
{
    let zdr_stale = match zdr_age_seconds {
        Some(a) => a > DUAL_POL_STALE_THRESHOLD_SECONDS,
        None => false,
    };
    let rhohv_stale = match rhohv_age_seconds {
        Some(a) => a > DUAL_POL_STALE_THRESHOLD_SECONDS,
        None => false,
    };
    zdr_stale || rhohv_stale || zdr_levels < level_count || rhohv_levels < level_count
}

} // verus!
