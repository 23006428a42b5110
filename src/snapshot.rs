use vstd::prelude::*;

verus! {

broadcast use vstd::seq_lib::group_filter_ensures;

/// Number of reflectivity levels of the stack.
pub const LEVEL_COUNT: usize = 33;

/// Reflectivity, in tenths of dBz, below which a voxel is not stored.
pub const STORE_MIN_DBZ_TENTHS: i16 = 50;

/// Smallest tile edge that a snapshot uses.
pub const MIN_TILE_SIZE: u16 = 16;

pub const PHASE_RAIN: u8 = 0;
pub const PHASE_MIXED: u8 = 1;
pub const PHASE_SNOW: u8 = 2;

/// Bottom and top height, in feet, of one reflectivity level.
#[derive(Clone, Copy, Debug, PartialEq, Eq, Structural)]
pub struct LevelBounds {
    pub bottom_feet: u16,
    pub top_feet: u16,
}

/// A reflective voxel of the snapshot.
#[derive(Clone, Copy, Debug, PartialEq, Eq, Structural)]
pub struct StoredVoxel {
    pub row: u16,
    pub col: u16,
    pub level_idx: u8,
    pub phase: u8,
    pub dbz_tenths: i16,
}

/// A reflective voxel of one level while its phase is being settled.
#[derive(Clone, Copy, Debug, PartialEq, Eq, Structural)]
pub struct LevelPhaseVoxel {
    pub row: u16,
    pub col: u16,
    pub dbz_tenths: i16,
    pub phase: u8,
    pub transition_candidate: bool,
}

/// The tiled voxel index of a snapshot.
pub struct TiledIndex {
    pub tile_size: u16,
    pub tile_cols: u16,
    pub tile_rows: u16,
    pub tile_offsets: Vec<u32>,
    pub voxels: Vec<StoredVoxel>,
}

pub open spec fn ceil_div(a: int, b: int) -> int
    recommends
        b > 0,
{
    (a + b - 1) / b
}

/// Index of the tile that holds (row, col).
pub open spec fn tile_of(row: int, col: int, tile_size: int, tile_cols: int) -> int {
    (row / tile_size) * tile_cols + col / tile_size
}

pub open spec fn voxel_tile(v: StoredVoxel, tile_size: int, tile_cols: int) -> int {
    tile_of(v.row as int, v.col as int, tile_size, tile_cols)
}

/// A stored voxel as the data model allows it in a grid of `nx` by `ny`.
pub open spec fn voxel_valid(v: StoredVoxel, nx: int, ny: int) -> bool {
    &&& v.dbz_tenths >= STORE_MIN_DBZ_TENTHS
    &&& v.level_idx < LEVEL_COUNT
    &&& v.phase <= PHASE_SNOW
    &&& v.row < ny
    &&& v.col < nx
}

pub open spec fn level_voxel_valid(v: LevelPhaseVoxel, nx: int, ny: int) -> bool {
    &&& v.dbz_tenths >= STORE_MIN_DBZ_TENTHS
    &&& v.phase <= PHASE_SNOW
    &&& v.row < ny
    &&& v.col < nx
}

pub open spec fn stored_of(v: LevelPhaseVoxel, level: int) -> StoredVoxel {
    StoredVoxel {
        row: v.row,
        col: v.col,
        level_idx: level as u8,
        phase: v.phase,
        dbz_tenths: v.dbz_tenths,
    }
}

/// The voxels of the levels in order: level by level, each in its given order.
pub open spec fn level_stream(levels: Seq<Vec<LevelPhaseVoxel>>) -> Seq<StoredVoxel>
    decreases levels.len(),
{
    if levels.len() == 0 {
        Seq::empty()
    } else {
        level_stream(levels.drop_last()) + levels.last()@.map_values(
            |v: LevelPhaseVoxel| stored_of(v, levels.len() - 1),
        )
    }
}

/// The tile layout invariant: one offset per tile plus one, starting at zero,
/// non-decreasing, ending at the number of voxels.
pub open spec fn offsets_wf(offsets: Seq<u32>, tile_count: int, voxel_count: int) -> bool {
    &&& offsets.len() == tile_count + 1
    &&& offsets[0] == 0
    &&& forall|i: int, j: int| 0 <= i <= j < offsets.len() ==> offsets[i] <= offsets[j]
    &&& offsets[tile_count] == voxel_count
}

impl TiledIndex {
    pub open spec fn tile_count(&self) -> int {
        self.tile_cols as int * self.tile_rows as int
    }

    /// The voxels of tile `t`.
    pub open spec fn tile_voxels(&self, t: int) -> Seq<StoredVoxel> {
        self.voxels@.subrange(self.tile_offsets@[t] as int, self.tile_offsets@[t + 1] as int)
    }
}

fn flatten_buckets(buckets: &mut Vec<Vec<StoredVoxel>>, nx: Ghost<int>, ny: Ghost<int>) -> (r: (
    Vec<u32>,
    Vec<StoredVoxel>,
))
    requires
        forall|t: int, j: int|
            0 <= t < old(buckets)@.len() && 0 <= j < old(buckets)@[t]@.len() ==> voxel_valid(
                #[trigger] old(buckets)@[t]@[j],
                nx@,
                ny@,
            ),
        old(buckets)@.len() + 1 <= u32::MAX,
        forall|t: int| 0 <= t < old(buckets)@.len() ==> #[trigger] old(buckets)@[t]@.len() <= u32::MAX,
        flat_len(old(buckets)@, old(buckets)@.len() as int) <= u32::MAX,
    ensures
        offsets_wf(r.0@, old(buckets)@.len() as int, r.1@.len() as int),
        forall|t: int|
            0 <= t < old(buckets)@.len() ==> r.1@.subrange(r.0@[t] as int, r.0@[t + 1] as int)
                == (#[trigger] old(buckets)@[t])@,
        forall|i: int| 0 <= i < r.1@.len() ==> voxel_valid(#[trigger] r.1@[i], nx@, ny@),
{
    let ghost orig = buckets@;
    let mut offsets: Vec<u32> = Vec::new();
    let mut voxels: Vec<StoredVoxel> = Vec::new();
    offsets.push(0);
    let mut t: usize = 0;
    while t < buckets.len()
        invariant
            buckets@.len() == orig.len(),
            orig.len() + 1 <= u32::MAX,
            flat_len(orig, orig.len() as int) <= u32::MAX,
            0 <= t <= orig.len(),
            forall|k: int| t <= k < orig.len() ==> #[trigger] buckets@[k] == orig[k],
            offsets@.len() == t + 1,
            offsets@[0] == 0,
            voxels@.len() == flat_len(orig, t as int),
            offsets@[t as int] == voxels@.len(),
            forall|i: int, j: int| 0 <= i <= j < offsets@.len() ==> offsets@[i] <= offsets@[j],
            forall|k: int|
                0 <= k < t ==> offsets@[k + 1] <= voxels@.len() && voxels@.subrange(
                    offsets@[k] as int,
                    offsets@[k + 1] as int,
                ) == (#[trigger] orig[k])@,
            forall|k: int, j: int|
                0 <= k < orig.len() && 0 <= j < orig[k]@.len() ==> voxel_valid(
                    #[trigger] orig[k]@[j],
                    nx@,
                    ny@,
                ),
            forall|i: int| 0 <= i < voxels@.len() ==> voxel_valid(#[trigger] voxels@[i], nx@, ny@),
        decreases orig.len() - t,
    {
        let ghost before = voxels@;
        let ghost bucket = orig[t as int]@;
        proof {
            lemma_flat_len_step(orig, t as int);
            lemma_flat_len_mono(orig, t as int + 1, orig.len() as int);
        }
        voxels.append(&mut buckets[t]);
        assert(voxels@ == before + bucket);
        offsets.push(voxels.len() as u32);
        proof {
            assert forall|k: int|
                0 <= k < t + 1 implies offsets@[k + 1] <= voxels@.len() && voxels@.subrange(
                offsets@[k] as int,
                offsets@[k + 1] as int,
            ) == (#[trigger] orig[k])@ by {
                if k < t {
                    assert(voxels@.subrange(offsets@[k] as int, offsets@[k + 1] as int) =~= before.subrange(
                        offsets@[k] as int,
                        offsets@[k + 1] as int,
                    ));
                } else {
                    assert(voxels@.subrange(offsets@[k] as int, offsets@[k + 1] as int) =~= bucket);
                }
            }
            assert forall|i: int| 0 <= i < voxels@.len() implies voxel_valid(#[trigger] voxels@[i], nx@, ny@) by {
                if i >= before.len() {
                    assert(voxels@[i] == orig[t as int]@[i - before.len()]);
                } else {
                    assert(voxels@[i] == before[i]);
                }
            }
        }
        t = t + 1;
    }
    (offsets, voxels)
}

/// Total number of voxels of the first `n` buckets.
pub open spec fn flat_len(buckets: Seq<Vec<StoredVoxel>>, n: int) -> int
    decreases n,
{
    if n <= 0 {
        0
    } else {
        flat_len(buckets, n - 1) + buckets[n - 1]@.len()
    }
}

proof fn lemma_flat_len_update(a: Seq<Vec<StoredVoxel>>, t: int, b: Seq<Vec<StoredVoxel>>, n: int)
    requires
        0 <= t < n <= a.len(),
        a.len() == b.len(),
        b[t]@.len() == a[t]@.len() + 1,
        forall|k: int| 0 <= k < a.len() && k != t ==> #[trigger] b[k] == a[k],
    ensures
        flat_len(b, n) == flat_len(a, n) + 1,
    decreases n,
{
    if n - 1 > t {
        lemma_flat_len_update(a, t, b, n - 1);
    } else {
        lemma_flat_len_same(a, b, t);
    }
}

proof fn lemma_flat_len_empty(a: Seq<Vec<StoredVoxel>>, n: int)
    requires
        0 <= n <= a.len(),
        forall|k: int| 0 <= k < a.len() ==> (#[trigger] a[k])@.len() == 0,
    ensures
        flat_len(a, n) == 0,
    decreases n,
{
    if n > 0 {
        lemma_flat_len_empty(a, n - 1);
    }
}

proof fn lemma_flat_len_same(a: Seq<Vec<StoredVoxel>>, b: Seq<Vec<StoredVoxel>>, n: int)
    requires
        0 <= n <= a.len(),
        a.len() == b.len(),
        forall|k: int| 0 <= k < n ==> #[trigger] b[k] == a[k],
    ensures
        flat_len(b, n) == flat_len(a, n),
    decreases n,
{
    if n > 0 {
        lemma_flat_len_same(a, b, n - 1);
    }
}

proof fn lemma_flat_len_bucket(a: Seq<Vec<StoredVoxel>>, t: int, n: int)
    requires
        0 <= t < n <= a.len(),
    ensures
        a[t]@.len() <= flat_len(a, n),
    decreases n,
{
    if n - 1 > t {
        lemma_flat_len_bucket(a, t, n - 1);
    } else {
        lemma_flat_len_mono(a, 0, n - 1);
    }
}

proof fn lemma_level_stream_prefix(levels: Seq<Vec<LevelPhaseVoxel>>, n: int)
    requires
        0 <= n <= levels.len(),
    ensures
        level_stream(levels.subrange(0, n)).len() <= level_stream(levels).len(),
    decreases levels.len() - n,
{
    if n < levels.len() {
        lemma_level_stream_prefix(levels, n + 1);
        let s1 = levels.subrange(0, n + 1);
        assert(s1.drop_last() =~= levels.subrange(0, n));
    } else {
        assert(levels.subrange(0, n) =~= levels);
    }
}

proof fn lemma_flat_len_step(buckets: Seq<Vec<StoredVoxel>>, n: int)
    requires
        0 <= n,
    ensures
        flat_len(buckets, n + 1) == flat_len(buckets, n) + buckets[n]@.len(),
{
}

proof fn lemma_flat_len_mono(buckets: Seq<Vec<StoredVoxel>>, m: int, n: int)
    requires
        0 <= m <= n,
    ensures
        flat_len(buckets, m) <= flat_len(buckets, n),
    decreases n - m,
{
    if m < n {
        lemma_flat_len_mono(buckets, m, n - 1);
    }
}

/// Membership in tile `t`, as a filter predicate.
pub open spec fn in_tile(tile_size: int, tile_cols: int, t: int) -> spec_fn(StoredVoxel) -> bool {
    |v: StoredVoxel| voxel_tile(v, tile_size, tile_cols) == t
}

proof fn lemma_tiles_bounded(n: int, ts: int, tiles: int)
    requires
        0 <= n <= 65536,
        ts >= 16,
        tiles == (n + ts - 1) / ts,
    ensures
        0 <= tiles <= 4096,
{
    assert(0 <= (n + ts - 1) / ts <= 4096) by (nonlinear_arith)
        requires
            0 <= n <= 65536,
            ts >= 16,
    ;
}

proof fn lemma_filter_push(s: Seq<StoredVoxel>, x: StoredVoxel, p: spec_fn(StoredVoxel) -> bool)
    ensures
        s.push(x).filter(p) == if p(x) {
            s.filter(p).push(x)
        } else {
            s.filter(p)
        },
{
    assert(s.push(x).drop_last() =~= s);
    reveal_with_fuel(Seq::filter, 1);
}

proof fn lemma_tile_in_range(row: int, col: int, ny: int, nx: int, ts: int)
    requires
        0 <= row < ny,
        0 <= col < nx,
        ts >= 1,
    ensures
        0 <= tile_of(row, col, ts, ceil_div(nx, ts)) < ceil_div(nx, ts) * ceil_div(ny, ts),
        row / ts < ceil_div(ny, ts),
        col / ts < ceil_div(nx, ts),
{
    let cols = ceil_div(nx, ts);
    let rows = ceil_div(ny, ts);
    assert(row / ts < rows) by (nonlinear_arith)
        requires
            0 <= row < ny,
            ts >= 1,
            rows == (ny + ts - 1) / ts,
    ;
    assert(col / ts < cols) by (nonlinear_arith)
        requires
            0 <= col < nx,
            ts >= 1,
            cols == (nx + ts - 1) / ts,
    ;
    assert(0 <= row / ts) by (nonlinear_arith)
        requires
            0 <= row,
            ts >= 1,
    ;
    assert(0 <= col / ts) by (nonlinear_arith)
        requires
            0 <= col,
            ts >= 1,
    ;
    let r = row / ts;
    let c = col / ts;
    assert(0 <= r * cols + c < cols * rows) by (nonlinear_arith)
        requires
            0 <= r < rows,
            0 <= c < cols,
    ;
}

/// Buckets the voxels of the levels (level `l` is `levels[l]`) by tile and lays
/// the buckets out as one flat vector delimited by prefix offsets. The tile edge
/// is `tile_size`, raised to `MIN_TILE_SIZE`.
pub fn build_tiled_index(levels: &Vec<Vec<LevelPhaseVoxel>>, nx: u32, ny: u32, tile_size: u16) -> (r:
    TiledIndex)
    requires
        levels@.len() <= LEVEL_COUNT,
        nx <= 65536,
        ny <= 65536,
        forall|l: int, i: int|
            0 <= l < levels@.len() && 0 <= i < levels@[l]@.len() ==> level_voxel_valid(
                #[trigger] levels@[l]@[i],
                nx as int,
                ny as int,
            ),
        level_stream(levels@).len() <= u32::MAX,
    ensures
        r.tile_size == if tile_size < MIN_TILE_SIZE { MIN_TILE_SIZE } else { tile_size },
        r.tile_cols == ceil_div(nx as int, r.tile_size as int),
        r.tile_rows == ceil_div(ny as int, r.tile_size as int),
        offsets_wf(r.tile_offsets@, r.tile_count(), r.voxels@.len() as int),
        forall|i: int| 0 <= i < r.voxels@.len() ==> voxel_valid(#[trigger] r.voxels@[i], nx as int, ny as int),
        forall|t: int|
            0 <= t < r.tile_count() ==> #[trigger] r.tile_voxels(t) == level_stream(levels@).filter(
                in_tile(r.tile_size as int, r.tile_cols as int, t),
            ),
{
    let ts: u16 = if tile_size < MIN_TILE_SIZE { MIN_TILE_SIZE } else { tile_size };
    let ts32 = ts as u32;
    let tile_cols32: u32 = (nx + ts32 - 1) / ts32;
    let tile_rows32: u32 = (ny + ts32 - 1) / ts32;
    proof {
        lemma_tiles_bounded(nx as int, ts32 as int, tile_cols32 as int);
        lemma_tiles_bounded(ny as int, ts32 as int, tile_rows32 as int);
    }
    assert(tile_cols32 as int * tile_rows32 as int <= 4096 * 4096) by (nonlinear_arith)
        requires
            tile_cols32 <= 4096,
            tile_rows32 <= 4096,
    ;
    let tile_count: usize = tile_cols32 as usize * tile_rows32 as usize;
    let ghost gts = ts as int;
    let ghost gcols = tile_cols32 as int;
    let mut buckets: Vec<Vec<StoredVoxel>> = Vec::new();
    while buckets.len() < tile_count
        invariant
            buckets@.len() <= tile_count,
            forall|t: int| 0 <= t < buckets@.len() ==> (#[trigger] buckets@[t])@.len() == 0,
        decreases tile_count - buckets@.len(),
    {
        buckets.push(Vec::new());
    }
    let ghost mut stream: Seq<StoredVoxel> = Seq::empty();
    proof {
        lemma_flat_len_empty(buckets@, tile_count as int);
        assert(levels@.subrange(0, 0) =~= Seq::<Vec<LevelPhaseVoxel>>::empty());
        lemma_level_stream_prefix(levels@, 0);
        assert forall|t: int| 0 <= t < tile_count implies (#[trigger] buckets@[t])@ == stream.filter(
            in_tile(gts, gcols, t),
        ) by {
            assert(buckets@[t]@ =~= Seq::<StoredVoxel>::empty());
        }
    }
    let mut l: usize = 0;
    while l < levels.len()
        invariant
            levels@.len() <= LEVEL_COUNT,
            nx <= 65536,
            ny <= 65536,
            forall|l2: int, i: int|
                0 <= l2 < levels@.len() && 0 <= i < levels@[l2]@.len() ==> level_voxel_valid(
                    #[trigger] levels@[l2]@[i],
                    nx as int,
                    ny as int,
                ),
            ts32 == ts as u32,
            ts >= 16,
            gts == ts as int,
            gcols == tile_cols32 as int,
            tile_cols32 == ceil_div(nx as int, ts as int),
            tile_rows32 == ceil_div(ny as int, ts as int),
            tile_cols32 <= 4096,
            tile_rows32 <= 4096,
            tile_count == tile_cols32 * tile_rows32,
            0 <= l <= levels@.len(),
            buckets@.len() == tile_count,
            stream == level_stream(levels@.subrange(0, l as int)),
            flat_len(buckets@, tile_count as int) == stream.len(),
            stream.len() <= level_stream(levels@).len(),
            level_stream(levels@).len() <= u32::MAX,
            forall|t: int|
                0 <= t < tile_count ==> (#[trigger] buckets@[t])@ == stream.filter(in_tile(gts, gcols, t)),
            forall|t: int, j: int|
                0 <= t < tile_count && 0 <= j < buckets@[t]@.len() ==> voxel_valid(
                    #[trigger] buckets@[t]@[j],
                    nx as int,
                    ny as int,
                ),
        decreases levels@.len() - l,
    {
        let level = &levels[l];
        let mut i: usize = 0;
        let ghost base = stream;
        proof {
            lemma_level_stream_prefix(levels@, l as int + 1);
            let s1 = levels@.subrange(0, l + 1);
            assert(s1.drop_last() =~= levels@.subrange(0, l as int));
            assert(s1.last() == levels@[l as int]);
        }
        while i < level.len()
            invariant
                levels@.len() <= LEVEL_COUNT,
                0 <= l < levels@.len(),
                *level == levels@[l as int],
                forall|i2: int|
                    0 <= i2 < level@.len() ==> level_voxel_valid(
                        #[trigger] level@[i2],
                        nx as int,
                        ny as int,
                    ),
                ts32 == ts as u32,
                ts >= 16,
                gts == ts as int,
                gcols == tile_cols32 as int,
                tile_cols32 == ceil_div(nx as int, ts as int),
                tile_rows32 == ceil_div(ny as int, ts as int),
                tile_cols32 <= 4096,
                tile_rows32 <= 4096,
                tile_count == tile_cols32 * tile_rows32,
                0 <= i <= level@.len(),
                buckets@.len() == tile_count,
                flat_len(buckets@, tile_count as int) == stream.len(),
                base.len() + level@.len() <= level_stream(levels@).len(),
                level_stream(levels@).len() <= u32::MAX,
                base.len() + i <= level_stream(levels@).len(),
                stream == base + level@.subrange(0, i as int).map_values(
                    |v: LevelPhaseVoxel| stored_of(v, l as int),
                ),
                forall|t: int|
                    0 <= t < tile_count ==> (#[trigger] buckets@[t])@ == stream.filter(
                        in_tile(gts, gcols, t),
                    ),
                forall|t: int, j: int|
                    0 <= t < tile_count && 0 <= j < buckets@[t]@.len() ==> voxel_valid(
                        #[trigger] buckets@[t]@[j],
                        nx as int,
                        ny as int,
                    ),
            decreases level@.len() - i,
        {
            let v = level[i];
            assert(level_voxel_valid(level@[i as int], nx as int, ny as int));
            let sv = StoredVoxel {
                row: v.row,
                col: v.col,
                level_idx: l as u8,
                phase: v.phase,
                dbz_tenths: v.dbz_tenths,
            };
            proof {
                lemma_tile_in_range(v.row as int, v.col as int, ny as int, nx as int, ts as int);
            }
            let tile_idx: usize = (v.row as u32 / ts32) as usize * tile_cols32 as usize + (v.col as u32
                / ts32) as usize;
            assert(tile_idx == voxel_tile(sv, gts, gcols));
            let ghost old_buckets = buckets@;
            buckets[tile_idx].push(sv);
            proof {
                lemma_flat_len_update(old_buckets, tile_idx as int, buckets@, tile_count as int);
                let ghost old_stream = stream;
                stream = stream.push(sv);
                assert(level@.subrange(0, i + 1).map_values(|v: LevelPhaseVoxel| stored_of(v, l as int))
                    =~= level@.subrange(0, i as int).map_values(
                    |v: LevelPhaseVoxel| stored_of(v, l as int),
                ).push(sv));
                assert forall|t: int| 0 <= t < tile_count implies (#[trigger] buckets@[t])@
                    == stream.filter(in_tile(gts, gcols, t)) by {
                    lemma_filter_push(old_stream, sv, in_tile(gts, gcols, t));
                    if t != tile_idx {
                        assert(buckets@[t] == old_buckets[t]);
                    }
                }
                assert forall|t: int, j: int|
                    0 <= t < tile_count && 0 <= j < buckets@[t]@.len() implies voxel_valid(
                    #[trigger] buckets@[t]@[j],
                    nx as int,
                    ny as int,
                ) by {
                    if t != tile_idx || j < old_buckets[t]@.len() {
                        assert(buckets@[t]@[j] == old_buckets[t]@[j]);
                    }
                }
            }
            i = i + 1;
        }
        proof {
            assert(level@.subrange(0, i as int) =~= level@);
            let s1 = levels@.subrange(0, l + 1);
            assert(s1.drop_last() =~= levels@.subrange(0, l as int));
            assert(s1.last() == levels@[l as int]);
        }
        l = l + 1;
    }
    proof {
        assert(levels@.subrange(0, l as int) =~= levels@);
        assert forall|t: int| 0 <= t < buckets@.len() implies #[trigger] buckets@[t]@.len() <= u32::MAX by {
            lemma_flat_len_bucket(buckets@, t, buckets@.len() as int);
        }
    }
    let ghost nxg = nx as int;
    let ghost nyg = ny as int;
    let ghost filled = buckets@;
    let (tile_offsets, voxels) = flatten_buckets(&mut buckets, Ghost(nxg), Ghost(nyg));
    let r = TiledIndex {
        tile_size: ts,
        tile_cols: tile_cols32 as u16,
        tile_rows: tile_rows32 as u16,
        tile_offsets,
        voxels,
    };
    proof {
        assert(r.tile_count() == tile_count);
        assert forall|t: int| 0 <= t < r.tile_count() implies #[trigger] r.tile_voxels(t)
            == level_stream(levels@).filter(in_tile(r.tile_size as int, r.tile_cols as int, t)) by {
            assert(r.tile_voxels(t) == filled[t]@);
        }
    }
    r
}

/// A rectilinear grid as GRIB2 template 3.0 states it: angles in millionths
/// of a degree, the first longitude in [0, 360) degrees.
#[derive(Clone, Copy, Debug, PartialEq, Eq, Structural)]
pub struct GridDef {
    pub nx: u32,
    pub ny: u32,
    pub la1_microdeg: i32,
    pub lo1_microdeg360: u32,
    pub di_microdeg: u32,
    pub dj_microdeg: u32,
    pub scanning_mode: u8,
}

impl GridDef {
    /// Rows advance northward when bit 6 (0x40) of the scanning mode is set,
    /// southward otherwise.
    pub fn lat_step_microdeg(&self) -> (r: i64)
        ensures
            r == if (self.scanning_mode as int / 64) % 2 == 1 {
                self.dj_microdeg as int
            } else {
                -(self.dj_microdeg as int)
            },
    {
        if (self.scanning_mode / 64) % 2 == 1 {
            self.dj_microdeg as i64
        } else {
            -(self.dj_microdeg as i64)
        }
    }

    /// Columns advance eastward unless bit 7 (0x80) of the scanning mode is set.
    pub fn lon_step_microdeg(&self) -> (r: i64)
        ensures
            r == if self.scanning_mode >= 128 {
                -(self.di_microdeg as int)
            } else {
                self.di_microdeg as int
            },
    {
        if self.scanning_mode >= 128 {
            -(self.di_microdeg as i64)
        } else {
            self.di_microdeg as i64
        }
    }
}

pub open spec fn within_one(a: int, b: int) -> bool {
    -1 <= a - b <= 1
}

/// Two grids agree: same sizes, and origin and steps within a millionth of a
/// degree of each other.
pub open spec fn grids_match(a: GridDef, b: GridDef) -> bool {
    &&& a.nx == b.nx
    &&& a.ny == b.ny
    &&& within_one(a.la1_microdeg as int, b.la1_microdeg as int)
    &&& within_one(a.lo1_microdeg360 as int, b.lo1_microdeg360 as int)
    &&& within_one(a.di_microdeg as int, b.di_microdeg as int)
    &&& within_one(a.dj_microdeg as int, b.dj_microdeg as int)
}

fn close_i64(a: i64, b: i64) -> (r: bool)
    ensures
        r == within_one(a as int, b as int),
{
    let d = a as i128 - b as i128;
    -1 <= d && d <= 1
}

/// Whether two grids agree, as `grids_match` says.
pub fn same_grid(a: &GridDef, b: &GridDef) -> (r: bool)
    ensures
        r == grids_match(*a, *b),
{
    a.nx == b.nx && a.ny == b.ny && close_i64(a.la1_microdeg as i64, b.la1_microdeg as i64) && close_i64(
        a.lo1_microdeg360 as i64,
        b.lo1_microdeg360 as i64,
    ) && close_i64(a.di_microdeg as i64, b.di_microdeg as i64) && close_i64(
        a.dj_microdeg as i64,
        b.dj_microdeg as i64,
    )
}

/// Whether an auxiliary field can stand beside a level: a matching grid and as
/// many values as the level has.
pub fn aux_field_usable(field_grid: &GridDef, field_len: usize, grid: &GridDef, level_len: usize) -> (r: bool)
    ensures
        r == (grids_match(*field_grid, *grid) && field_len == level_len),
{
    same_grid(field_grid, grid) && field_len == level_len
}

/// How phases were settled for a snapshot, and from which auxiliary fields.
#[derive(Debug)]
pub struct PhaseDebugMetadata {
    pub mode: String,
    pub detail: String,
    pub zdr_timestamp: Option<String>,
    pub rhohv_timestamp: Option<String>,
    pub precip_flag_timestamp: Option<String>,
    pub freezing_level_timestamp: Option<String>,
    pub zdr_age_seconds: Option<i64>,
    pub rhohv_age_seconds: Option<i64>,
}

/// One ingested scan: its grid, level bounds and tiled voxels.
pub struct ScanSnapshot {
    pub timestamp: String,
    pub generated_at_ms: i64,
    pub scan_time_ms: i64,
    pub grid: GridDef,
    pub tile_size: u16,
    pub tile_cols: u16,
    pub tile_rows: u16,
    pub level_bounds: Vec<LevelBounds>,
    pub tile_offsets: Vec<u32>,
    pub voxels: Vec<StoredVoxel>,
    pub phase_debug: PhaseDebugMetadata,
}

impl ScanSnapshot {
    pub open spec fn tile_count(&self) -> int {
        self.tile_cols as int * self.tile_rows as int
    }

    /// The snapshot invariant: prefix offsets delimit the tiles, and every voxel
    /// is a valid voxel of the grid.
    pub open spec fn wf(&self) -> bool {
        &&& offsets_wf(self.tile_offsets@, self.tile_count(), self.voxels@.len() as int)
        &&& forall|i: int|
            0 <= i < self.voxels@.len() ==> voxel_valid(
                #[trigger] self.voxels@[i],
                self.grid.nx as int,
                self.grid.ny as int,
            )
    }

    /// Assembles a snapshot around a tiled index built for its grid.
    pub fn assemble(
        timestamp: String,
        generated_at_ms: i64,
        scan_time_ms: i64,
        grid: GridDef,
        level_bounds: Vec<LevelBounds>,
        index: TiledIndex,
        phase_debug: PhaseDebugMetadata,
    ) -> (r: Self)
        requires
            offsets_wf(index.tile_offsets@, index.tile_count(), index.voxels@.len() as int),
            forall|i: int|
                0 <= i < index.voxels@.len() ==> voxel_valid(
                    #[trigger] index.voxels@[i],
                    grid.nx as int,
                    grid.ny as int,
                ),
        ensures
            r.wf(),
            r.voxels@ == index.voxels@,
            r.tile_offsets@ == index.tile_offsets@,
            r.level_bounds@ == level_bounds@,
            r.grid == grid,
            r.tile_size == index.tile_size,
            r.tile_cols == index.tile_cols,
            r.tile_rows == index.tile_rows,
            r.timestamp@ == timestamp@,
            r.generated_at_ms == generated_at_ms,
            r.scan_time_ms == scan_time_ms,
            r.phase_debug == phase_debug,
    {
        ScanSnapshot {
            timestamp,
            generated_at_ms,
            scan_time_ms,
            grid,
            tile_size: index.tile_size,
            tile_cols: index.tile_cols,
            tile_rows: index.tile_rows,
            level_bounds,
            tile_offsets: index.tile_offsets,
            voxels: index.voxels,
            phase_debug,
        }
    }

    /// Checks the snapshot invariant, as for a snapshot read back from disk.
    pub fn is_well_formed(&self) -> (r: bool)
        ensures
            r == self.wf(),
    {
        proof {
            assert(self.tile_cols as int * self.tile_rows as int <= 0xffff * 0xffff) by (nonlinear_arith)
                requires
                    self.tile_cols <= 0xffff,
                    self.tile_rows <= 0xffff,
            ;
            assert(self.tile_cols as int * self.tile_rows as int >= 0) by (nonlinear_arith);
        }
        let tiles: u64 = self.tile_cols as u64 * self.tile_rows as u64;
        let n = self.tile_offsets.len();
        if n as u64 != tiles + 1 {
            return false;
        }
        if self.tile_offsets[0] != 0 {
            return false;
        }
        let mut k: usize = 1;
        while k < n
            invariant
                n == self.tile_offsets@.len(),
                1 <= k <= n,
                forall|i: int, j: int| 0 <= i <= j < k ==> self.tile_offsets@[i] <= self.tile_offsets@[j],
            decreases n - k,
        {
            if self.tile_offsets[k - 1] > self.tile_offsets[k] {
                return false;
            }
            k = k + 1;
        }
        if self.tile_offsets[n - 1] as usize != self.voxels.len() {
            return false;
        }
        let mut i: usize = 0;
        while i < self.voxels.len()
            invariant
                0 <= i <= self.voxels@.len(),
                forall|m: int|
                    0 <= m < i ==> voxel_valid(
                        #[trigger] self.voxels@[m],
                        self.grid.nx as int,
                        self.grid.ny as int,
                    ),
            decreases self.voxels@.len() - i,
        {
            let v = self.voxels[i];
            if !(v.dbz_tenths >= STORE_MIN_DBZ_TENTHS && (v.level_idx as usize) < LEVEL_COUNT && v.phase
                <= PHASE_SNOW && (v.row as u32) < self.grid.ny && (v.col as u32) < self.grid.nx) {
                return false;
            }
            i = i + 1;
        }
        true
    }
}

/// A grid cell of a level whose reflectivity is worth storing.
#[derive(Clone, Copy, Debug, PartialEq, Eq, Structural)]
pub struct ReflectiveCell {
    pub row: u16,
    pub col: u16,
    pub dbz_tenths: i16,
}

/// The reflective cells among the first `n` values of a row-major level, in
/// that order.
pub open spec fn reflective_prefix(dbz: Seq<i16>, nx: int, n: int) -> Seq<ReflectiveCell>
    decreases n,
{
    if n <= 0 {
        Seq::empty()
    } else {
        let prev = reflective_prefix(dbz, nx, n - 1);
        let i = n - 1;
        if dbz[i] >= STORE_MIN_DBZ_TENTHS {
            prev.push(ReflectiveCell { row: (i / nx) as u16, col: (i % nx) as u16, dbz_tenths: dbz[i] })
        } else {
            prev
        }
    }
}

/// The cells of a row-major level of `nx` by `ny` values that reach
/// `STORE_MIN_DBZ_TENTHS`, row by row; a missing value is `i16::MIN`.
pub fn reflective_cells(dbz_tenths: &Vec<i16>, nx: u32, ny: u32) -> (r: Vec<ReflectiveCell>)
    requires
        dbz_tenths@.len() == nx as int * ny as int,
        nx <= 65536,
        ny <= 65536,
    ensures
        r@ == reflective_prefix(dbz_tenths@, nx as int, dbz_tenths@.len() as int),
        forall|k: int|
            0 <= k < r@.len() ==> (#[trigger] r@[k]).row < ny && r@[k].col < nx && r@[k].dbz_tenths
                >= STORE_MIN_DBZ_TENTHS,
{
    let mut out: Vec<ReflectiveCell> = Vec::new();
    let n = dbz_tenths.len();
    let mut i: usize = 0;
    while i < n
        invariant
            n == dbz_tenths@.len(),
            n == nx as int * ny as int,
            nx <= 65536,
            ny <= 65536,
            0 <= i <= n,
            out@ == reflective_prefix(dbz_tenths@, nx as int, i as int),
            forall|k: int|
                0 <= k < out@.len() ==> (#[trigger] out@[k]).row < ny && out@[k].col < nx && out@[k].dbz_tenths
                    >= STORE_MIN_DBZ_TENTHS,
        decreases n - i,
    {
        let value = dbz_tenths[i];
        if value >= STORE_MIN_DBZ_TENTHS {
            proof {
                let ii = i as int;
                let nxi = nx as int;
                let nyi = ny as int;
                assert(nxi > 0) by (nonlinear_arith)
                    requires
                        0 <= ii < nxi * nyi,
                        nxi >= 0,
                        nyi >= 0,
                ;
                assert(ii / nxi < nyi && ii % nxi < nxi && 0 <= ii / nxi && 0 <= ii % nxi) by (nonlinear_arith)
                    requires
                        0 <= ii < nxi * nyi,
                        nxi > 0,
                ;
            }
            let cell = ReflectiveCell {
                row: (i / nx as usize) as u16,
                col: (i % nx as usize) as u16,
                dbz_tenths: value,
            };
            out.push(cell);
        }
        i = i + 1;
    }
    out
}

} // verus!
