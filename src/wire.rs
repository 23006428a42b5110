use vstd::prelude::*;

use crate::bytes::{
    le16, le32, le64, push_i16_le, push_i32_le, push_i64_le, push_u16_le, push_u32_le,
    u32_le_at, unsigned_of,
};
use crate::merge::DBZ_QUANT_STEP_TENTHS;

verus! {

/// Wire version of the per-voxel volume.
pub const WIRE_V1_VERSION: u16 = 1;

/// Wire version of the merged brick volume.
pub const WIRE_V2_VERSION: u16 = 2;

/// Size of the common header.
pub const WIRE_HEADER_BYTES: u16 = 64;

/// Size of a per-voxel record: twelve bytes of fields and four reserved bytes.
pub const WIRE_V1_RECORD_BYTES: u16 = 16;

/// Size of a brick record.
pub const WIRE_V2_RECORD_BYTES: u16 = 20;

/// The header fields that do not depend on the records.
#[derive(Clone, Copy, Debug, PartialEq, Eq, Structural)]
pub struct WireHeader {
    pub generated_at_ms: i64,
    pub scan_time_ms: i64,
    pub footprint_x_milli: u16,
    pub footprint_y_milli: u16,
    pub min_dbz_tenths: i16,
    pub max_range_tenths_nm: u16,
    pub tile_size: u16,
    pub origin_lat_microdeg: i32,
    pub origin_lon_microdeg: i32,
}

/// A per-voxel record: the projected position in hundredths of a nautical mile.
#[derive(Clone, Copy, Debug, PartialEq, Eq, Structural)]
pub struct VoxelRecord {
    pub x_centi_nm: i16,
    pub z_centi_nm: i16,
    pub bottom_feet: u16,
    pub top_feet: u16,
    pub dbz_tenths: i16,
    pub phase: u8,
    pub level_idx: u8,
}

/// A brick record: the projected centre of the footprint in hundredths of a
/// nautical mile, and the spans in columns, rows and levels.
#[derive(Clone, Copy, Debug, PartialEq, Eq, Structural)]
pub struct BrickRecord {
    pub x_centi_nm: i16,
    pub z_centi_nm: i16,
    pub bottom_feet: u16,
    pub top_feet: u16,
    pub dbz_tenths: i16,
    pub phase: u8,
    pub level_start: u8,
    pub span_x: u16,
    pub span_y: u16,
    pub span_z: u16,
}

pub open spec fn s16(v: i16) -> Seq<u8> {
    le16(unsigned_of(v as int, 0x1_0000))
}

pub open spec fn s32(v: i32) -> Seq<u8> {
    le32(unsigned_of(v as int, 0x1_0000_0000))
}

pub open spec fn s64(v: i64) -> Seq<u8> {
    le64(unsigned_of(v as int, 0x1_0000_0000_0000_0000))
}

pub open spec fn magic_bytes() -> Seq<u8> {
    seq![0x41u8, 0x56, 0x4D, 0x52]
}

/// Header bytes 0 to 19: magic, version, header size, the two counts, the
/// level count and the record size.
pub open spec fn header_ids(
    version: u16,
    record_bytes: u16,
    level_count: u16,
    first_count: u32,
    second_count: u32,
) -> Seq<u8> {
    magic_bytes() + le16(version as nat) + le16(WIRE_HEADER_BYTES as nat) + le32(first_count as nat)
        + le32(second_count as nat) + le16(level_count as nat) + le16(record_bytes as nat)
}

/// Header bytes 20 to 35: the generation and scan times.
#[verifier::opaque]
pub open spec fn header_times(h: WireHeader) -> Seq<u8> {
    s64(h.generated_at_ms) + s64(h.scan_time_ms)
}

/// Header bytes 36 to 63: footprint, query, tiling, encoding hint, origin, and
/// eight reserved bytes.
#[verifier::opaque]
pub open spec fn header_query(h: WireHeader, encoding_hint: u16) -> Seq<u8> {
    le16(h.footprint_x_milli as nat) + le16(h.footprint_y_milli as nat) + s16(h.min_dbz_tenths) + le16(
        h.max_range_tenths_nm as nat,
    ) + le16(h.tile_size as nat) + le16(encoding_hint as nat) + s32(h.origin_lat_microdeg) + s32(
        h.origin_lon_microdeg,
    ) + Seq::new(8, |i: int| 0u8)
}

/// The 64 header bytes.
pub open spec fn header_bytes(
    h: WireHeader,
    version: u16,
    record_bytes: u16,
    encoding_hint: u16,
    level_count: u16,
    first_count: u32,
    second_count: u32,
) -> Seq<u8> {
    header_ids(version, record_bytes, level_count, first_count, second_count) + header_times(h)
        + header_query(h, encoding_hint)
}

fn push_header_ids(
    out: &mut Vec<u8>,
    version: u16,
    record_bytes: u16,
    level_count: u16,
    first_count: u32,
    second_count: u32,
)
    ensures
        final(out)@ == old(out)@ + header_ids(version, record_bytes, level_count, first_count, second_count),
{
    out.push(0x41);
    out.push(0x56);
    out.push(0x4D);
    out.push(0x52);
    assert(out@ =~= old(out)@ + magic_bytes());
    push_u16_le(out, version);
    push_u16_le(out, WIRE_HEADER_BYTES);
    push_u32_le(out, first_count);
    push_u32_le(out, second_count);
    push_u16_le(out, level_count);
    push_u16_le(out, record_bytes);
    assert(out@ =~= old(out)@ + header_ids(version, record_bytes, level_count, first_count, second_count));
}

fn push_header_times(out: &mut Vec<u8>, h: &WireHeader)
    ensures
        final(out)@ == old(out)@ + header_times(*h),
{
    push_i64_le(out, h.generated_at_ms);
    push_i64_le(out, h.scan_time_ms);
    reveal(header_times);
    assert(out@ =~= old(out)@ + header_times(*h));
}

fn push_header_query(out: &mut Vec<u8>, h: &WireHeader, encoding_hint: u16)
    ensures
        final(out)@ == old(out)@ + header_query(*h, encoding_hint),
{
    push_u16_le(out, h.footprint_x_milli);
    push_u16_le(out, h.footprint_y_milli);
    push_i16_le(out, h.min_dbz_tenths);
    push_u16_le(out, h.max_range_tenths_nm);
    push_u16_le(out, h.tile_size);
    push_u16_le(out, encoding_hint);
    push_i32_le(out, h.origin_lat_microdeg);
    push_i32_le(out, h.origin_lon_microdeg);
    let ghost before = out@;
    push_u32_le(out, 0);
    push_u32_le(out, 0);
    assert(le32(0) =~= Seq::new(4, |i: int| 0u8));
    assert(out@ =~= before + Seq::new(8, |i: int| 0u8));
    reveal(header_query);
    assert(out@ =~= old(out)@ + header_query(*h, encoding_hint));
}

/// Writes the 64-byte header.
pub fn encode_wire_header(
    h: &WireHeader,
    version: u16,
    record_bytes: u16,
    encoding_hint: u16,
    level_count: u16,
    first_count: u32,
    second_count: u32,
) -> (r: Vec<u8>)
    ensures
        r@ == header_bytes(*h, version, record_bytes, encoding_hint, level_count, first_count, second_count),
{
    let mut out: Vec<u8> = Vec::new();
    push_header_ids(&mut out, version, record_bytes, level_count, first_count, second_count);
    push_header_times(&mut out, h);
    push_header_query(&mut out, h, encoding_hint);
    assert(out@ =~= header_bytes(*h, version, record_bytes, encoding_hint, level_count, first_count, second_count));
    out
}

/// The bytes of a per-voxel record.
pub open spec fn voxel_record_bytes(r: VoxelRecord) -> Seq<u8> {
    s16(r.x_centi_nm) + s16(r.z_centi_nm) + le16(r.bottom_feet as nat) + le16(r.top_feet as nat) + s16(
        r.dbz_tenths,
    ) + seq![r.phase, r.level_idx] + Seq::new(4, |i: int| 0u8)
}

/// The bytes of a brick record.
pub open spec fn brick_record_bytes(r: BrickRecord) -> Seq<u8> {
    s16(r.x_centi_nm) + s16(r.z_centi_nm) + le16(r.bottom_feet as nat) + le16(r.top_feet as nat) + s16(
        r.dbz_tenths,
    ) + seq![r.phase, r.level_start] + le16(r.span_x as nat) + le16(r.span_y as nat) + le16(
        r.span_z as nat,
    ) + le16(0)
}

pub fn push_voxel_record(out: &mut Vec<u8>, r: &VoxelRecord)
    ensures
        final(out)@ == old(out)@ + voxel_record_bytes(*r),
{
    push_i16_le(out, r.x_centi_nm);
    push_i16_le(out, r.z_centi_nm);
    push_u16_le(out, r.bottom_feet);
    push_u16_le(out, r.top_feet);
    push_i16_le(out, r.dbz_tenths);
    out.push(r.phase);
    out.push(r.level_idx);
    push_u32_le(out, 0);
    proof {
        assert(le32(0) =~= Seq::new(4, |i: int| 0u8));
    }
    assert(final(out)@ =~= old(out)@ + voxel_record_bytes(*r));
}

pub fn push_brick_record(out: &mut Vec<u8>, r: &BrickRecord)
    ensures
        final(out)@ == old(out)@ + brick_record_bytes(*r),
{
    push_i16_le(out, r.x_centi_nm);
    push_i16_le(out, r.z_centi_nm);
    push_u16_le(out, r.bottom_feet);
    push_u16_le(out, r.top_feet);
    push_i16_le(out, r.dbz_tenths);
    out.push(r.phase);
    out.push(r.level_start);
    push_u16_le(out, r.span_x);
    push_u16_le(out, r.span_y);
    push_u16_le(out, r.span_z);
    push_u16_le(out, 0);
    assert(final(out)@ =~= old(out)@ + brick_record_bytes(*r));
}

/// Concatenation of `f` over `s`.
pub open spec fn concat_map<T>(s: Seq<T>, f: spec_fn(T) -> Seq<u8>) -> Seq<u8>
    decreases s.len(),
{
    if s.len() == 0 {
        Seq::empty()
    } else {
        concat_map(s.drop_last(), f) + f(s.last())
    }
}

pub open spec fn count_bytes(c: u32) -> Seq<u8> {
    le32(c as nat)
}

/// The per-level count table: each count in four little-endian bytes.
pub open spec fn counts_table(s: Seq<u32>) -> Seq<u8>
    decreases s.len(),
{
    if s.len() == 0 {
        Seq::empty()
    } else {
        counts_table(s.drop_last()) + count_bytes(s.last())
    }
}

/// Sum of the counts.
pub open spec fn counts_sum(s: Seq<u32>) -> int
    decreases s.len(),
{
    if s.len() == 0 {
        0
    } else {
        counts_sum(s.drop_last()) + s.last()
    }
}

fn push_all_counts(out: &mut Vec<u8>, counts: &Vec<u32>)
    ensures
        final(out)@ == old(out)@ + counts_table(counts@),
{
    let mut i: usize = 0;
    while i < counts.len()
        invariant
            0 <= i <= counts@.len(),
            out@ == old(out)@ + counts_table(counts@.subrange(0, i as int)),
        decreases counts@.len() - i,
    {
        let ghost before = out@;
        push_u32_le(out, counts[i]);
        proof {
            let sub = counts@.subrange(0, i + 1);
            assert(sub.drop_last() =~= counts@.subrange(0, i as int));
        }
        i = i + 1;
        assert(out@ =~= old(out)@ + counts_table(counts@.subrange(0, i as int)));
    }
    assert(counts@.subrange(0, i as int) =~= counts@);
}

/// The per-voxel volume: header, per-level voxel counts, then the records.
pub open spec fn volume_v1_bytes(h: WireHeader, counts: Seq<u32>, records: Seq<VoxelRecord>) -> Seq<u8> {
    header_bytes(h, WIRE_V1_VERSION, WIRE_V1_RECORD_BYTES, 0, counts.len() as u16, records.len() as u32, 0)
        + counts_table(counts) + concat_map(
        records,
        |r: VoxelRecord| voxel_record_bytes(r),
    )
}

/// The brick volume: header, per-level source voxel counts, then the bricks.
pub open spec fn volume_v2_bytes(h: WireHeader, counts: Seq<u32>, records: Seq<BrickRecord>) -> Seq<u8> {
    header_bytes(
        h,
        WIRE_V2_VERSION,
        WIRE_V2_RECORD_BYTES,
        DBZ_QUANT_STEP_TENTHS as u16,
        counts.len() as u16,
        counts_sum(counts) as u32,
        records.len() as u32,
    ) + counts_table(counts) + concat_map(
        records,
        |r: BrickRecord| brick_record_bytes(r),
    )
}

fn sum_counts(counts: &Vec<u32>) -> (r: u32)
    requires
        counts_sum(counts@) <= u32::MAX,
        forall|i: int| 0 <= i < counts@.len() ==> #[trigger] counts@[i] <= u32::MAX,
    ensures
        r == counts_sum(counts@),
{
    let mut total: u64 = 0;
    let mut i: usize = 0;
    while i < counts.len()
        invariant
            0 <= i <= counts@.len(),
            counts_sum(counts@) <= u32::MAX,
            total == counts_sum(counts@.subrange(0, i as int)),
            total <= u32::MAX,
        decreases counts@.len() - i,
    {
        proof {
            let sub = counts@.subrange(0, i + 1);
            assert(sub.drop_last() =~= counts@.subrange(0, i as int));
            lemma_counts_sum_prefix(counts@, i + 1);
        }
        total = total + counts[i] as u64;
        i = i + 1;
    }
    assert(counts@.subrange(0, i as int) =~= counts@);
    total as u32
}

proof fn lemma_counts_sum_prefix(s: Seq<u32>, n: int)
    requires
        0 <= n <= s.len(),
    ensures
        counts_sum(s.subrange(0, n)) <= counts_sum(s),
    decreases s.len() - n,
{
    if n < s.len() {
        lemma_counts_sum_prefix(s, n + 1);
        assert(s.subrange(0, n + 1).drop_last() =~= s.subrange(0, n));
    } else {
        assert(s.subrange(0, n) =~= s);
    }
}

/// Writes the per-voxel volume.
pub fn encode_volume_v1(h: &WireHeader, counts: &Vec<u32>, records: &Vec<VoxelRecord>) -> (r: Vec<u8>)
    requires
        counts@.len() <= u16::MAX,
        records@.len() <= u32::MAX,
    ensures
        r@ == volume_v1_bytes(*h, counts@, records@),
{
    let mut out = encode_wire_header(
        h,
        WIRE_V1_VERSION,
        WIRE_V1_RECORD_BYTES,
        0,
        counts.len() as u16,
        records.len() as u32,
        0,
    );
    push_all_counts(&mut out, counts);
    let ghost head = out@;
    let mut i: usize = 0;
    while i < records.len()
        invariant
            0 <= i <= records@.len(),
            out@ == head + concat_map(records@.subrange(0, i as int), |r: VoxelRecord| voxel_record_bytes(r)),
        decreases records@.len() - i,
    {
        push_voxel_record(&mut out, &records[i]);
        proof {
            let sub = records@.subrange(0, i + 1);
            assert(sub.drop_last() =~= records@.subrange(0, i as int));
        }
        i = i + 1;
        assert(out@ =~= head + concat_map(records@.subrange(0, i as int), |r: VoxelRecord| voxel_record_bytes(r)));
    }
    assert(records@.subrange(0, i as int) =~= records@);
    assert(out@ =~= volume_v1_bytes(*h, counts@, records@));
    out
}

/// Writes the brick volume; its source count is the sum of the per-level counts.
pub fn encode_volume_v2(h: &WireHeader, counts: &Vec<u32>, records: &Vec<BrickRecord>) -> (r: Vec<u8>)
    requires
        counts@.len() <= u16::MAX,
        records@.len() <= u32::MAX,
        counts_sum(counts@) <= u32::MAX,
    ensures
        r@ == volume_v2_bytes(*h, counts@, records@),
{
    let total = sum_counts(counts);
    let mut out = encode_wire_header(
        h,
        WIRE_V2_VERSION,
        WIRE_V2_RECORD_BYTES,
        DBZ_QUANT_STEP_TENTHS as u16,
        counts.len() as u16,
        total,
        records.len() as u32,
    );
    push_all_counts(&mut out, counts);
    let ghost head = out@;
    let mut i: usize = 0;
    while i < records.len()
        invariant
            0 <= i <= records@.len(),
            out@ == head + concat_map(records@.subrange(0, i as int), |r: BrickRecord| brick_record_bytes(r)),
        decreases records@.len() - i,
    {
        push_brick_record(&mut out, &records[i]);
        proof {
            let sub = records@.subrange(0, i + 1);
            assert(sub.drop_last() =~= records@.subrange(0, i as int));
        }
        i = i + 1;
        assert(out@ =~= head + concat_map(records@.subrange(0, i as int), |r: BrickRecord| brick_record_bytes(r)));
    }
    assert(records@.subrange(0, i as int) =~= records@);
    assert(out@ =~= volume_v2_bytes(*h, counts@, records@));
    out
}

proof fn lemma_le32_read(v: nat)
    requires
        v <= u32::MAX,
    ensures
        le32(v).len() == 4,
        u32_le_at(le32(v), 0) == v,
{
}

proof fn lemma_counts_layout(counts: Seq<u32>)
    ensures
        counts_table(counts).len() == 4 * counts.len(),
        forall|l: int, j: int|
            0 <= l < counts.len() && 0 <= j < 4 ==> #[trigger] counts_table(counts)[4 * l + j]
                == count_bytes(counts[l])[j],
    decreases counts.len(),
{
    if counts.len() > 0 {
        let init = counts.drop_last();
        lemma_counts_layout(init);
        let whole = counts_table(counts);
        let front = counts_table(init);
        assert(whole == front + count_bytes(counts.last()));
        assert forall|l: int, j: int| 0 <= l < counts.len() && 0 <= j < 4 implies #[trigger] whole[4 * l
            + j] == count_bytes(counts[l])[j] by {
            if l < counts.len() - 1 {
                assert(front[4 * l + j] == count_bytes(init[l])[j]);
                assert(init[l] == counts[l]);
            }
        }
    }
}

/// In a brick volume the source voxel count of the header (bytes 8 to 11) is
/// the sum of the per-level counts of the table after the header, and each of
/// those reads back as the level's count.
pub proof fn lemma_v2_source_count_is_level_sum(h: WireHeader, counts: Seq<u32>, records: Seq<BrickRecord>)
    requires
        counts.len() <= u16::MAX,
        counts_sum(counts) <= u32::MAX,
    ensures
        ({
            let b = volume_v2_bytes(h, counts, records);
            &&& u32_le_at(b, 8) == counts_sum(counts)
            &&& forall|l: int| 0 <= l < counts.len() ==> u32_le_at(b, 64 + 4 * l) == #[trigger] counts[l]
        }),
{
    let b = volume_v2_bytes(h, counts, records);
    let ids = header_ids(
        WIRE_V2_VERSION,
        WIRE_V2_RECORD_BYTES,
        counts.len() as u16,
        counts_sum(counts) as u32,
        records.len() as u32,
    );
    let times = header_times(h);
    let query = header_query(h, DBZ_QUANT_STEP_TENTHS as u16);
    let table = counts_table(counts);
    let recs = concat_map(records, |r: BrickRecord| brick_record_bytes(r));
    lemma_header_part_lengths(h, DBZ_QUANT_STEP_TENTHS as u16);
    lemma_counts_sum_nonneg(counts);
    assert(ids.len() == 20);
    let head = ids + times + query;
    assert(head.len() == 64);
    assert(b == head + table + recs);
    lemma_le32_read(counts_sum(counts) as nat);
    assert(ids.subrange(8, 12) =~= le32(counts_sum(counts) as nat));
    assert forall|i: int| 8 <= i < 12 implies b[i] == ids[i] by {
        assert((head + table)[i] == head[i]);
        assert((ids + times)[i] == ids[i]);
    }
    lemma_counts_layout(counts);
    assert forall|l: int| 0 <= l < counts.len() implies u32_le_at(b, 64 + 4 * l) == #[trigger] counts[l] by {
        lemma_le32_read(counts[l] as nat);
        assert forall|j: int| 0 <= j < 4 implies b[64 + 4 * l + j] == count_bytes(counts[l])[j] by {
            assert(table[4 * l + j] == count_bytes(counts[l])[j]);
            assert((head + table)[64 + 4 * l + j] == table[4 * l + j]);
        }
        assert(b[64 + 4 * l + 0] == count_bytes(counts[l])[0]);
        assert(b[64 + 4 * l + 1] == count_bytes(counts[l])[1]);
        assert(b[64 + 4 * l + 2] == count_bytes(counts[l])[2]);
        assert(b[64 + 4 * l + 3] == count_bytes(counts[l])[3]);
    }
}

proof fn lemma_counts_sum_nonneg(s: Seq<u32>)
    ensures
        counts_sum(s) >= 0,
    decreases s.len(),
{
    if s.len() > 0 {
        lemma_counts_sum_nonneg(s.drop_last());
    }
}

proof fn lemma_header_part_lengths(h: WireHeader, encoding_hint: u16)
    ensures
        header_times(h).len() == 16,
        header_query(h, encoding_hint).len() == 28,
{
    reveal(header_times);
    reveal(header_query);
}

} // verus!
