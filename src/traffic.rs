use vstd::prelude::*;
use vstd::hash_map::StringHashMap;
use vstd::string::{StrSliceExecFns, StringExecFns};

use crate::codec::{zstd_decode, zstd_decoded};
use crate::bytes::{
    read_i16_le, read_i32_le, read_u16_le, read_u32_le, signed16, signed32, u16_le_at, u32_le_at,
};

verus! {

/// Smallest record stride of a binCraft buffer.
pub const BINCRAFT_MIN_STRIDE_BYTES: u32 = 112;

/// Largest record stride of a binCraft buffer.
pub const BINCRAFT_MAX_STRIDE_BYTES: u32 = 256;

/// First buffer version whose last-seen fields are 32-bit.
pub const BINCRAFT_S32_SEEN_VERSION: u32 = 20240218;

/// An aircraft of the traffic feed. Angles are in millionths of a degree, the
/// track in ninetieths of a degree (in [0, 32400)), speeds in tenths of a knot
/// and ages in tenths of a second.
pub struct TrafficAircraft {
    pub hex: String,
    pub flight: Option<String>,
    pub lat_microdeg: i32,
    pub lon_microdeg: i32,
    pub is_on_ground: bool,
    pub altitude_feet: Option<i32>,
    pub ground_speed_tenths_kt: Option<i32>,
    pub track_ninetieths_deg: Option<i32>,
    pub last_seen_tenths_s: Option<i32>,
}

/// Why a binCraft buffer was refused.
#[derive(Clone, Copy, Debug, PartialEq, Eq, Structural)]
pub enum BincraftError {
    /// The zstd frame did not decode.
    Decompress,
    /// The buffer is shorter than its header.
    TooSmall,
    /// The stride is outside [112, 256] or not a multiple of four.
    BadStride(u32),
}

pub uninterp spec fn utf8_lossy_of(bytes: Seq<u8>) -> Seq<char>;

pub uninterp spec fn trimmed_of(text: Seq<char>) -> Seq<char>;

/// Relies on `String::from_utf8_lossy`: the text of the bytes, invalid
/// sequences replaced.
#[verifier::external_body]
fn lossy_text(bytes: &[u8]) -> (r: String)
    ensures
        r@ == utf8_lossy_of(bytes@),
{
    String::from_utf8_lossy(bytes).into_owned()
}

/// Relies on `str::trim`: the text without leading and trailing whitespace.
#[verifier::external_body]
pub(crate) fn trim_text(text: &str) -> (r: String)
    ensures
        r@ == trimmed_of(text@),
{
    text.trim().to_string()
}

pub open spec fn hex_digit_chars() -> Seq<char> {
    seq!['0', '1', '2', '3', '4', '5', '6', '7', '8', '9', 'a', 'b', 'c', 'd', 'e', 'f']
}

/// Six lower-case hexadecimal digits of a 24-bit value.
pub open spec fn hex6(v: int) -> Seq<char> {
    seq![
        hex_digit_chars()[(v / 0x10_0000) % 16],
        hex_digit_chars()[(v / 0x1_0000) % 16],
        hex_digit_chars()[(v / 0x1000) % 16],
        hex_digit_chars()[(v / 0x100) % 16],
        hex_digit_chars()[(v / 0x10) % 16],
        hex_digit_chars()[v % 16],
    ]
}

/// The hex code of an aircraft address word: the low 24 bits in six digits,
/// after `~` when bit 24 marks a non-ICAO address.
pub open spec fn hex_code(raw: int) -> Seq<char> {
    let base = raw % 0x100_0000;
    if (raw / 0x100_0000) % 2 == 1 {
        seq!['~'] + hex6(base)
    } else {
        hex6(base)
    }
}

pub(crate) fn hex_digit(d: u32) -> (r: &'static str)
    requires
        d < 16,
    ensures
        r@ == seq![hex_digit_chars()[d as int]],
{
    proof {
        reveal_strlit("0");
        reveal_strlit("1");
        reveal_strlit("2");
        reveal_strlit("3");
        reveal_strlit("4");
        reveal_strlit("5");
        reveal_strlit("6");
        reveal_strlit("7");
        reveal_strlit("8");
        reveal_strlit("9");
        reveal_strlit("a");
        reveal_strlit("b");
        reveal_strlit("c");
        reveal_strlit("d");
        reveal_strlit("e");
        reveal_strlit("f");
    }
    let r = match d {
        0 => "0",
        1 => "1",
        2 => "2",
        3 => "3",
        4 => "4",
        5 => "5",
        6 => "6",
        7 => "7",
        8 => "8",
        9 => "9",
        10 => "a",
        11 => "b",
        12 => "c",
        13 => "d",
        14 => "e",
        _ => "f",
    };
    assert(r@ =~= seq![hex_digit_chars()[d as int]]);
    r
}

/// Formats the hex code of an address word.
pub fn format_hex_code(raw: u32) -> (r: String)
    ensures
        r@ == hex_code(raw as int),
{
    let base = raw % 0x100_0000;
    let mut s = String::new();
    if (raw / 0x100_0000) % 2 == 1 {
        proof {
            reveal_strlit("~");
        }
        s.append("~");
    }
    let ghost prefix = s@;
    s.append(hex_digit((base / 0x10_0000) % 16));
    s.append(hex_digit((base / 0x1_0000) % 16));
    s.append(hex_digit((base / 0x1000) % 16));
    s.append(hex_digit((base / 0x100) % 16));
    s.append(hex_digit((base / 0x10) % 16));
    s.append(hex_digit(base % 16));
    assert(s@ =~= prefix + hex6(base as int));
    proof {
        if (raw / 0x100_0000) % 2 == 1 {
            assert(prefix =~= seq!['~']);
        } else {
            assert(prefix =~= Seq::<char>::empty());
        }
    }
    s
}

/// A callsign as the feed reports it: the trimmed text, absent when empty.
pub open spec fn callsign_of(text: Seq<char>) -> Option<Seq<char>> {
    let t = trimmed_of(text);
    if t.len() == 0 {
        None
    } else {
        Some(t)
    }
}

/// Trims a callsign; an empty or absent one is no callsign.
pub fn normalize_callsign(value: Option<&str>) -> (r: Option<String>)
    ensures
        value is None ==> r is None,
        value matches Some(v) ==> match callsign_of(v@) {
            Some(t) => r matches Some(s) && s@ == t,
            None => r is None,
        },
{
    match value {
        None => None,
        Some(v) => {
            let t = trim_text(v);
            if t.as_str().unicode_len() == 0 {
                None
            } else {
                Some(t)
            }
        },
    }
}

/// The bytes of the callsign field of the record at `off`: bytes 78 to 85, up
/// to the first zero byte.
pub open spec fn flight_bytes(data: Seq<u8>, off: int) -> Seq<u8> {
    let field = data.subrange(off + 78, off + 86);
    let n = first_zero(field, 0);
    field.subrange(0, n)
}

/// Index of the first zero byte of `s` at or after `i`, or its length.
pub open spec fn first_zero(s: Seq<u8>, i: int) -> int
    decreases s.len() - i,
{
    if i >= s.len() || i < 0 {
        if i < 0 {
            0
        } else {
            s.len() as int
        }
    } else if s[i] == 0 {
        i
    } else {
        first_zero(s, i + 1)
    }
}

proof fn lemma_first_zero_bounds(s: Seq<u8>, i: int)
    requires
        0 <= i <= s.len(),
    ensures
        i <= first_zero(s, i) <= s.len(),
    decreases s.len() - i,
{
    if i < s.len() && s[i] != 0 {
        lemma_first_zero_bounds(s, i + 1);
    }
}

/// The callsign of the record at `off`.
pub fn decode_flight(data: &Vec<u8>, off: usize) -> (r: Option<String>)
    requires
        off + 86 <= data.len(),
    ensures
        match callsign_of(utf8_lossy_of(flight_bytes(data@, off as int))) {
            Some(t) => r matches Some(s) && s@ == t,
            None => r is None,
        },
{
    let ghost field = data@.subrange(off + 78, off + 86);
    let base = off + 78;
    let mut bytes: Vec<u8> = Vec::new();
    let mut i: usize = 0;
    while i < 8 && data[base + i] != 0
        invariant
            base + 8 <= data.len(),
            base == off + 78,
            field == data@.subrange(off + 78, off + 86),
            0 <= i <= 8,
            bytes@ == field.subrange(0, i as int),
            first_zero(field, 0) == first_zero(field, i as int),
        decreases 8 - i,
    {
        let code = data[base + i];
        assert(code == field[i as int]);
        bytes.push(code);
        i = i + 1;
        assert(bytes@ =~= field.subrange(0, i as int));
    }
    proof {
        lemma_first_zero_bounds(field, i as int);
        if i < 8 {
            assert(field[i as int] == data@[base + i]);
        }
        assert(bytes@ == flight_bytes(data@, off as int));
    }
    let text = lossy_text(bytes.as_slice());
    normalize_callsign(Some(text.as_str()))
}

pub open spec fn bit_set(b: u8, mask: int) -> bool {
    (b as int / mask) % 2 == 1
}

/// The record at `off` holds a position, a valid one, and a non-zero address.
pub open spec fn record_kept(data: Seq<u8>, off: int) -> bool {
    let lat = signed32(u32_le_at(data, off + 12));
    let lon = signed32(u32_le_at(data, off + 8));
    &&& bit_set(data[off + 73], 64)
    &&& -90_000_000 <= lat <= 90_000_000
    &&& -180_000_000 <= lon <= 180_000_000
    &&& u32_le_at(data, off) % 0x100_0000 != 0
}

pub open spec fn clamp_altitude(feet: int) -> int {
    if feet < -2000 {
        -2000
    } else if feet > 70000 {
        70000
    } else {
        feet
    }
}

pub open spec fn altitude_spec(data: Seq<u8>, off: int) -> Option<i32> {
    if bit_set(data[off + 73], 32) {
        Some(clamp_altitude(25 * signed16(u16_le_at(data, off + 22))) as i32)
    } else if bit_set(data[off + 73], 16) {
        Some(clamp_altitude(25 * signed16(u16_le_at(data, off + 20))) as i32)
    } else {
        None
    }
}

pub open spec fn ground_speed_spec(data: Seq<u8>, off: int) -> Option<i32> {
    let raw = signed16(u16_le_at(data, off + 34));
    if bit_set(data[off + 73], 128) && 0 <= raw <= 18000 {
        Some(raw as i32)
    } else {
        None
    }
}

/// The track, when its validity bit is set: the raw value in ninetieths of a
/// degree taken modulo a full turn, so it lies in [0, 32400).
pub open spec fn track_spec(data: Seq<u8>, off: int) -> Option<i32> {
    let raw = signed16(u16_le_at(data, off + 40));
    if bit_set(data[off + 74], 8) {
        Some((raw % 32400) as i32)
    } else {
        None
    }
}

pub open spec fn seen_valid(tenths: int) -> bool {
    0 <= tenths <= 864000
}

/// Age of the record in tenths of a second: the field at offset 4 when in
/// range, else the second field (offset 108, or 6 before the 32-bit version).
pub open spec fn last_seen_spec(data: Seq<u8>, off: int, version: int) -> Option<i32> {
    let (pos, msg) = if version >= BINCRAFT_S32_SEEN_VERSION {
        (signed32(u32_le_at(data, off + 4)), signed32(u32_le_at(data, off + 108)))
    } else {
        (u16_le_at(data, off + 4), u16_le_at(data, off + 6))
    };
    if seen_valid(pos) {
        Some(pos as i32)
    } else if seen_valid(msg) {
        Some(msg as i32)
    } else {
        None
    }
}

/// `a` is the aircraft that the record at `off` decodes to.
pub open spec fn record_decodes_to(data: Seq<u8>, off: int, version: int, a: TrafficAircraft) -> bool {
    &&& a.hex@ == hex_code(u32_le_at(data, off))
    &&& a.lat_microdeg == signed32(u32_le_at(data, off + 12))
    &&& a.lon_microdeg == signed32(u32_le_at(data, off + 8))
    &&& a.is_on_ground == (data[off + 68] % 16 == 1)
    &&& a.altitude_feet == altitude_spec(data, off)
    &&& a.ground_speed_tenths_kt == ground_speed_spec(data, off)
    &&& a.track_ninetieths_deg == track_spec(data, off)
    &&& a.last_seen_tenths_s == last_seen_spec(data, off, version)
    &&& if bit_set(data[off + 73], 8) {
        match callsign_of(utf8_lossy_of(flight_bytes(data, off))) {
            Some(t) => a.flight matches Some(s) && s@ == t,
            None => a.flight is None,
        }
    } else {
        a.flight is None
    }
}

/// Offsets of the kept records among the first `n` record slots after the header.
pub open spec fn kept_offsets(data: Seq<u8>, stride: int, n: int) -> Seq<int>
    decreases n,
{
    if n <= 0 {
        Seq::empty()
    } else {
        let prev = kept_offsets(data, stride, n - 1);
        let off = n * stride;
        if record_kept(data, off) {
            prev.push(off)
        } else {
            prev
        }
    }
}

pub open spec fn stride_ok(stride: int) -> bool {
    BINCRAFT_MIN_STRIDE_BYTES <= stride <= BINCRAFT_MAX_STRIDE_BYTES && stride % 4 == 0
}

/// Number of whole record slots after the header slot.
pub open spec fn record_slots(len: int, stride: int) -> int {
    len / stride - 1
}

fn decode_record(data: &Vec<u8>, off: usize, version: u32) -> (r: Option<TrafficAircraft>)
    requires
        off + 112 <= data.len(),
    ensures
        record_kept(data@, off as int) <==> r is Some,
        r matches Some(a) ==> record_decodes_to(data@, off as int, version as int, a),
{
    let validity73 = data[off + 73];
    if (validity73 / 64) % 2 != 1 {
        return None;
    }
    let lat = read_i32_le(data.as_slice(), off + 12).unwrap_or(0);
    let lon = read_i32_le(data.as_slice(), off + 8).unwrap_or(0);
    if lat < -90_000_000 || lat > 90_000_000 || lon < -180_000_000 || lon > 180_000_000 {
        return None;
    }
    let raw_hex = read_u32_le(data.as_slice(), off).unwrap_or(0);
    if raw_hex % 0x100_0000 == 0 {
        return None;
    }
    let hex = format_hex_code(raw_hex);
    let altitude_feet = altitude_of(data, off);
    let ground_speed_tenths_kt = ground_speed_of(data, off);
    let track_ninetieths_deg = track_of(data, off);
    let flight = if (validity73 / 8) % 2 == 1 {
        decode_flight(data, off)
    } else {
        None
    };
    let is_on_ground = data[off + 68] % 16 == 1;
    let last_seen_tenths_s = last_seen_of(data, off, version);
    Some(
        TrafficAircraft {
            hex,
            flight,
            lat_microdeg: lat,
            lon_microdeg: lon,
            is_on_ground,
            altitude_feet,
            ground_speed_tenths_kt,
            track_ninetieths_deg,
            last_seen_tenths_s,
        },
    )
}

fn clamp_altitude_feet(feet: i32) -> (r: i32)
    ensures
        r as int == clamp_altitude(feet as int),
{
    if feet < -2000 {
        -2000
    } else if feet > 70000 {
        70000
    } else {
        feet
    }
}

fn altitude_of(data: &Vec<u8>, off: usize) -> (r: Option<i32>)
    requires
        off + 112 <= data.len(),
    ensures
        r == altitude_spec(data@, off as int),
{
    let validity73 = data[off + 73];
    if (validity73 / 32) % 2 == 1 {
        Some(clamp_altitude_feet(25 * read_i16_le(data.as_slice(), off + 22).unwrap_or(0) as i32))
    } else if (validity73 / 16) % 2 == 1 {
        Some(clamp_altitude_feet(25 * read_i16_le(data.as_slice(), off + 20).unwrap_or(0) as i32))
    } else {
        None
    }
}

fn ground_speed_of(data: &Vec<u8>, off: usize) -> (r: Option<i32>)
    requires
        off + 112 <= data.len(),
    ensures
        r == ground_speed_spec(data@, off as int),
{
    let speed_raw = read_i16_le(data.as_slice(), off + 34).unwrap_or(0) as i32;
    if (data[off + 73] / 128) % 2 == 1 && 0 <= speed_raw && speed_raw <= 18000 {
        Some(speed_raw)
    } else {
        None
    }
}

fn track_of(data: &Vec<u8>, off: usize) -> (r: Option<i32>)
    requires
        off + 112 <= data.len(),
    ensures
        r == track_spec(data@, off as int),
{
    let track_raw = read_i16_le(data.as_slice(), off + 40).unwrap_or(0) as i32;
    if (data[off + 74] / 8) % 2 == 1 {
        Some(
            if track_raw < 0 {
                (track_raw + 64800) % 32400
            } else {
                track_raw % 32400
            },
        )
    } else {
        None
    }
}

fn last_seen_of(data: &Vec<u8>, off: usize, version: u32) -> (r: Option<i32>)
    requires
        off + 112 <= data.len(),
    ensures
        r == last_seen_spec(data@, off as int, version as int),
{
    let (pos, msg): (i64, i64) = if version >= BINCRAFT_S32_SEEN_VERSION {
        (
            read_i32_le(data.as_slice(), off + 4).unwrap_or(0) as i64,
            read_i32_le(data.as_slice(), off + 108).unwrap_or(0) as i64,
        )
    } else {
        (
            read_u16_le(data.as_slice(), off + 4).unwrap_or(0) as i64,
            read_u16_le(data.as_slice(), off + 6).unwrap_or(0) as i64,
        )
    };
    if 0 <= pos && pos <= 864000 {
        Some(pos as i32)
    } else if 0 <= msg && msg <= 864000 {
        Some(msg as i32)
    } else {
        None
    }
}

proof fn lemma_slot_fits(n: int, stride: int, len: int)
    requires
        1 <= n < len / stride,
        stride >= 112,
    ensures
        n * stride + 112 <= n * stride + stride <= len,
        (n + 1) * stride == n * stride + stride,
{
    assert(n * stride + stride <= len) by (nonlinear_arith)
        requires
            1 <= n < len / stride,
            stride >= 112,
    ;
    assert((n + 1) * stride == n * stride + stride) by (nonlinear_arith);
}

/// Decodes the records of a decompressed binCraft buffer: a header slot, then
/// records of `stride` bytes; records without a valid position or address are
/// left out.
pub fn parse_bincraft_records(data: &Vec<u8>) -> (r: Result<Vec<TrafficAircraft>, BincraftError>)
    ensures
        data@.len() < 44 <==> r == Err::<Vec<TrafficAircraft>, BincraftError>(BincraftError::TooSmall),
        data@.len() >= 44 && !stride_ok(u32_le_at(data@, 8)) <==> r == Err::<
            Vec<TrafficAircraft>,
            BincraftError,
        >(BincraftError::BadStride(u32_le_at(data@, 8) as u32)),
        buffer_error(data@) is None <==> r is Ok,
        r matches Ok(v) ==> {
            let stride = u32_le_at(data@, 8);
            let kept = kept_offsets(data@, stride, record_slots(data@.len() as int, stride));
            &&& v@.len() == kept.len()
            &&& forall|k: int|
                0 <= k < kept.len() ==> record_decodes_to(
                    data@,
                    #[trigger] kept[k],
                    u32_le_at(data@, 40),
                    v@[k],
                )
        },
{
    if data.len() < 44 {
        return Err(BincraftError::TooSmall);
    }
    let stride = read_u32_le(data.as_slice(), 8).unwrap_or(0);
    if stride < BINCRAFT_MIN_STRIDE_BYTES || stride > BINCRAFT_MAX_STRIDE_BYTES || stride % 4 != 0 {
        return Err(BincraftError::BadStride(stride));
    }
    let version = read_u32_le(data.as_slice(), 40).unwrap_or(0);
    let stride = stride as usize;
    let slots = data.len() / stride;
    let mut out: Vec<TrafficAircraft> = Vec::new();
    let mut n: usize = 1;
    while n < slots
        invariant
            stride == u32_le_at(data@, 8),
            stride_ok(stride as int),
            version == u32_le_at(data@, 40),
            slots == data@.len() as int / stride as int,
            1 <= n,
            n <= slots || n == 1,
            out@.len() == kept_offsets(data@, stride as int, n - 1).len(),
            forall|k: int|
                0 <= k < out@.len() ==> record_decodes_to(
                    data@,
                    #[trigger] kept_offsets(data@, stride as int, n - 1)[k],
                    version as int,
                    out@[k],
                ),
        decreases slots - n,
    {
        proof {
            lemma_slot_fits(n as int, stride as int, data.len() as int);
        }
        let off = n * stride;
        let ghost prev = kept_offsets(data@, stride as int, n - 1);
        let ghost before = out@;
        match decode_record(data, off, version) {
            Some(a) => {
                out.push(a);
                proof {
                    assert(kept_offsets(data@, stride as int, n as int) == prev.push(off as int));
                    assert forall|k: int| 0 <= k < out@.len() implies record_decodes_to(
                        data@,
                        #[trigger] kept_offsets(data@, stride as int, n as int)[k],
                        version as int,
                        out@[k],
                    ) by {
                        if k < before.len() {
                            assert(out@[k] == before[k]);
                            assert(kept_offsets(data@, stride as int, n as int)[k] == prev[k]);
                        }
                    }
                }
            },
            None => {
                assert(kept_offsets(data@, stride as int, n as int) == prev);
            },
        }
        n = n + 1;
    }
    proof {
        let rs = record_slots(data@.len() as int, stride as int);
        if slots == 0 {
            assert(rs == -1);
            assert(kept_offsets(data@, stride as int, rs) =~= kept_offsets(data@, stride as int, n - 1));
        } else {
            assert(n == slots);
            assert(rs == n - 1);
        }
    }
    Ok(out)
}

/// Age rank of a last-seen value: an absent age ranks after every present one.
pub open spec fn seen_rank(seen: Option<i32>) -> int {
    match seen {
        Some(v) => v as int,
        None => i32::MAX as int + 1,
    }
}

/// Index, among the first `n` records, of the first one with hex `h` whose age
/// rank is smallest; -1 when none has it.
pub open spec fn best_index(s: Seq<TrafficAircraft>, h: Seq<char>, n: int) -> int
    decreases n,
{
    if n <= 0 {
        -1
    } else {
        let b = best_index(s, h, n - 1);
        if s[n - 1].hex@ != h {
            b
        } else if b < 0 || seen_rank(s[n - 1].last_seen_tenths_s) < seen_rank(s[b].last_seen_tenths_s) {
            n - 1
        } else {
            b
        }
    }
}

/// The records that win their hex, in input order.
pub open spec fn hex_winners(s: Seq<TrafficAircraft>, n: int) -> Seq<TrafficAircraft>
    decreases n,
{
    if n <= 0 {
        Seq::empty()
    } else {
        let prev = hex_winners(s, n - 1);
        if best_index(s, s[n - 1].hex@, s.len() as int) == n - 1 {
            prev.push(s[n - 1])
        } else {
            prev
        }
    }
}

proof fn lemma_best_index(s: Seq<TrafficAircraft>, h: Seq<char>, n: int)
    requires
        0 <= n <= s.len(),
    ensures
        -1 <= best_index(s, h, n) < n,
        best_index(s, h, n) >= 0 ==> s[best_index(s, h, n)].hex@ == h,
        forall|i: int|
            0 <= i < n && (#[trigger] s[i]).hex@ == h ==> best_index(s, h, n) >= 0 && seen_rank(
                s[best_index(s, h, n)].last_seen_tenths_s,
            ) <= seen_rank(s[i].last_seen_tenths_s),
    decreases n,
{
    if n > 0 {
        lemma_best_index(s, h, n - 1);
    }
}

/// Of records that share a hex, the one kept has the smallest age of them all;
/// where two records alone carry the hex, the kept age is the smaller of the two.
/// Absent ages count as larger than any present one.
pub proof fn lemma_dedupe_keeps_freshest(s: Seq<TrafficAircraft>, i: int, j: int)
    requires
        0 <= i < s.len(),
        0 <= j < s.len(),
        s[i].hex@ == s[j].hex@,
    ensures
        ({
            let b = best_index(s, s[i].hex@, s.len() as int);
            &&& 0 <= b < s.len()
            &&& s[b].hex@ == s[i].hex@
            &&& hex_winners(s, s.len() as int).contains(s[b])
            &&& seen_rank(s[b].last_seen_tenths_s) <= seen_rank(s[i].last_seen_tenths_s)
            &&& seen_rank(s[b].last_seen_tenths_s) <= seen_rank(s[j].last_seen_tenths_s)
            &&& (forall|k: int| 0 <= k < s.len() && (#[trigger] s[k]).hex@ == s[i].hex@ ==> k == i || k == j)
                ==> seen_rank(s[b].last_seen_tenths_s) == if seen_rank(s[i].last_seen_tenths_s)
                <= seen_rank(s[j].last_seen_tenths_s) {
                seen_rank(s[i].last_seen_tenths_s)
            } else {
                seen_rank(s[j].last_seen_tenths_s)
            }
        }),
{
    let h = s[i].hex@;
    let n = s.len() as int;
    lemma_best_index(s, h, n);
    let b = best_index(s, h, n);
    assert(seen_rank(s[b].last_seen_tenths_s) <= seen_rank(s[i].last_seen_tenths_s));
    assert(seen_rank(s[b].last_seen_tenths_s) <= seen_rank(s[j].last_seen_tenths_s));
    lemma_best_index_attained(s, h, n);
    lemma_winner_listed(s, b, n);
}

proof fn lemma_best_index_attained(s: Seq<TrafficAircraft>, h: Seq<char>, n: int)
    requires
        0 <= n <= s.len(),
    ensures
        best_index(s, h, n) >= 0 ==> forall|k: int|
            0 <= k < n && (#[trigger] s[k]).hex@ == h ==> seen_rank(
                s[best_index(s, h, n)].last_seen_tenths_s,
            ) <= seen_rank(s[k].last_seen_tenths_s),
    decreases n,
{
    lemma_best_index(s, h, n);
}

proof fn lemma_winner_listed(s: Seq<TrafficAircraft>, b: int, n: int)
    requires
        0 <= b < n <= s.len(),
        best_index(s, s[b].hex@, s.len() as int) == b,
    ensures
        hex_winners(s, n).contains(s[b]),
    decreases n,
{
    if b < n - 1 {
        lemma_winner_listed(s, b, n - 1);
        let prev = hex_winners(s, n - 1);
        let k = choose|k: int| 0 <= k < prev.len() && prev[k] == s[b];
        if best_index(s, s[n - 1].hex@, s.len() as int) == n - 1 {
            assert(hex_winners(s, n)[k] == s[b]);
        }
    } else {
        let w = hex_winners(s, n);
        assert(w[w.len() - 1] == s[b]);
    }
}

fn seen_rank_of(seen: Option<i32>) -> (r: i64)
    ensures
        r == seen_rank(seen),
{
    match seen {
        Some(v) => v as i64,
        None => i32::MAX as i64 + 1,
    }
}

fn placeholder_aircraft() -> TrafficAircraft {
    TrafficAircraft {
        hex: String::new(),
        flight: None,
        lat_microdeg: 0,
        lon_microdeg: 0,
        is_on_ground: false,
        altitude_feet: None,
        ground_speed_tenths_kt: None,
        track_ninetieths_deg: None,
        last_seen_tenths_s: None,
    }
}

/// Keeps one record per hex: the first of those with the smallest age (an
/// absent age ranks last). The records kept stay in input order.
pub fn dedupe_by_hex(records: Vec<TrafficAircraft>) -> (r: Vec<TrafficAircraft>)
    ensures
        r@ == hex_winners(records@, records@.len() as int),
{
    let ghost s = records@;
    let n = records.len();
    let mut records = records;
    let mut index: StringHashMap<usize> = StringHashMap::new();
    let mut i: usize = 0;
    while i < n
        invariant
            n == s.len(),
            records@ == s,
            0 <= i <= n,
            forall|h: Seq<char>|
                #![trigger index@.contains_key(h)]
                index@.contains_key(h) <==> best_index(s, h, i as int) >= 0,
            forall|h: Seq<char>|
                #![trigger index@[h]]
                index@.contains_key(h) ==> index@[h] == best_index(s, h, i as int),
        decreases n - i,
    {
        let rank = seen_rank_of(records[i].last_seen_tenths_s);
        let replace = match index.get(records[i].hex.as_str()) {
            Some(j) => {
                let j = *j;
                proof {
                    lemma_best_index(s, s[i as int].hex@, i as int);
                }
                rank < seen_rank_of(records[j].last_seen_tenths_s)
            },
            None => true,
        };
        let ghost before = index@;
        if replace {
            index.insert(records[i].hex.clone(), i);
        }
        proof {
            let hi = s[i as int].hex@;
            assert forall|h: Seq<char>| #![trigger index@.contains_key(h)]
                index@.contains_key(h) <==> best_index(s, h, i + 1) >= 0 by {
                if h != hi {
                    assert(best_index(s, h, i + 1) == best_index(s, h, i as int));
                }
            }
            assert forall|h: Seq<char>| #![trigger index@[h]]
                index@.contains_key(h) implies index@[h] == best_index(s, h, i + 1) by {
                if h != hi {
                    assert(best_index(s, h, i + 1) == best_index(s, h, i as int));
                }
            }
        }
        i = i + 1;
    }
    let mut out: Vec<TrafficAircraft> = Vec::new();
    let mut i: usize = 0;
    while i < n
        invariant
            n == s.len(),
            records@.len() == n,
            0 <= i <= n,
            forall|k: int| i <= k < n ==> #[trigger] records@[k] == s[k],
            forall|h: Seq<char>|
                #![trigger index@.contains_key(h)]
                index@.contains_key(h) <==> best_index(s, h, n as int) >= 0,
            forall|h: Seq<char>|
                #![trigger index@[h]]
                index@.contains_key(h) ==> index@[h] == best_index(s, h, n as int),
            out@ == hex_winners(s, i as int),
        decreases n - i,
    {
        let wins = match index.get(records[i].hex.as_str()) {
            Some(j) => *j == i,
            None => false,
        };
        proof {
            lemma_best_index(s, s[i as int].hex@, n as int);
        }
        let mut taken = placeholder_aircraft();
        let ghost before = records@;
        std::mem::swap(&mut records[i], &mut taken);
        proof {
            assert forall|k: int| i < k < n implies #[trigger] records@[k] == s[k] by {
                assert(records@[k] == before[k]);
            }
        }
        if wins {
            out.push(taken);
        }
        i = i + 1;
    }
    out
}

/// `v` is what a decompressed buffer yields: its kept records, decoded, one per hex.
pub open spec fn buffer_decodes_to(data: Seq<u8>, v: Seq<TrafficAircraft>) -> bool {
    let stride = u32_le_at(data, 8);
    let kept = kept_offsets(data, stride, record_slots(data.len() as int, stride));
    exists|recs: Seq<TrafficAircraft>|
        #![trigger hex_winners(recs, recs.len() as int)]
        recs.len() == kept.len() && (forall|k: int|
            0 <= k < kept.len() ==> record_decodes_to(data, #[trigger] kept[k], u32_le_at(data, 40), recs[k]))
            && v == hex_winners(recs, recs.len() as int)
}

/// What a decompressed buffer is refused for, if anything.
pub open spec fn buffer_error(data: Seq<u8>) -> Option<BincraftError> {
    if data.len() < 44 {
        Some(BincraftError::TooSmall)
    } else if !stride_ok(u32_le_at(data, 8)) {
        Some(BincraftError::BadStride(u32_le_at(data, 8) as u32))
    } else {
        None
    }
}

/// Decodes a decompressed binCraft buffer and keeps one record per hex.
pub fn decode_bincraft_buffer(data: &Vec<u8>) -> (r: Result<Vec<TrafficAircraft>, BincraftError>)
    ensures
        match buffer_error(data@) {
            Some(e) => r == Err::<Vec<TrafficAircraft>, BincraftError>(e),
            None => r matches Ok(v) && buffer_decodes_to(data@, v@),
        },
{
    match parse_bincraft_records(data) {
        Ok(records) => {
            let ghost recs = records@;
            let out = dedupe_by_hex(records);
            proof {
                let stride = u32_le_at(data@, 8);
                let kept = kept_offsets(data@, stride, record_slots(data@.len() as int, stride));
                assert(recs.len() == kept.len());
                assert(forall|k: int|
                    0 <= k < kept.len() ==> record_decodes_to(
                        data@,
                        #[trigger] kept[k],
                        u32_le_at(data@, 40),
                        recs[k],
                    ));
                assert(out@ == hex_winners(recs, recs.len() as int));
            }
            Ok(out)
        },
        Err(e) => Err(e),
    }
}

/// Decompresses a binCraft payload, then decodes it as `decode_bincraft_buffer`
/// does.
pub fn decode_bincraft_aircraft(payload: &[u8]) -> (r: Result<Vec<TrafficAircraft>, BincraftError>)
    ensures
        match zstd_decoded(payload@) {
            None => r == Err::<Vec<TrafficAircraft>, BincraftError>(BincraftError::Decompress),
            Some(d) => match buffer_error(d) {
                Some(e) => r == Err::<Vec<TrafficAircraft>, BincraftError>(e),
                None => r matches Ok(v) && buffer_decodes_to(d, v@),
            },
        },
{
    let decoded = match zstd_decode(payload) {
        Some(d) => d,
        None => {
            return Err(BincraftError::Decompress);
        },
    };
    decode_bincraft_buffer(&decoded)
}

/// The value of a hexadecimal digit of either case, or -1.
#[verifier::opaque]
pub open spec fn hex_value(c: char) -> int {
    if c == '0' { 0 } else if c == '1' { 1 } else if c == '2' { 2 } else if c == '3' { 3 }
    else if c == '4' { 4 } else if c == '5' { 5 } else if c == '6' { 6 } else if c == '7' { 7 }
    else if c == '8' { 8 } else if c == '9' { 9 } else if c == 'a' || c == 'A' { 10 }
    else if c == 'b' || c == 'B' { 11 } else if c == 'c' || c == 'C' { 12 }
    else if c == 'd' || c == 'D' { 13 } else if c == 'e' || c == 'E' { 14 }
    else if c == 'f' || c == 'F' { 15 } else { -1 }
}

/// A hex code without its leading `~`, if it has one.
pub open spec fn without_tilde(hex: Seq<char>) -> Seq<char> {
    if hex.len() > 0 && hex[0] == '~' {
        hex.drop_first()
    } else {
        hex
    }
}

/// The six-digit lower-case address of a hex code, with any `~` dropped.
pub open spec fn trace_hex_of(hex: Seq<char>) -> Option<Seq<char>> {
    let t = without_tilde(hex);
    if t.len() == 6 && forall|i: int| 0 <= i < 6 ==> hex_value(#[trigger] t[i]) >= 0 {
        Some(Seq::new(6, |i: int| hex_digit_chars()[hex_value(t[i])]))
    } else {
        None
    }
}

fn hex_value_of(c: char) -> (r: i32)
    ensures
        r == hex_value(c),
        -1 <= r < 16,
{
    reveal(hex_value);
    match c {
        '0' => 0,
        '1' => 1,
        '2' => 2,
        '3' => 3,
        '4' => 4,
        '5' => 5,
        '6' => 6,
        '7' => 7,
        '8' => 8,
        '9' => 9,
        'a' | 'A' => 10,
        'b' | 'B' => 11,
        'c' | 'C' => 12,
        'd' | 'D' => 13,
        'e' | 'E' => 14,
        'f' | 'F' => 15,
        _ => -1,
    }
}

/// The address under which an aircraft's trace files are kept: the hex code
/// without its `~`, in lower case, when it is six hexadecimal digits.
pub fn normalize_trace_hex(hex: &str) -> (r: Option<String>)
    ensures
        match trace_hex_of(hex@) {
            Some(t) => r matches Some(s) && s@ == t,
            None => r is None,
        },
{
    let n = hex.unicode_len();
    let start: usize = if n > 0 && hex.get_char(0) == '~' { 1 } else { 0 };
    let ghost t = without_tilde(hex@);
    assert(t =~= hex@.subrange(start as int, n as int));
    if n - start != 6 {
        return None;
    }
    let mut out = String::new();
    let mut i: usize = 0;
    while i < 6
        invariant
            n == hex@.len(),
            start + 6 == n,
            t == hex@.subrange(start as int, n as int),
            t == without_tilde(hex@),
            0 <= i <= 6,
            forall|k: int| 0 <= k < i ==> hex_value(#[trigger] t[k]) >= 0,
            out@ == Seq::new(i as nat, |k: int| hex_digit_chars()[hex_value(t[k])]),
        decreases 6 - i,
    {
        let c = hex.get_char(start + i);
        assert(c == t[i as int]);
        let v = hex_value_of(c);
        if v < 0 {
            assert(!(hex_value(t[i as int]) >= 0));
            return None;
        }
        out.append(hex_digit(v as u32));
        i = i + 1;
        assert(out@ =~= Seq::new(i as nat, |k: int| hex_digit_chars()[hex_value(t[k])]));
    }
    Some(out)
}

/// Ages never decrease along the sequence (absent ages last).
pub open spec fn seen_sorted(s: Seq<TrafficAircraft>) -> bool {
    forall|i: int, j: int|
        0 <= i < j < s.len() ==> seen_rank((#[trigger] s[i]).last_seen_tenths_s) <= seen_rank(
            (#[trigger] s[j]).last_seen_tenths_s,
        )
}

/// Relies on `slice::sort_by_key`: a permutation in ascending order of the key,
/// here the age rank.
#[verifier::external_body]
fn sort_by_seen(v: &mut Vec<TrafficAircraft>)
    ensures
        final(v)@.to_multiset() == old(v)@.to_multiset(),
        seen_sorted(final(v)@),
{
    v.sort_by_key(|a| seen_rank_of(a.last_seen_tenths_s));
}

/// The freshest aircraft first, at most `limit` of them: the first `limit` of
/// the aircraft ordered by age, absent ages last.
pub fn freshest_first(aircraft: Vec<TrafficAircraft>, limit: usize) -> (r: Vec<TrafficAircraft>)
    ensures
        r@.len() == if limit < aircraft@.len() { limit as int } else { aircraft@.len() as int },
        exists|full: Seq<TrafficAircraft>|
            #![trigger seen_sorted(full)]
            full.to_multiset() == aircraft@.to_multiset() && seen_sorted(full) && r@ == full.subrange(
                0,
                r@.len() as int,
            ),
{
    let mut v = aircraft;
    sort_by_seen(&mut v);
    let ghost full = v@;
    v.truncate(limit);
    proof {
        broadcast use vstd::seq_lib::group_to_multiset_ensures;

        assert(full.to_multiset().len() == full.len());
        assert(aircraft@.to_multiset().len() == aircraft@.len());
        if limit as int >= full.len() {
            assert(full.subrange(0, full.len() as int) =~= full);
        }
        assert(seen_sorted(full));
    }
    v
}

} // verus!
