use vstd::prelude::*;
use vstd::string::{StrSliceExecFns, StringExecFns};

verus! {

/// Product prefix of the reflectivity stack.
pub const MRMS_PRODUCT_PREFIX: &'static str = "MergedReflectivityQC";

/// Product prefix of differential reflectivity.
pub const MRMS_ZDR_PRODUCT_PREFIX: &'static str = "MergedZdr";

/// Product prefix of the correlation coefficient.
pub const MRMS_RHOHV_PRODUCT_PREFIX: &'static str = "MergedRhoHV";

/// Tag of the base reflectivity level.
pub const MRMS_BASE_LEVEL_TAG: &'static str = "00.50";

pub uninterp spec fn utc_timestamp_ms(timestamp: Seq<char>) -> Option<i64>;

pub uninterp spec fn utc_timestamp_text(ms: i64) -> Option<Seq<char>>;

pub open spec fn conus_prefix() -> Seq<char> {
    seq!['C', 'O', 'N', 'U', 'S', '/']
}

pub open spec fn mrms_prefix() -> Seq<char> {
    seq!['M', 'R', 'M', 'S', '_']
}

pub open spec fn grib2_suffix() -> Seq<char> {
    seq!['.', 'g', 'r', 'i', 'b', '2', '.', 'g', 'z']
}

/// Object key of one level of a leveled product at a timestamp.
pub open spec fn level_key(product: Seq<char>, level: Seq<char>, date: Seq<char>, timestamp: Seq<char>) -> Seq<
    char,
> {
    conus_prefix() + product + seq!['_'] + level + seq!['/'] + date + seq!['/'] + mrms_prefix() + product
        + seq!['_'] + level + seq!['_'] + timestamp + grib2_suffix()
}

/// Object key of a single-level auxiliary product at a timestamp.
pub open spec fn aux_key(product: Seq<char>, date: Seq<char>, timestamp: Seq<char>) -> Seq<char> {
    conus_prefix() + product + seq!['/'] + date + seq!['/'] + mrms_prefix() + product + seq!['_']
        + timestamp + grib2_suffix()
}

pub fn build_level_key(product_prefix: &str, level_tag: &str, date_part: &str, timestamp: &str) -> (r: String)
    ensures
        r@ == level_key(product_prefix@, level_tag@, date_part@, timestamp@),
{
    proof {
        reveal_strlit("CONUS/");
        reveal_strlit("_");
        reveal_strlit("/");
        reveal_strlit("MRMS_");
        reveal_strlit(".grib2.gz");
    }
    let mut s = String::from_str("CONUS/");
    s.append(product_prefix);
    s.append("_");
    s.append(level_tag);
    s.append("/");
    s.append(date_part);
    s.append("/");
    s.append("MRMS_");
    s.append(product_prefix);
    s.append("_");
    s.append(level_tag);
    s.append("_");
    s.append(timestamp);
    s.append(".grib2.gz");
    assert(s@ =~= level_key(product_prefix@, level_tag@, date_part@, timestamp@));
    s
}

pub fn build_aux_key(product: &str, date_part: &str, timestamp: &str) -> (r: String)
    ensures
        r@ == aux_key(product@, date_part@, timestamp@),
{
    proof {
        reveal_strlit("CONUS/");
        reveal_strlit("_");
        reveal_strlit("/");
        reveal_strlit("MRMS_");
        reveal_strlit(".grib2.gz");
    }
    let mut s = String::from_str("CONUS/");
    s.append(product);
    s.append("/");
    s.append(date_part);
    s.append("/");
    s.append("MRMS_");
    s.append(product);
    s.append("_");
    s.append(timestamp);
    s.append(".grib2.gz");
    assert(s@ =~= aux_key(product@, date_part@, timestamp@));
    s
}

pub open spec fn ends_with(s: Seq<char>, suffix: Seq<char>) -> bool {
    s.len() >= suffix.len() && s.subrange(s.len() - suffix.len(), s.len() as int) == suffix
}

fn ends_with_grib2(key: &str) -> (r: bool)
    ensures
        r == ends_with(key@, grib2_suffix()),
{
    proof {
        reveal_strlit(".grib2.gz");
    }
    let suffix = ".grib2.gz";
    let n = key.unicode_len();
    if n < 9 {
        return false;
    }
    let mut i: usize = 0;
    while i < 9
        invariant
            n == key@.len(),
            n >= 9,
            suffix@ == grib2_suffix(),
            0 <= i <= 9,
            forall|k: int| 0 <= k < i ==> key@[n - 9 + k] == #[trigger] grib2_suffix()[k],
        decreases 9 - i,
    {
        if key.get_char(n - 9 + i) != suffix.get_char(i) {
            assert(key@.subrange(n - 9, n as int)[i as int] != grib2_suffix()[i as int]);
            return false;
        }
        i = i + 1;
    }
    assert(key@.subrange(n - 9, n as int) =~= grib2_suffix());
    true
}

/// The key names a gzipped GRIB2 object.
pub fn is_mrms_grib2_key(key: &str) -> (r: bool)
    ensures
        r == ends_with(key@, grib2_suffix()),
{
    ends_with_grib2(key)
}

pub open spec fn is_digit(c: char) -> bool {
    '0' <= c <= '9'
}

/// `t` has the shape YYYYMMDD-HHMMSS.
pub open spec fn timestamp_shaped(t: Seq<char>) -> bool {
    &&& t.len() == 15
    &&& forall|i: int| 0 <= i < 15 && i != 8 ==> is_digit(#[trigger] t[i])
    &&& t[8] == '-'
}

/// The timestamp of a key that ends in `_YYYYMMDD-HHMMSS.grib2.gz`.
pub open spec fn timestamp_of_key(key: Seq<char>) -> Option<Seq<char>> {
    let n = key.len() as int;
    if ends_with(key, grib2_suffix()) && n >= 25 && key[n - 25] == '_' && timestamp_shaped(
        key.subrange(n - 24, n - 9),
    ) {
        Some(key.subrange(n - 24, n - 9))
    } else {
        None
    }
}

/// Extracts the timestamp from a key that ends in `_YYYYMMDD-HHMMSS.grib2.gz`.
pub fn extract_timestamp_from_key(key: &str) -> (r: Option<String>)
    ensures
        match timestamp_of_key(key@) {
            Some(t) => r matches Some(s) && s@ == t,
            None => r is None,
        },
{
    if !ends_with_grib2(key) {
        return None;
    }
    let n = key.unicode_len();
    if n < 25 {
        return None;
    }
    if key.get_char(n - 25) != '_' {
        return None;
    }
    let ghost t = key@.subrange(n - 24, n - 9);
    let mut i: usize = 0;
    while i < 15
        invariant
            n == key@.len(),
            n >= 25,
            t == key@.subrange(n - 24, n - 9),
            0 <= i <= 15,
            forall|k: int| 0 <= k < i && k != 8 ==> is_digit(#[trigger] t[k]),
            i > 8 ==> t[8] == '-',
        decreases 15 - i,
    {
        let c = key.get_char(n - 24 + i);
        assert(c == t[i as int]);
        if i == 8 {
            if c != '-' {
                return None;
            }
        } else if !('0' <= c && c <= '9') {
            return None;
        }
        i = i + 1;
    }
    let sub = key.substring_char(n - 24, n - 9);
    Some(String::from_str(sub))
}

/// Relies on chrono's `NaiveDateTime::parse_from_str` with `%Y%m%d-%H%M%S`, read
/// as UTC: the epoch milliseconds of the timestamp, or a refusal, either of
/// which depends on its text alone.
#[verifier::external_body]
fn parse_timestamp_ms(timestamp: &str) -> (r: Option<i64>)
    ensures
        r == utc_timestamp_ms(timestamp@),
{
    chrono::NaiveDateTime::parse_from_str(timestamp, "%Y%m%d-%H%M%S")
        .ok()
        .map(|naive| naive.and_utc().timestamp_millis())
}

/// Milliseconds since the epoch of a `YYYYMMDD-HHMMSS` timestamp, or `fallback_ms`
/// when it does not parse.
pub fn scan_time_ms_or(timestamp: &str, fallback_ms: i64) -> (r: i64)
    ensures
        r == match utc_timestamp_ms(timestamp@) {
            Some(ms) => ms,
            None => fallback_ms,
        },
{
    match parse_timestamp_ms(timestamp) {
        Some(ms) => ms,
        None => fallback_ms,
    }
}

/// Whole seconds by which `newer` follows `older`, at least zero; `None` when
/// either does not parse.
pub fn timestamp_age_seconds(newer: &str, older: &str) -> (r: Option<i64>)
    ensures
        r == match (utc_timestamp_ms(newer@), utc_timestamp_ms(older@)) {
            (Some(n), Some(o)) => Some(
                if n - o <= 0 {
                    0i64
                } else {
                    ((n - o) / 1000) as i64
                },
            ),
            _ => None,
        },
{
    let newer_ms = parse_timestamp_ms(newer)?;
    let older_ms = parse_timestamp_ms(older)?;
    let d = newer_ms as i128 - older_ms as i128;
    if d <= 0 {
        Some(0)
    } else {
        Some((d / 1000) as i64)
    }
}

/// The text has the shape YYYYMMDD-HHMMSS.
pub fn is_timestamp_shaped(t: &str) -> (r: bool)
    ensures
        r == timestamp_shaped(t@),
{
    let n = t.unicode_len();
    if n != 15 {
        return false;
    }
    let mut i: usize = 0;
    while i < 15
        invariant
            n == t@.len(),
            n == 15,
            0 <= i <= 15,
            forall|k: int| 0 <= k < i && k != 8 ==> is_digit(#[trigger] t@[k]),
            i > 8 ==> t@[8] == '-',
        decreases 15 - i,
    {
        let c = t.get_char(i);
        if i == 8 {
            if c != '-' {
                return false;
            }
        } else if !('0' <= c && c <= '9') {
            assert(!is_digit(t@[i as int]));
            return false;
        }
        i = i + 1;
    }
    true
}

/// Relies on chrono's `DateTime::<Utc>::from_timestamp_millis` formatted with
/// `%Y%m%d-%H%M%S`: the UTC text of an epoch time, or nothing out of chrono's
/// range, either of which depends on the milliseconds alone.
#[verifier::external_body]
fn format_timestamp_ms(ms: i64) -> (r: Option<String>)
    ensures
        r is Some <==> utc_timestamp_text(ms) is Some,
        r matches Some(s) ==> utc_timestamp_text(ms) == Some(s@),
{
    chrono::DateTime::<chrono::Utc>::from_timestamp_millis(ms).map(|t| t.format("%Y%m%d-%H%M%S").to_string())
}

/// `ms` rounded toward zero to a multiple of `step_ms`.
pub open spec fn floor_to_step(ms: int, step_ms: int) -> int {
    if ms >= 0 {
        (ms / step_ms) * step_ms
    } else {
        -(((-ms) / step_ms) * step_ms)
    }
}

/// The step of a cycle in milliseconds: at least one second.
pub open spec fn cycle_step_ms(step_seconds: i64) -> int {
    if step_seconds < 1 {
        1000
    } else {
        step_seconds * 1000
    }
}

/// The start of the cycle of `step_seconds` that holds a `YYYYMMDD-HHMMSS`
/// timestamp, in the same form; nothing when the timestamp does not parse.
pub fn cycle_anchor_timestamp(target: &str, step_seconds: i64) -> (r: Option<String>)
    ensures
        match utc_timestamp_ms(target@) {
            None => r is None,
            Some(ms) => {
                let floored = floor_to_step(ms as int, cycle_step_ms(step_seconds)) as i64;
                match utc_timestamp_text(floored) {
                    Some(t) => r matches Some(s) && s@ == t,
                    None => match utc_timestamp_text(ms) {
                        Some(t) => r matches Some(s) && s@ == t,
                        None => r is None,
                    },
                }
            },
        },
{
    let ms = parse_timestamp_ms(target)?;
    let step_ms: i128 = if step_seconds < 1 { 1000 } else { step_seconds as i128 * 1000 };
    let m = ms as i128;
    proof {
        lemma_floor_bounds(m as int, step_ms as int);
    }
    let floored: i128 = if m >= 0 {
        (m / step_ms) * step_ms
    } else {
        -(((-m) / step_ms) * step_ms)
    };
    match format_timestamp_ms(floored as i64) {
        Some(t) => Some(t),
        None => format_timestamp_ms(ms),
    }
}

proof fn lemma_floor_bounds(m: int, step: int)
    requires
        step >= 1,
    ensures
        m >= 0 ==> 0 <= (m / step) * step <= m,
        m < 0 ==> 0 <= ((-m) / step) * step <= -m,
{
    if m >= 0 {
        assert(0 <= (m / step) * step <= m) by (nonlinear_arith)
            requires
                m >= 0,
                step >= 1,
        ;
    } else {
        let n = -m;
        assert(0 <= (n / step) * step <= n) by (nonlinear_arith)
            requires
                n >= 0,
                step >= 1,
        ;
    }
}

} // verus!
