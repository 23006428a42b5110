use approach_viz::traffic::freshest_first;
use approach_viz::traffic::normalize_trace_hex;
use approach_viz::traffic::{
    decode_bincraft_aircraft, decode_bincraft_buffer, dedupe_by_hex, format_hex_code, normalize_callsign,
    parse_bincraft_records, BincraftError, TrafficAircraft,
};

const STRIDE: usize = 112;

fn header(version: u32) -> Vec<u8> {
    let mut buf = vec![0_u8; STRIDE];
    buf[8..12].copy_from_slice(&(STRIDE as u32).to_le_bytes());
    buf[40..44].copy_from_slice(&version.to_le_bytes());
    buf
}

fn record(raw_hex: u32, lat: i32, lon: i32, validity73: u8) -> Vec<u8> {
    let mut rec = vec![0_u8; STRIDE];
    rec[0..4].copy_from_slice(&raw_hex.to_le_bytes());
    rec[8..12].copy_from_slice(&lon.to_le_bytes());
    rec[12..16].copy_from_slice(&lat.to_le_bytes());
    rec[73] = validity73;
    rec
}

fn set_seen(rec: &mut [u8], seen_msg: i32, seen_pos: i32) {
    rec[4..8].copy_from_slice(&seen_msg.to_le_bytes());
    rec[108..112].copy_from_slice(&seen_pos.to_le_bytes());
}

#[test]
fn bincraft_single_record_scenario() {
    let mut buf = header(20240218);
    let mut rec = record(1, 40_500_000, -75_500_000, 0b0100_0000);
    set_seen(&mut rec, 123, -1);
    buf.extend_from_slice(&rec);
    let aircraft = parse_bincraft_records(&buf).expect("decoded");
    assert_eq!(aircraft.len(), 1);
    let a = &aircraft[0];
    assert_eq!(a.hex, "000001");
    assert_eq!(a.lat_microdeg, 40_500_000);
    assert_eq!(a.lon_microdeg, -75_500_000);
    assert!(!a.is_on_ground);
    assert_eq!(a.altitude_feet, None);
    assert_eq!(a.ground_speed_tenths_kt, None);
    assert_eq!(a.track_ninetieths_deg, None);
    assert_eq!(a.flight, None);
    assert_eq!(a.last_seen_tenths_s, Some(123));
}

#[test]
fn bincraft_optional_fields() {
    let mut buf = header(20240101);
    let mut rec = record(0x01ab_cdef, 1_000_000, 2_000_000, 0b1111_1000);
    rec[20..22].copy_from_slice(&(100_i16).to_le_bytes());
    rec[22..24].copy_from_slice(&(-200_i16).to_le_bytes());
    rec[34..36].copy_from_slice(&(4500_i16).to_le_bytes());
    rec[40..42].copy_from_slice(&(-90_i16).to_le_bytes());
    rec[74] = 8;
    rec[68] = 0x21;
    rec[78..86].copy_from_slice(b"UAL12 \0\0");
    rec[4..6].copy_from_slice(&700_u16.to_le_bytes());
    rec[6..8].copy_from_slice(&55_u16.to_le_bytes());
    buf.extend_from_slice(&rec);
    let aircraft = parse_bincraft_records(&buf).expect("decoded");
    let a = &aircraft[0];
    assert_eq!(a.hex, "~abcdef");
    assert_eq!(a.altitude_feet, Some(-2000));
    assert_eq!(a.ground_speed_tenths_kt, Some(4500));
    assert_eq!(a.track_ninetieths_deg, Some(32310));
    assert_eq!(a.flight.as_deref(), Some("UAL12"));
    assert!(a.is_on_ground);
    assert_eq!(a.last_seen_tenths_s, Some(700));
}

#[test]
fn bincraft_skips_invalid_records() {
    let mut buf = header(20240218);
    buf.extend_from_slice(&record(5, 40_000_000, 10_000_000, 0));
    buf.extend_from_slice(&record(0x0100_0000, 40_000_000, 10_000_000, 64));
    buf.extend_from_slice(&record(6, 95_000_000, 10_000_000, 64));
    buf.extend_from_slice(&record(7, 40_000_000, 10_000_000, 64));
    buf.extend_from_slice(&[9, 9, 9]);
    let aircraft = parse_bincraft_records(&buf).expect("decoded");
    assert_eq!(aircraft.len(), 1);
    assert_eq!(aircraft[0].hex, "000007");
}

#[test]
fn bincraft_errors() {
    assert_eq!(parse_bincraft_records(&vec![0; 10]).err(), Some(BincraftError::TooSmall));
    let mut buf = header(1);
    buf[8..12].copy_from_slice(&114_u32.to_le_bytes());
    assert_eq!(parse_bincraft_records(&buf).err(), Some(BincraftError::BadStride(114)));
    buf[8..12].copy_from_slice(&300_u32.to_le_bytes());
    assert_eq!(parse_bincraft_records(&buf).err(), Some(BincraftError::BadStride(300)));
    assert_eq!(decode_bincraft_aircraft(&[1, 2, 3]).err(), Some(BincraftError::Decompress));
}

#[test]
fn dedupe_keeps_freshest_per_hex() {
    let mut buf = header(20240218);
    let mut first = record(0x00aa_0001, 40_000_000, 10_000_000, 64);
    set_seen(&mut first, 50, 50);
    let mut second = record(0x00aa_0001, 41_000_000, 10_000_000, 64);
    set_seen(&mut second, 30, 30);
    let mut other = record(0x00bb_0002, 42_000_000, 10_000_000, 64);
    set_seen(&mut other, 10, -5);
    buf.extend_from_slice(&first);
    buf.extend_from_slice(&other);
    buf.extend_from_slice(&second);
    let aircraft = decode_bincraft_buffer(&buf).expect("decoded");
    assert_eq!(aircraft.len(), 2);
    let a = aircraft.iter().find(|a| a.hex == "aa0001").unwrap();
    assert_eq!(a.last_seen_tenths_s, Some(30));
    assert_eq!(a.lat_microdeg, 41_000_000);
    let b = aircraft.iter().find(|a| a.hex == "bb0002").unwrap();
    assert_eq!(b.last_seen_tenths_s, Some(10));
}

#[test]
fn dedupe_prefers_present_age_and_first_on_ties() {
    let make = |lat: i32, seen: Option<i32>| TrafficAircraft {
        hex: "abc123".to_string(),
        flight: None,
        lat_microdeg: lat,
        lon_microdeg: 0,
        is_on_ground: false,
        altitude_feet: None,
        ground_speed_tenths_kt: None,
        track_ninetieths_deg: None,
        last_seen_tenths_s: seen,
    };
    let out = dedupe_by_hex(vec![make(1, None), make(2, Some(40)), make(3, Some(40))]);
    assert_eq!(out.len(), 1);
    assert_eq!(out[0].lat_microdeg, 2);
}

#[test]
fn compressed_payload_decodes() {
    let mut buf = header(20240218);
    buf.extend_from_slice(&record(0x00c0ffee, 1, 2, 64));
    let compressed = zstd::stream::encode_all(std::io::Cursor::new(buf), 3).unwrap();
    let aircraft = decode_bincraft_aircraft(&compressed).expect("decoded");
    assert_eq!(aircraft.len(), 1);
    assert_eq!(aircraft[0].hex, "c0ffee");
}

#[test]
fn hex_codes_and_callsigns() {
    assert_eq!(format_hex_code(0x0000_0001), "000001");
    assert_eq!(format_hex_code(0x0100_0a0b), "~000a0b");
    assert_eq!(format_hex_code(0xff12_3456), "~123456");
    assert_eq!(normalize_callsign(Some("  DAL9 ")), Some("DAL9".to_string()));
    assert_eq!(normalize_callsign(Some("   ")), None);
    assert_eq!(normalize_callsign(None), None);
}

#[test]
fn trace_hex_normalization() {
    assert_eq!(normalize_trace_hex("~ABCdef"), Some("abcdef".to_string()));
    assert_eq!(normalize_trace_hex("a1b2c3"), Some("a1b2c3".to_string()));
    assert_eq!(normalize_trace_hex("12345"), None);
    assert_eq!(normalize_trace_hex("12345g"), None);
    assert_eq!(normalize_trace_hex("~~12345"), None);
}

#[test]
fn bincraft_seen_prefers_offset_four() {
    let mut buf = header(20240218);
    let mut rec = record(2, 1, 1, 64);
    set_seen(&mut rec, 77, 0);
    buf.extend_from_slice(&rec);
    let mut rec = record(3, 1, 1, 64);
    set_seen(&mut rec, -1, 55);
    buf.extend_from_slice(&rec);
    let aircraft = parse_bincraft_records(&buf).expect("decoded");
    assert_eq!(aircraft[0].last_seen_tenths_s, Some(77));
    assert_eq!(aircraft[1].last_seen_tenths_s, Some(55));
}

#[test]
fn track_wraps_into_one_turn() {
    let mut buf = header(20240218);
    let mut rec = record(4, 1, 1, 64);
    rec[74] = 8;
    rec[40..42].copy_from_slice(&i16::MIN.to_le_bytes());
    buf.extend_from_slice(&rec);
    let mut rec = record(5, 1, 1, 64);
    rec[74] = 8;
    rec[40..42].copy_from_slice(&32_500_i16.to_le_bytes());
    buf.extend_from_slice(&rec);
    let aircraft = parse_bincraft_records(&buf).expect("decoded");
    assert_eq!(aircraft[0].track_ninetieths_deg, Some(32032));
    assert_eq!(aircraft[1].track_ninetieths_deg, Some(100));
}

#[test]
fn freshest_first_orders_and_limits() {
    let make = |lat: i32, seen: Option<i32>| TrafficAircraft {
        hex: format!("{lat:06}"),
        flight: None,
        lat_microdeg: lat,
        lon_microdeg: 0,
        is_on_ground: false,
        altitude_feet: None,
        ground_speed_tenths_kt: None,
        track_ninetieths_deg: None,
        last_seen_tenths_s: seen,
    };
    let out = freshest_first(vec![make(1, None), make(2, Some(40)), make(3, Some(5)), make(4, Some(90))], 3);
    assert_eq!(out.iter().map(|a| a.lat_microdeg).collect::<Vec<_>>(), vec![3, 2, 4]);
    assert_eq!(freshest_first(vec![make(1, None)], 5).len(), 1);
}
