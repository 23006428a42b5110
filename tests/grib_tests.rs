use std::io::Write;

use approach_viz::grib::{parse_grib, parse_grib_gzipped, walk_grib_sections, GribError};

fn png_gray8(width: u32, height: u32, pixels: &[u8]) -> Vec<u8> {
    let mut out = Vec::new();
    {
        let mut encoder = png::Encoder::new(&mut out, width, height);
        encoder.set_color(png::ColorType::Grayscale);
        encoder.set_depth(png::BitDepth::Eight);
        let mut writer = encoder.write_header().unwrap();
        writer.write_image_data(pixels).unwrap();
    }
    out
}

fn png_gray16(width: u32, height: u32, pixels: &[u8]) -> Vec<u8> {
    let mut out = Vec::new();
    {
        let mut encoder = png::Encoder::new(&mut out, width, height);
        encoder.set_color(png::ColorType::Grayscale);
        encoder.set_depth(png::BitDepth::Sixteen);
        let mut writer = encoder.write_header().unwrap();
        writer.write_image_data(pixels).unwrap();
    }
    out
}

fn message(nx: u32, ny: u32, count: u32, bitmap: u8, data_template: u16, png_bytes: &[u8]) -> Vec<u8> {
    let mut m = Vec::new();
    m.extend_from_slice(b"GRIB");
    m.extend_from_slice(&[0; 12]);
    let mut s3 = vec![0_u8; 72];
    s3[0..4].copy_from_slice(&72_u32.to_be_bytes());
    s3[4] = 3;
    s3[30..34].copy_from_slice(&nx.to_be_bytes());
    s3[34..38].copy_from_slice(&ny.to_be_bytes());
    s3[46..50].copy_from_slice(&(0x8000_0000_u32 | 20_000_000).to_be_bytes());
    s3[50..54].copy_from_slice(&(0x8000_0000_u32 | 75_000_000).to_be_bytes());
    s3[63..67].copy_from_slice(&10_000_u32.to_be_bytes());
    s3[67..71].copy_from_slice(&20_000_u32.to_be_bytes());
    s3[71] = 0x40;
    m.extend_from_slice(&s3);
    let mut s5 = vec![0_u8; 21];
    s5[0..4].copy_from_slice(&21_u32.to_be_bytes());
    s5[4] = 5;
    s5[5..9].copy_from_slice(&count.to_be_bytes());
    s5[9..11].copy_from_slice(&data_template.to_be_bytes());
    s5[11..15].copy_from_slice(&1.5_f32.to_bits().to_be_bytes());
    s5[15..17].copy_from_slice(&(-2_i16).to_be_bytes());
    s5[17..19].copy_from_slice(&1_i16.to_be_bytes());
    m.extend_from_slice(&s5);
    m.extend_from_slice(&[0, 0, 0, 6, 6, bitmap]);
    m.extend_from_slice(&((png_bytes.len() + 5) as u32).to_be_bytes());
    m.push(7);
    m.extend_from_slice(png_bytes);
    m.extend_from_slice(b"7777");
    m
}

#[test]
fn grib_png_8bit_message() {
    let msg = message(2, 2, 4, 255, 41, &png_gray8(2, 2, &[1, 2, 3, 4]));
    let parsed = parse_grib(&msg).expect("parsed");
    assert_eq!(parsed.values, vec![1, 2, 3, 4]);
    assert_eq!((parsed.grid.nx, parsed.grid.ny), (2, 2));
    assert_eq!(parsed.grid.la1_microdeg, -20_000_000);
    assert_eq!(parsed.grid.lo1_microdeg360, 285_000_000);
    assert_eq!(parsed.grid.di_microdeg, 10_000);
    assert_eq!(parsed.grid.dj_microdeg, 20_000);
    assert_eq!(parsed.grid.lat_step_microdeg(), 20_000);
    assert_eq!(parsed.packing.reference_value_bits, 1.5_f32.to_bits());
    assert_eq!(parsed.packing.binary_scale_factor, -2);
    assert_eq!(parsed.packing.decimal_scale_factor, 1);
    assert_eq!(parsed.packing.data_point_count, 4);
}

#[test]
fn grib_png_16bit_gzipped_message() {
    let msg = message(3, 1, 3, 255, 41, &png_gray16(3, 1, &[0x01, 0x02, 0xff, 0x00, 0x00, 0x07]));
    let mut encoder = flate2::write::GzEncoder::new(Vec::new(), flate2::Compression::default());
    encoder.write_all(&msg).unwrap();
    let zipped = encoder.finish().unwrap();
    let parsed = parse_grib_gzipped(&zipped).expect("parsed");
    assert_eq!(parsed.values, vec![0x0102, 0xff00, 0x0007]);
    assert_eq!(parse_grib_gzipped(&msg).err(), Some(GribError::Gunzip));
}

#[test]
fn grib_refusals() {
    let png_bytes = png_gray8(2, 2, &[1, 2, 3, 4]);
    assert_eq!(parse_grib(&message(2, 2, 4, 0, 41, &png_bytes)).err(), Some(GribError::UnsupportedBitmap(0)));
    assert_eq!(parse_grib(&message(2, 2, 4, 255, 40, &png_bytes)).err(), Some(GribError::UnsupportedDataTemplate(40)));
    assert_eq!(parse_grib(&message(3, 2, 4, 255, 41, &png_bytes)).err(), Some(GribError::GridMismatch));
    assert_eq!(parse_grib(&message(2, 2, 5, 255, 41, &png_bytes)).err(), Some(GribError::DataPointMismatch));
    assert_eq!(parse_grib(&message(2, 2, 4, 255, 41, &[1, 2, 3])).err(), Some(GribError::Png));
    assert_eq!(parse_grib(&b"GRIB".to_vec()).err(), Some(GribError::TooSmall));
    assert_eq!(parse_grib(&vec![0_u8; 40]).err(), Some(GribError::BadMagic));
    let mut flat = message(2, 2, 4, 255, 41, &png_bytes);
    flat[16 + 63..16 + 67].copy_from_slice(&0_u32.to_be_bytes());
    assert_eq!(parse_grib(&flat).err(), Some(GribError::ZeroGridStep));
    let mut bad = message(2, 2, 4, 255, 41, &png_bytes);
    bad[16..20].copy_from_slice(&4_u32.to_be_bytes());
    assert_eq!(walk_grib_sections(&bad).err(), Some(GribError::BadSectionLength(4)));
}
