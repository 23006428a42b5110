use vstd::prelude::*;

use crate::bytes::{read_i16_be, read_u16_be, read_u32_be, signed16, u16_be_at, u32_be_at};
use crate::snapshot::GridDef;

verus! {

/// Packing of GRIB2 data template 5.41: the reference value as its IEEE bits,
/// the scale factors, and the number of packed values.
#[derive(Clone, Copy, Debug, PartialEq, Eq, Structural)]
pub struct GribPacking {
    pub reference_value_bits: u32,
    pub binary_scale_factor: i16,
    pub decimal_scale_factor: i16,
    pub data_point_count: u32,
}

/// Why a GRIB2 message was refused.
#[derive(Clone, Copy, Debug, PartialEq, Eq, Structural)]
pub enum GribError {
    /// The gzip stream did not decode.
    Gunzip,
    /// The message is shorter than its indicator section.
    TooSmall,
    /// The message does not start with `GRIB`.
    BadMagic,
    /// A section length is below five or runs past the message.
    BadSectionLength(u32),
    /// A field lies past the end of the message.
    Truncated,
    /// The grid is not template 3.0.
    UnsupportedGridTemplate(u16),
    /// A grid step (di or dj) is zero.
    ZeroGridStep,
    /// The packing is not template 5.41.
    UnsupportedDataTemplate(u16),
    /// No grid section.
    MissingGrid,
    /// No data representation section.
    MissingPacking,
    /// No data section.
    MissingData,
    /// A bitmap is present (indicator other than 255).
    UnsupportedBitmap(u8),
    /// The data section is not a PNG image that decodes.
    Png,
    /// The image size is not the grid size.
    GridMismatch,
    /// The image is neither 8-bit nor 16-bit.
    UnsupportedBitDepth(u8),
    /// The number of values is not the declared data point count.
    DataPointMismatch,
}

/// The sections of a message that the decoder uses; `data_start..data_end` is
/// the payload of section 7.
#[derive(Clone, Copy, Debug, PartialEq, Eq, Structural)]
pub struct GribWalk {
    pub grid: Option<GridDef>,
    pub packing: Option<GribPacking>,
    pub bitmap_indicator: u8,
    pub data_start: usize,
    pub data_end: usize,
    pub has_data: bool,
}

/// A decoded message: its grid, its packing, and the packed values in row order.
pub struct ParsedGrib {
    pub grid: GridDef,
    pub packing: GribPacking,
    pub values: Vec<u16>,
}

/// A grayscale frame as the PNG decoder hands it out.
pub struct PngFrame {
    pub width: u32,
    pub height: u32,
    pub bit_depth: u8,
    pub pixels: Vec<u8>,
}

pub uninterp spec fn gunzipped(zipped: Seq<u8>) -> Option<Seq<u8>>;

pub uninterp spec fn png_frame_of(data: Seq<u8>) -> Option<(u32, u32, u8, Seq<u8>)>;

/// Relies on flate2's `GzDecoder` read to the end: the inflated bytes, or a
/// failure, either of which depends on the input alone.
#[verifier::external_body]
fn gunzip(zipped: &[u8]) -> (r: Option<Vec<u8>>)
    ensures
        r is Some <==> gunzipped(zipped@) is Some,
        r matches Some(v) ==> gunzipped(zipped@) == Some(v@),
{
    let mut decoder = flate2::read::GzDecoder::new(std::io::Cursor::new(zipped));
    let mut out = Vec::new();
    std::io::Read::read_to_end(&mut decoder, &mut out).ok().map(|_| out)
}

/// Relies on png's `Decoder` with its default (identity) transformations: the
/// first frame's width, height, bit depth and its `buffer_size()` bytes, or a
/// failure, either of which depends on the input alone.
#[verifier::external_body]
fn decode_png(data: &[u8]) -> (r: Option<PngFrame>)
    ensures
        r is Some <==> png_frame_of(data@) is Some,
        r matches Some(f) ==> png_frame_of(data@) == Some((f.width, f.height, f.bit_depth, f.pixels@)),
{
    let mut reader = png::Decoder::new(std::io::Cursor::new(data)).read_info().ok()?;
    let mut buffer = vec![0_u8; reader.output_buffer_size()];
    let info = reader.next_frame(&mut buffer).ok()?;
    buffer.truncate(info.buffer_size());
    Some(PngFrame { width: info.width, height: info.height, bit_depth: info.bit_depth as u8, pixels: buffer })
}

/// A sign-and-magnitude 32-bit integer.
pub open spec fn sign_magnitude(raw: int) -> int {
    if raw >= 0x8000_0000 {
        -(raw - 0x8000_0000)
    } else {
        raw
    }
}

/// A longitude in millionths of a degree brought into [0, 360) degrees.
pub open spec fn lon360_micro(v: int) -> int {
    let m = v % 360_000_000;
    if m < 0 {
        m + 360_000_000
    } else {
        m
    }
}

/// The grid of the section 3 that starts at `p`.
pub open spec fn grid_section(b: Seq<u8>, p: int) -> Result<GridDef, GribError> {
    if p + 72 > b.len() {
        Err(GribError::Truncated)
    } else if u16_be_at(b, p + 12) != 0 {
        Err(GribError::UnsupportedGridTemplate(u16_be_at(b, p + 12) as u16))
    } else if u32_be_at(b, p + 63) == 0 || u32_be_at(b, p + 67) == 0 {
        Err(GribError::ZeroGridStep)
    } else {
        Ok(
            GridDef {
                nx: u32_be_at(b, p + 30) as u32,
                ny: u32_be_at(b, p + 34) as u32,
                la1_microdeg: sign_magnitude(u32_be_at(b, p + 46)) as i32,
                lo1_microdeg360: lon360_micro(sign_magnitude(u32_be_at(b, p + 50))) as u32,
                di_microdeg: u32_be_at(b, p + 63) as u32,
                dj_microdeg: u32_be_at(b, p + 67) as u32,
                scanning_mode: b[p + 71],
            },
        )
    }
}

/// The packing of the section 5 that starts at `p`.
pub open spec fn packing_section(b: Seq<u8>, p: int) -> Result<GribPacking, GribError> {
    if p + 20 > b.len() {
        Err(GribError::Truncated)
    } else if u16_be_at(b, p + 9) != 41 {
        Err(GribError::UnsupportedDataTemplate(u16_be_at(b, p + 9) as u16))
    } else {
        Ok(
            GribPacking {
                reference_value_bits: u32_be_at(b, p + 11) as u32,
                binary_scale_factor: signed16(u16_be_at(b, p + 15)) as i16,
                decimal_scale_factor: signed16(u16_be_at(b, p + 17)) as i16,
                data_point_count: u32_be_at(b, p + 5) as u32,
            },
        )
    }
}

pub open spec fn is_end_marker(b: Seq<u8>, p: int) -> bool {
    p + 4 <= b.len() && b[p] == 0x37 && b[p + 1] == 0x37 && b[p + 2] == 0x37 && b[p + 3] == 0x37
}

/// Walks the sections from `p` until the end marker or the end of the message.
pub open spec fn walk_sections(b: Seq<u8>, p: int, acc: GribWalk) -> Result<GribWalk, GribError>
    decreases b.len() - p,
{
    if p < 0 || p + 5 > b.len() || is_end_marker(b, p) {
        Ok(acc)
    } else {
        let len = u32_be_at(b, p);
        let number = b[p + 4];
        if len < 5 || p + len > b.len() {
            Err(GribError::BadSectionLength(len as u32))
        } else if number == 3 {
            match grid_section(b, p) {
                Ok(g) => walk_sections(b, p + len, GribWalk { grid: Some(g), ..acc }),
                Err(e) => Err(e),
            }
        } else if number == 5 {
            match packing_section(b, p) {
                Ok(k) => walk_sections(b, p + len, GribWalk { packing: Some(k), ..acc }),
                Err(e) => Err(e),
            }
        } else if number == 6 {
            if p + 5 >= b.len() {
                Err(GribError::Truncated)
            } else {
                walk_sections(b, p + len, GribWalk { bitmap_indicator: b[p + 5], ..acc })
            }
        } else if number == 7 {
            walk_sections(
                b,
                p + len,
                GribWalk { has_data: true, data_start: (p + 5) as usize, data_end: (p + len) as usize, ..acc },
            )
        } else {
            walk_sections(b, p + len, acc)
        }
    }
}

pub open spec fn initial_walk() -> GribWalk {
    GribWalk {
        grid: None,
        packing: None,
        bitmap_indicator: 255,
        data_start: 0,
        data_end: 0,
        has_data: false,
    }
}

/// What the section walk of a whole message yields.
pub open spec fn grib_sections(b: Seq<u8>) -> Result<GribWalk, GribError> {
    if b.len() < 20 {
        Err(GribError::TooSmall)
    } else if !(b[0] == 0x47 && b[1] == 0x52 && b[2] == 0x49 && b[3] == 0x42) {
        Err(GribError::BadMagic)
    } else {
        walk_sections(b, 16, initial_walk())
    }
}

fn read_grid_section(b: &Vec<u8>, p: usize) -> (r: Result<GridDef, GribError>)
    ensures
        r == grid_section(b@, p as int),
{
    if p > b.len() || b.len() - p < 72 {
        return Err(GribError::Truncated);
    }
    let template = read_u16_be(b.as_slice(), p + 12).unwrap_or(0);
    if template != 0 {
        return Err(GribError::UnsupportedGridTemplate(template));
    }
    let nx = read_u32_be(b.as_slice(), p + 30).unwrap_or(0);
    let ny = read_u32_be(b.as_slice(), p + 34).unwrap_or(0);
    let la1_raw = read_u32_be(b.as_slice(), p + 46).unwrap_or(0);
    let lo1_raw = read_u32_be(b.as_slice(), p + 50).unwrap_or(0);
    let la1: i64 = if la1_raw >= 0x8000_0000 {
        -((la1_raw - 0x8000_0000) as i64)
    } else {
        la1_raw as i64
    };
    let lo1: i64 = if lo1_raw >= 0x8000_0000 {
        -((lo1_raw - 0x8000_0000) as i64)
    } else {
        lo1_raw as i64
    };
    let m = lo1 % 360_000_000;
    let lo1_360 = if m < 0 {
        m + 360_000_000
    } else {
        m
    };
    let di = read_u32_be(b.as_slice(), p + 63).unwrap_or(0);
    let dj = read_u32_be(b.as_slice(), p + 67).unwrap_or(0);
    if di == 0 || dj == 0 {
        return Err(GribError::ZeroGridStep);
    }
    Ok(
        GridDef {
            nx,
            ny,
            la1_microdeg: la1 as i32,
            lo1_microdeg360: lo1_360 as u32,
            di_microdeg: di,
            dj_microdeg: dj,
            scanning_mode: b[p + 71],
        },
    )
}

fn read_packing_section(b: &Vec<u8>, p: usize) -> (r: Result<GribPacking, GribError>)
    ensures
        r == packing_section(b@, p as int),
{
    if p > b.len() || b.len() - p < 20 {
        return Err(GribError::Truncated);
    }
    let template = read_u16_be(b.as_slice(), p + 9).unwrap_or(0);
    if template != 41 {
        return Err(GribError::UnsupportedDataTemplate(template));
    }
    Ok(
        GribPacking {
            reference_value_bits: read_u32_be(b.as_slice(), p + 11).unwrap_or(0),
            binary_scale_factor: read_i16_be(b.as_slice(), p + 15).unwrap_or(0),
            decimal_scale_factor: read_i16_be(b.as_slice(), p + 17).unwrap_or(0),
            data_point_count: read_u32_be(b.as_slice(), p + 5).unwrap_or(0),
        },
    )
}

/// Walks the sections of a GRIB2 message from offset 16 to the `7777` marker,
/// checking each section length, and reads the grid (template 3.0), the
/// packing (template 5.41), the bitmap indicator and where the data lies.
pub fn walk_grib_sections(b: &Vec<u8>) -> (r: Result<GribWalk, GribError>)
    ensures
        r == grib_sections(b@),
{
    if b.len() < 20 {
        return Err(GribError::TooSmall);
    }
    if !(b[0] == 0x47 && b[1] == 0x52 && b[2] == 0x49 && b[3] == 0x42) {
        return Err(GribError::BadMagic);
    }
    let mut acc = GribWalk {
        grid: None,
        packing: None,
        bitmap_indicator: 255,
        data_start: 0,
        data_end: 0,
        has_data: false,
    };
    let mut p: usize = 16;
    loop
        invariant
            b@.len() >= 20,
            grib_sections(b@) == walk_sections(b@, 16, initial_walk()),
            16 <= p <= b@.len(),
            walk_sections(b@, p as int, acc) == walk_sections(b@, 16, initial_walk()),
        decreases b@.len() - p,
    {
        if b.len() - p < 5 {
            assert(walk_sections(b@, p as int, acc) == Ok::<GribWalk, GribError>(acc));
            return Ok(acc);
        }
        if b[p] == 0x37 && b[p + 1] == 0x37 && b[p + 2] == 0x37 && b[p + 3] == 0x37 {
            assert(is_end_marker(b@, p as int));
            assert(walk_sections(b@, p as int, acc) == Ok::<GribWalk, GribError>(acc));
            return Ok(acc);
        }
        assert(!is_end_marker(b@, p as int));
        let len = read_u32_be(b.as_slice(), p).unwrap_or(0);
        let number = b[p + 4];
        if len < 5 || len as usize > b.len() - p {
            assert(walk_sections(b@, p as int, acc) == Err::<GribWalk, GribError>(GribError::BadSectionLength(len)));
            return Err(GribError::BadSectionLength(len));
        }
        let next = p + len as usize;
        if number == 3 {
            match read_grid_section(b, p) {
                Ok(g) => {
                    acc = GribWalk { grid: Some(g), ..acc };
                },
                Err(e) => {
                    return Err(e);
                },
            }
        } else if number == 5 {
            match read_packing_section(b, p) {
                Ok(k) => {
                    acc = GribWalk { packing: Some(k), ..acc };
                },
                Err(e) => {
                    return Err(e);
                },
            }
        } else if number == 6 {
            if p + 5 >= b.len() {
                return Err(GribError::Truncated);
            }
            acc = GribWalk { bitmap_indicator: b[p + 5], ..acc };
        } else if number == 7 {
            acc = GribWalk { has_data: true, data_start: p + 5, data_end: next, ..acc };
        }
        p = next;
    }
}

/// The packed values of a grayscale frame: one per byte at 8 bits, one per
/// big-endian byte pair at 16 bits.
pub open spec fn frame_values(bit_depth: u8, pixels: Seq<u8>) -> Option<Seq<u16>> {
    if bit_depth == 8 {
        Some(pixels.map_values(|x: u8| x as u16))
    } else if bit_depth == 16 && pixels.len() % 2 == 0 {
        Some(Seq::new((pixels.len() / 2) as nat, |i: int| (256 * pixels[2 * i] + pixels[2 * i + 1]) as u16))
    } else {
        None
    }
}

/// Unpacks the pixels of a frame of the given depth; `None` for other depths or
/// an odd 16-bit buffer.
pub fn unpack_frame_values(bit_depth: u8, pixels: &Vec<u8>) -> (r: Option<Vec<u16>>)
    ensures
        match frame_values(bit_depth, pixels@) {
            Some(v) => r matches Some(x) && x@ == v,
            None => r is None,
        },
{
    let mut out: Vec<u16> = Vec::new();
    if bit_depth == 8 {
        let mut i: usize = 0;
        while i < pixels.len()
            invariant
                0 <= i <= pixels@.len(),
                out@ == pixels@.subrange(0, i as int).map_values(|x: u8| x as u16),
            decreases pixels@.len() - i,
        {
            out.push(pixels[i] as u16);
            i = i + 1;
            assert(out@ =~= pixels@.subrange(0, i as int).map_values(|x: u8| x as u16));
        }
        assert(pixels@.subrange(0, i as int) =~= pixels@);
        Some(out)
    } else if bit_depth == 16 && pixels.len() % 2 == 0 {
        let half = pixels.len() / 2;
        let mut i: usize = 0;
        while i < half
            invariant
                half == pixels.len() / 2,
                pixels@.len() % 2 == 0,
                0 <= i <= half,
                out@ == Seq::new(i as nat, |k: int| (256 * pixels@[2 * k] + pixels@[2 * k + 1]) as u16),
            decreases half - i,
        {
            out.push(256 * (pixels[2 * i] as u16) + pixels[2 * i + 1] as u16);
            i = i + 1;
            assert(out@ =~= Seq::new(i as nat, |k: int| (256 * pixels@[2 * k] + pixels@[2 * k + 1]) as u16));
        }
        Some(out)
    } else {
        None
    }
}

/// What the checks of a decoded frame against the grid and packing yield.
pub open spec fn frame_result(
    grid: GridDef,
    packing: GribPacking,
    width: u32,
    height: u32,
    depth: u8,
    pixels: Seq<u8>,
) -> Result<Seq<u16>, GribError> {
    if width != grid.nx || height != grid.ny {
        Err(GribError::GridMismatch)
    } else {
        match frame_values(depth, pixels) {
            None => Err(GribError::UnsupportedBitDepth(depth)),
            Some(v) => if v.len() != grid.nx as int * grid.ny as int {
                Err(GribError::GridMismatch)
            } else if v.len() != packing.data_point_count {
                Err(GribError::DataPointMismatch)
            } else {
                Ok(v)
            },
        }
    }
}

/// The packed values of a decoded frame, checked against the grid size and the
/// declared data point count.
pub fn values_from_frame(grid: &GridDef, packing: &GribPacking, frame: &PngFrame) -> (r: Result<Vec<u16>, GribError>)
    ensures
        match frame_result(*grid, *packing, frame.width, frame.height, frame.bit_depth, frame.pixels@) {
            Ok(v) => r matches Ok(x) && x@ == v,
            Err(e) => r == Err::<Vec<u16>, GribError>(e),
        },
{
    if frame.width != grid.nx || frame.height != grid.ny {
        return Err(GribError::GridMismatch);
    }
    let values = match unpack_frame_values(frame.bit_depth, &frame.pixels) {
        Some(v) => v,
        None => {
            return Err(GribError::UnsupportedBitDepth(frame.bit_depth));
        },
    };
    proof {
        assert(grid.nx as int * grid.ny as int <= 0xffff_ffff * 0xffff_ffff) by (nonlinear_arith)
            requires
                grid.nx <= 0xffff_ffff,
                grid.ny <= 0xffff_ffff,
        ;
        assert(grid.nx as int * grid.ny as int >= 0) by (nonlinear_arith);
    }
    if values.len() as u128 != grid.nx as u128 * grid.ny as u128 {
        return Err(GribError::GridMismatch);
    }
    if values.len() as u64 != packing.data_point_count as u64 {
        return Err(GribError::DataPointMismatch);
    }
    Ok(values)
}

/// The checks of a message up to its data section.
pub open spec fn grib_structure(b: Seq<u8>) -> Result<GribWalk, GribError> {
    match grib_sections(b) {
        Err(e) => Err(e),
        Ok(w) => if w.grid is None {
            Err(GribError::MissingGrid)
        } else if w.packing is None {
            Err(GribError::MissingPacking)
        } else if !w.has_data {
            Err(GribError::MissingData)
        } else if w.bitmap_indicator != 255 {
            Err(GribError::UnsupportedBitmap(w.bitmap_indicator))
        } else {
            Ok(w)
        },
    }
}

/// What decoding a whole message yields, once its data section has been
/// decoded as `png_frame_of` says.
pub open spec fn grib_result(b: Seq<u8>) -> Result<(GridDef, GribPacking, Seq<u16>), GribError> {
    match grib_structure(b) {
        Err(e) => Err(e),
        Ok(w) => {
            let grid = w.grid->0;
            let packing = w.packing->0;
            match png_frame_of(b.subrange(w.data_start as int, w.data_end as int)) {
                None => Err(GribError::Png),
                Some((width, height, depth, pixels)) => match frame_result(
                    grid,
                    packing,
                    width,
                    height,
                    depth,
                    pixels,
                ) {
                    Err(e) => Err(e),
                    Ok(v) => Ok((grid, packing, v)),
                },
            }
        },
    }
}

fn copy_range(b: &Vec<u8>, start: usize, end: usize) -> (r: Vec<u8>)
    requires
        start <= end <= b@.len(),
    ensures
        r@ == b@.subrange(start as int, end as int),
{
    let mut out: Vec<u8> = Vec::new();
    let mut i = start;
    while i < end
        invariant
            start <= i <= end,
            end <= b@.len(),
            out@ == b@.subrange(start as int, i as int),
        decreases end - i,
    {
        out.push(b[i]);
        i = i + 1;
        assert(out@ =~= b@.subrange(start as int, i as int));
    }
    out
}

proof fn lemma_walk_not_png(b: Seq<u8>, p: int, acc: GribWalk)
    ensures
        walk_sections(b, p, acc) != Err::<GribWalk, GribError>(GribError::Png),
    decreases b.len() - p,
{
    if p < 0 || p + 5 > b.len() || is_end_marker(b, p) {
    } else {
        let len = u32_be_at(b, p);
        let number = b[p + 4];
        if len < 5 || p + len > b.len() {
        } else if number == 3 {
            if let Ok(g) = grid_section(b, p) {
                lemma_walk_not_png(b, p + len, GribWalk { grid: Some(g), ..acc });
            }
        } else if number == 5 {
            if let Ok(k) = packing_section(b, p) {
                lemma_walk_not_png(b, p + len, GribWalk { packing: Some(k), ..acc });
            }
        } else if number == 6 {
            if p + 5 < b.len() {
                lemma_walk_not_png(b, p + len, GribWalk { bitmap_indicator: b[p + 5], ..acc });
            }
        } else if number == 7 {
            lemma_walk_not_png(
                b,
                p + len,
                GribWalk { has_data: true, data_start: (p + 5) as usize, data_end: (p + len) as usize, ..acc },
            );
        } else {
            lemma_walk_not_png(b, p + len, acc);
        }
    }
}

proof fn lemma_walk_data_range(b: Seq<u8>, p: int, acc: GribWalk)
    requires
        acc.has_data ==> acc.data_start <= acc.data_end <= b.len(),
        16 <= p,
        b.len() <= usize::MAX,
    ensures
        walk_sections(b, p, acc) matches Ok(w) ==> (w.has_data ==> w.data_start <= w.data_end <= b.len()),
    decreases b.len() - p,
{
    if p < 0 || p + 5 > b.len() || is_end_marker(b, p) {
    } else {
        let len = u32_be_at(b, p);
        let number = b[p + 4];
        if len < 5 || p + len > b.len() {
        } else if number == 3 {
            if let Ok(g) = grid_section(b, p) {
                lemma_walk_data_range(b, p + len, GribWalk { grid: Some(g), ..acc });
            }
        } else if number == 5 {
            if let Ok(k) = packing_section(b, p) {
                lemma_walk_data_range(b, p + len, GribWalk { packing: Some(k), ..acc });
            }
        } else if number == 6 {
            if p + 5 < b.len() {
                lemma_walk_data_range(b, p + len, GribWalk { bitmap_indicator: b[p + 5], ..acc });
            }
        } else if number == 7 {
            lemma_walk_data_range(
                b,
                p + len,
                GribWalk { has_data: true, data_start: (p + 5) as usize, data_end: (p + len) as usize, ..acc },
            );
        } else {
            lemma_walk_data_range(b, p + len, acc);
        }
    }
}

/// Decodes a GRIB2 message: the walk of its sections, the PNG image of its data
/// section, and the checks of image size, bit depth and value count.
pub fn parse_grib(b: &Vec<u8>) -> (r: Result<ParsedGrib, GribError>)
    ensures
        match grib_result(b@) {
            Ok(t) => r matches Ok(g) && (g.grid, g.packing, g.values@) == t,
            Err(e) => r == Err::<ParsedGrib, GribError>(e),
        },
{
    proof {
        lemma_walk_not_png(b@, 16, initial_walk());
    }
    let w = walk_grib_sections(b)?;
    proof {
        assert(b@.len() == b.len());
        lemma_walk_data_range(b@, 16, initial_walk());
    }
    let grid = match w.grid {
        Some(g) => g,
        None => {
            return Err(GribError::MissingGrid);
        },
    };
    let packing = match w.packing {
        Some(k) => k,
        None => {
            return Err(GribError::MissingPacking);
        },
    };
    if !w.has_data {
        return Err(GribError::MissingData);
    }
    if w.bitmap_indicator != 255 {
        return Err(GribError::UnsupportedBitmap(w.bitmap_indicator));
    }
    let data = copy_range(b, w.data_start, w.data_end);
    let frame = match decode_png(data.as_slice()) {
        Some(f) => f,
        None => {
            return Err(GribError::Png);
        },
    };
    let values = values_from_frame(&grid, &packing, &frame)?;
    Ok(ParsedGrib { grid, packing, values })
}

/// Inflates a gzipped GRIB2 message and decodes it.
pub fn parse_grib_gzipped(zipped: &[u8]) -> (r: Result<ParsedGrib, GribError>)
    ensures
        match gunzipped(zipped@) {
            None => r == Err::<ParsedGrib, GribError>(GribError::Gunzip),
            Some(m) => match grib_result(m) {
                Ok(t) => r matches Ok(g) && (g.grid, g.packing, g.values@) == t,
                Err(e) => r == Err::<ParsedGrib, GribError>(e),
            },
        },
{
    match gunzip(zipped) {
        Some(grib) => parse_grib(&grib),
        None => Err(GribError::Gunzip),
    }
}

} // verus!
