//! Raster encoding: a text payload as a capacity-checked 2-D barcode,
//! rasterized module by module into a grayscale PNG byte stream.
//!
//! The payload is held as a single byte-mode segment at the medium
//! error-correction level, in the smallest symbol version whose capacity
//! fits it; the version search and the capacity arithmetic are verified
//! here, against the standard capacity table. Only building the symbol and
//! the PNG container come from outside libraries, behind trusted wrappers;
//! the pixel rasterization is verified too. The whole artifact is pinned to
//! a function of the payload bytes alone, so equal payloads give
//! byte-identical images.

use vstd::prelude::*;

verus! {

use vstd::arithmetic::div_mod::lemma_fundamental_div_mod_converse;
use vstd::string::StringSliceAdditionalSpecFns;

/// Why encoding failed.
#[derive(Clone, Copy, PartialEq, Eq, Structural, Debug)]
pub enum EncodingError {
    /// The payload exceeds the byte-mode capacity of the largest symbol
    /// version at the fixed error-correction level.
    PayloadTooLarge,
}

/// The byte-mode capacity, in bytes, of the largest symbol version at the
/// fixed medium error-correction level: 18672 data bits, less the 20-bit
/// byte-mode header, in whole bytes.
pub const MAX_PAYLOAD_BYTES: usize = 2331;

/// The data capacity, in bits, of symbol version `v` at the medium
/// error-correction level — ISO/IEC 18004 Table 7, as the qrcode crate
/// carries it.
pub open spec fn m_data_bits(v: int) -> int {
    if v == 1 {
        128
    } else if v == 2 {
        224
    } else if v == 3 {
        352
    } else if v == 4 {
        512
    } else if v == 5 {
        688
    } else if v == 6 {
        864
    } else if v == 7 {
        992
    } else if v == 8 {
        1232
    } else if v == 9 {
        1456
    } else if v == 10 {
        1728
    } else if v == 11 {
        2032
    } else if v == 12 {
        2320
    } else if v == 13 {
        2672
    } else if v == 14 {
        2920
    } else if v == 15 {
        3320
    } else if v == 16 {
        3624
    } else if v == 17 {
        4056
    } else if v == 18 {
        4504
    } else if v == 19 {
        5016
    } else if v == 20 {
        5352
    } else if v == 21 {
        5712
    } else if v == 22 {
        6256
    } else if v == 23 {
        6880
    } else if v == 24 {
        7312
    } else if v == 25 {
        8000
    } else if v == 26 {
        8496
    } else if v == 27 {
        9024
    } else if v == 28 {
        9544
    } else if v == 29 {
        10136
    } else if v == 30 {
        10984
    } else if v == 31 {
        11640
    } else if v == 32 {
        12328
    } else if v == 33 {
        13048
    } else if v == 34 {
        13800
    } else if v == 35 {
        14496
    } else if v == 36 {
        15312
    } else if v == 37 {
        15936
    } else if v == 38 {
        16816
    } else if v == 39 {
        17728
    } else {
        18672
    }
}

/// The bits one byte-mode segment of `n` bytes takes in version `v`: four
/// mode bits, a length field of eight bits up to version 9 and sixteen
/// above, and eight bits per byte.
pub open spec fn byte_mode_bits(v: int, n: int) -> int {
    if v <= 9 {
        12 + 8 * n
    } else {
        20 + 8 * n
    }
}

/// Whether a byte-mode payload of `n` bytes fits symbol version `v` at the
/// medium error-correction level.
pub open spec fn byte_mode_fits(v: int, n: int) -> bool {
    1 <= v <= 40 && byte_mode_bits(v, n) <= m_data_bits(v)
}

/// The smallest version from `v` upward that fits `n` payload bytes,
/// capped at 40.
pub open spec fn version_from(v: int, n: int) -> int
    decreases 40 - v,
{
    if v >= 40 {
        40
    } else if byte_mode_fits(v, n) {
        v
    } else {
        version_from(v + 1, n)
    }
}

/// The symbol version chosen for `n` payload bytes: the smallest that
/// fits (40 when none does, in which case encoding fails instead).
pub open spec fn chosen_version(n: int) -> int {
    version_from(1, n)
}

fn m_data_bits_exec(v: u8) -> (r: u16)
    requires
        1 <= v <= 40,
    ensures
        r as int == m_data_bits(v as int),
{
    match v {
        1 => 128,
        2 => 224,
        3 => 352,
        4 => 512,
        5 => 688,
        6 => 864,
        7 => 992,
        8 => 1232,
        9 => 1456,
        10 => 1728,
        11 => 2032,
        12 => 2320,
        13 => 2672,
        14 => 2920,
        15 => 3320,
        16 => 3624,
        17 => 4056,
        18 => 4504,
        19 => 5016,
        20 => 5352,
        21 => 5712,
        22 => 6256,
        23 => 6880,
        24 => 7312,
        25 => 8000,
        26 => 8496,
        27 => 9024,
        28 => 9544,
        29 => 10136,
        30 => 10984,
        31 => 11640,
        32 => 12328,
        33 => 13048,
        34 => 13800,
        35 => 14496,
        36 => 15312,
        37 => 15936,
        38 => 16816,
        39 => 17728,
        _ => 18672,
    }
}

proof fn lemma_fits_bounds_payload(v: int, n: int)
    requires
        byte_mode_fits(v, n),
    ensures
        n <= MAX_PAYLOAD_BYTES,
{
    if v <= 9 {
        assert(m_data_bits(v) <= 1456);
    } else {
        assert(m_data_bits(v) <= 18672);
    }
}

fn byte_mode_fits_exec(v: u8, n: usize) -> (r: bool)
    requires
        1 <= v <= 40,
    ensures
        r == byte_mode_fits(v as int, n as int),
{
    if n > MAX_PAYLOAD_BYTES {
        proof {
            if byte_mode_fits(v as int, n as int) {
                lemma_fits_bounds_payload(v as int, n as int);
            }
        }
        return false;
    }
    let header: u32 = if v <= 9 {
        12
    } else {
        20
    };
    let bits: u32 = header + 8 * (n as u32);
    bits <= m_data_bits_exec(v) as u32
}

/// Picks the smallest symbol version whose byte-mode capacity at the
/// medium error-correction level holds `n` payload bytes; `None` exactly
/// when not even the largest version does.
fn smallest_version(n: usize) -> (r: Option<u8>)
    ensures
        r matches Some(v) ==> {
            &&& 1 <= v <= 40
            &&& v as int == chosen_version(n as int)
            &&& byte_mode_fits(v as int, n as int)
            &&& forall|w: int| 1 <= w < v ==> !byte_mode_fits(w, n as int)
        },
        r is Some <==> n <= MAX_PAYLOAD_BYTES,
{
    let mut v: u8 = 1;
    while v <= 40
        invariant
            1 <= v <= 41,
            forall|w: int| 1 <= w < v ==> !byte_mode_fits(w, n as int),
            v <= 40 ==> chosen_version(n as int) == version_from(v as int, n as int),
        decreases 41 - v,
    {
        if byte_mode_fits_exec(v, n) {
            proof {
                assert(version_from(v as int, n as int) == v as int);
                lemma_fits_bounds_payload(v as int, n as int);
            }
            return Some(v);
        }
        proof {
            if v < 40 {
                assert(version_from(v as int, n as int) == version_from(v as int + 1, n as int));
            }
        }
        v = v + 1;
    }
    proof {
        assert(!byte_mode_fits(40, n as int));
        assert(m_data_bits(40) == 18672);
        assert(n > MAX_PAYLOAD_BYTES);
    }
    None
}

/// The module matrix (row-major, true meaning dark) of the symbol holding
/// a byte payload as one byte-mode segment at the given version and the
/// medium error-correction level; a function of version and payload alone.
pub uninterp spec fn qr_modules_of(version: int, data: Seq<u8>) -> Seq<bool>;

/// The PNG serialization of an 8-bit grayscale image with the given width,
/// height and row-major samples; a function of those three alone.
pub uninterp spec fn png_of(w: int, h: int, pixels: Seq<u8>) -> Seq<u8>;

/// Relies on `Bits::new`, `Bits::push_byte_data`, `Bits::push_terminator`,
/// `QrCode::with_bits`, `QrCode::width` and `QrCode::into_colors` of the
/// qrcode crate: the symbol is built from one byte-mode segment (four mode
/// bits, an eight-bit length up to version 9 and a sixteen-bit length
/// above, eight bits per byte) at the given version and the medium
/// error-correction level. When that fits the version's data capacity,
/// none of the calls fails: the length field holds the count, the
/// terminator check passes, and codeword construction is total for normal
/// versions. Masking is deterministic, so the module list is a function of
/// version and payload alone; it is square, its side four times the
/// version plus 17.
#[verifier::external_body]
fn qr_byte_mode_modules(version: u8, data: &[u8]) -> (r: (usize, Vec<bool>))
    requires
        byte_mode_fits(version as int, data@.len() as int),
    ensures
        r.0 as int == 4 * (version as int) + 17,
        r.1@ == qr_modules_of(version as int, data@),
        r.1@.len() == r.0 * r.0,
{
    let mut bits = qrcode::bits::Bits::new(qrcode::Version::Normal(version as i16));
    bits.push_byte_data(data).unwrap();
    bits.push_terminator(qrcode::EcLevel::M).unwrap();
    let code = qrcode::QrCode::with_bits(bits, qrcode::EcLevel::M).unwrap();
    let side = code.width();
    let modules = code.into_colors().into_iter().map(
        |c| matches!(c, qrcode::Color::Dark),
    ).collect();
    (side, modules)
}

/// Relies on `image::GrayImage::from_raw` and `ImageBuffer::write_to` of
/// the image crate: a sample buffer of exactly width times height bytes is
/// accepted, and PNG serialization of a well-formed grayscale image into an
/// in-memory cursor does no fallible device access, so its output is a
/// function of the image alone.
#[verifier::external_body]
fn png_gray(w: u32, h: u32, pixels: &Vec<u8>) -> (r: Vec<u8>)
    requires
        1 <= w <= 2048,
        1 <= h <= 2048,
        pixels@.len() == w * h,
    ensures
        r@ == png_of(w as int, h as int, pixels@),
{
    let image = image::GrayImage::from_raw(w, h, pixels.clone()).unwrap();
    let mut bytes: Vec<u8> = Vec::new();
    image.write_to(&mut std::io::Cursor::new(&mut bytes), image::ImageFormat::Png).unwrap();
    bytes
}

/// The raster width: the symbol plus a four-module quiet border on each
/// side, at eight pixels per module.
pub open spec fn raster_width(side: int) -> int {
    (side + 8) * 8
}

/// The grayscale sample at pixel (x, y): black inside a dark module, white
/// elsewhere, the quiet border included.
pub open spec fn pixel_at(side: int, modules: Seq<bool>, x: int, y: int) -> u8 {
    let mx = x / 8 - 4;
    let my = y / 8 - 4;
    if 0 <= mx < side && 0 <= my < side && modules[my * side + mx] {
        0u8
    } else {
        255u8
    }
}

/// The full raster, row-major.
pub open spec fn raster_of(side: int, modules: Seq<bool>) -> Seq<u8> {
    Seq::new(
        (raster_width(side) * raster_width(side)) as nat,
        |k: int| pixel_at(side, modules, k % raster_width(side), k / raster_width(side)),
    )
}

fn rasterize(side: usize, modules: &Vec<bool>) -> (r: (usize, Vec<u8>))
    requires
        21 <= side <= 177,
        modules@.len() == side * side,
    ensures
        r.0 as int == raster_width(side as int),
        r.1@ == raster_of(side as int, modules@),
{
    let w: usize = (side + 8) * 8;
    let ghost raster = raster_of(side as int, modules@);
    proof {
        assert(raster.len() == w * w);
        assert(raster.take(0) =~= Seq::<u8>::empty());
    }
    let mut pixels: Vec<u8> = Vec::new();
    let mut y: usize = 0;
    while y < w
        invariant
            21 <= side <= 177,
            modules@.len() == side * side,
            w == raster_width(side as int),
            raster == raster_of(side as int, modules@),
            raster.len() == w * w,
            y <= w,
            y * w <= w * w,
            pixels@ == raster.take((y * w) as int),
        decreases w - y,
    {
        proof {
            assert(y * w + w <= w * w) by (nonlinear_arith)
                requires
                    y < w,
                    0 <= y,
                    0 <= w,
            ;
        }
        let mut x: usize = 0;
        while x < w
            invariant
                21 <= side <= 177,
                modules@.len() == side * side,
                w == raster_width(side as int),
                raster == raster_of(side as int, modules@),
                raster.len() == w * w,
                y < w,
                x <= w,
                y * w + w <= w * w,
                pixels@ == raster.take((y * w + x) as int),
            decreases w - x,
        {
            let gx = x / 8;
            let gy = y / 8;
            let dark = if gx >= 4 && gy >= 4 && gx - 4 < side && gy - 4 < side {
                proof {
                    assert((gy - 4) * side + (gx - 4) < side * side <= 31329) by (nonlinear_arith)
                        requires
                            0 <= gy - 4 < side,
                            0 <= gx - 4 < side,
                            side <= 177,
                    ;
                }
                modules[(gy - 4) * side + (gx - 4)]
            } else {
                false
            };
            let sample: u8 = if dark {
                0
            } else {
                255
            };
            proof {
                let k: int = y * w + x;
                lemma_fundamental_div_mod_converse(k, w as int, y as int, x as int);
                assert(raster[k] == pixel_at(side as int, modules@, x as int, y as int));
                assert(sample == pixel_at(side as int, modules@, x as int, y as int));
                assert(raster.take(k + 1) =~= raster.take(k).push(raster[k]));
            }
            pixels.push(sample);
            x = x + 1;
        }
        y = y + 1;
        proof {
            assert(y * w == (y - 1) * w + w) by (nonlinear_arith);
        }
    }
    proof {
        assert(raster.take((w * w) as int) =~= raster);
    }
    (w, pixels)
}

/// The side of the symbol chosen for a byte payload.
pub open spec fn spec_side(data: Seq<u8>) -> int {
    4 * chosen_version(data.len() as int) + 17
}

/// The PNG artifact for a byte payload: the module matrix of the smallest
/// fitting version, rasterized, in the PNG container.
pub open spec fn spec_artifact(data: Seq<u8>) -> Seq<u8> {
    png_of(
        raster_width(spec_side(data)),
        raster_width(spec_side(data)),
        raster_of(spec_side(data), qr_modules_of(chosen_version(data.len() as int), data)),
    )
}

/// Law: encoding is deterministic. The artifact is a function of the
/// payload bytes alone — no timestamp, no randomized padding — so encoding
/// the same payload twice yields byte-identical images.
pub proof fn lemma_artifact_deterministic(d1: Seq<u8>, d2: Seq<u8>)
    requires
        d1 == d2,
    ensures
        spec_artifact(d1) == spec_artifact(d2),
{
}

/// Encodes a text payload as a grayscale PNG barcode, or reports that the
/// payload's UTF-8 form exceeds the byte-mode capacity of the largest
/// symbol version. The symbol is the smallest version that fits, and the
/// artifact is a function of the payload alone: equal payloads give
/// identical bytes.
pub fn make_qrcode(data: &str) -> (r: Result<Vec<u8>, EncodingError>)
    ensures
        r is Err <==> data.spec_bytes().len() > MAX_PAYLOAD_BYTES,
        r matches Err(e) ==> e == EncodingError::PayloadTooLarge,
        r matches Ok(png) ==> png@ == spec_artifact(data.spec_bytes()),
{
    let bytes: &[u8] = data.as_bytes();
    match smallest_version(bytes.len()) {
        Some(version) => {
            let (side, modules) = qr_byte_mode_modules(version, bytes);
            let (w, pixels) = rasterize(side, &modules);
            proof {
                assert(1 <= w <= 2048);
                assert(pixels@.len() == (w as u32) * (w as u32));
            }
            let png = png_gray(w as u32, w as u32, &pixels);
            Ok(png)
        },
        None => Err(EncodingError::PayloadTooLarge),
    }
}

} // verus!
