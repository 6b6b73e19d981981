//! The two reference codecs, end to end: the Null generator and the WBMP
//! bitmap format.

use image_coders::exception::{Exception, ExceptionInfo, ExceptionTag};
use image_coders::image::{BlobState, Image, ImageInfo, PixelTrait, VirtualPixels};
use image_coders::null::{read_null_image, write_null_image};
use image_coders::wbmp::{read_wbmp_image, write_wbmp_image};
use image_coders::{PixelInfo, Quantum};
use image_coders::{
    ALPHA_CHANNEL, BLUE_CHANNEL, CHANNELS, GREEN_CHANNEL, INDEX_CHANNEL, OPAQUE_ALPHA,
    QUANTUM_RANGE, RED_CHANNEL, TRANSPARENT_ALPHA,
};

fn pixel(r: u16, g: u16, b: u16, a: u16) -> PixelInfo {
    PixelInfo { red: Quantum(r), green: Quantum(g), blue: Quantum(b), alpha: Quantum(a) }
}

fn request(columns: usize, rows: usize, ping: bool, blob: Vec<u8>) -> ImageInfo {
    ImageInfo::new(columns, rows, pixel(11, 22, 33, 44), ping, blob)
}

fn slot(img: &Image, x: usize, y: usize, c: usize) -> u16 {
    img.pixels[(y * img.columns + x) * CHANNELS + c].0
}

/// A bilevel image whose pixel (x, y) is "on" exactly when
/// `bits[y][x]`, with an attached stream ready to be written.
fn bilevel_image(bits: &[Vec<bool>]) -> Image {
    let rows = bits.len();
    let columns = bits[0].len();
    let mut pixels: Vec<Quantum> = Vec::new();
    for row in bits {
        for &on in row {
            let v = if on { QUANTUM_RANGE } else { 0 };
            pixels.push(Quantum(v));
            pixels.push(Quantum(v));
            pixels.push(Quantum(v));
            pixels.push(Quantum(OPAQUE_ALPHA));
            pixels.push(Quantum(0));
        }
    }
    Image {
        columns,
        rows,
        background_color: pixel(0, 0, 0, OPAQUE_ALPHA),
        alpha_trait: PixelTrait::Undefined,
        colorspace: image_coders::image::Colorspace::SRGB,
        image_type: image_coders::image::ImageType::Undefined,
        ping: false,
        pixels,
        colormap: Vec::new(),
        blob: Vec::new(),
        blob_state: BlobState::Closed,
        progress: Vec::new(),
    }
}

// ---------------------------------------------------------------- Null

#[test]
fn null_decode_defaults_zero_columns_to_one() {
    let mut exc = ExceptionInfo::new();
    let info = request(0, 3, false, Vec::new());
    let img = read_null_image(&info, &mut exc).unwrap();
    assert_eq!(img.columns, 1);
    assert_eq!(img.rows, 3);
}

#[test]
fn null_decode_defaults_zero_rows_to_one() {
    let mut exc = ExceptionInfo::new();
    let info = request(4, 0, false, Vec::new());
    let img = read_null_image(&info, &mut exc).unwrap();
    assert_eq!(img.columns, 4);
    assert_eq!(img.rows, 1);
}

#[test]
fn null_decode_is_fully_transparent_background() {
    let mut exc = ExceptionInfo::new();
    let info = request(2, 2, false, Vec::new());
    let img = read_null_image(&info, &mut exc).unwrap();
    assert_eq!(img.alpha_trait, PixelTrait::Blend);
    assert_eq!(img.pixels.len(), 2 * 2 * CHANNELS);
    for y in 0..2 {
        for x in 0..2 {
            assert_eq!(slot(&img, x, y, RED_CHANNEL), 11);
            assert_eq!(slot(&img, x, y, GREEN_CHANNEL), 22);
            assert_eq!(slot(&img, x, y, BLUE_CHANNEL), 33);
            assert_eq!(slot(&img, x, y, ALPHA_CHANNEL), TRANSPARENT_ALPHA);
            assert_eq!(slot(&img, x, y, INDEX_CHANNEL), 0);
        }
    }
    assert!(exc.check().is_ok());
}

#[test]
fn null_encode_writes_nothing() {
    let mut exc = ExceptionInfo::new();
    let info = request(2, 1, false, Vec::new());
    let mut img = bilevel_image(&[vec![true, false]]);
    assert_eq!(write_null_image(&info, &mut img, &mut exc), Ok(()));
    assert!(img.blob.is_empty());
    assert!(exc.check().is_ok());
}

// ---------------------------------------------------------------- WBMP

#[test]
fn wbmp_decode_two_by_one() {
    // header = 0, width = 2, height = 1, one row byte with bits 1,1.
    let mut exc = ExceptionInfo::new();
    let info = request(0, 0, false, vec![0x00, 0x00, 0x02, 0x01, 0xc0]);
    let img = read_wbmp_image(&info, &mut exc).unwrap();
    assert_eq!(img.columns, 2);
    assert_eq!(img.rows, 1);
    assert_eq!(img.colormap.len(), 2);
    for x in 0..2 {
        assert_eq!(slot(&img, x, 0, INDEX_CHANNEL), 1, "pixel {} is foreground", x);
        assert_eq!(slot(&img, x, 0, RED_CHANNEL), QUANTUM_RANGE);
        assert_eq!(slot(&img, x, 0, GREEN_CHANNEL), QUANTUM_RANGE);
        assert_eq!(slot(&img, x, 0, BLUE_CHANNEL), QUANTUM_RANGE);
        assert_eq!(slot(&img, x, 0, ALPHA_CHANNEL), OPAQUE_ALPHA);
    }
    assert_eq!(img.progress, vec![(0, 1)]);
    assert!(exc.check().is_ok());
}

#[test]
fn wbmp_decode_mixed_bits() {
    // width = 3, height = 2; rows 1,0,1 and 0,1,0 pack as 0xa0, 0x40.
    let mut exc = ExceptionInfo::new();
    let info = request(0, 0, false, vec![0x00, 0x00, 0x03, 0x02, 0xa0, 0x40]);
    let img = read_wbmp_image(&info, &mut exc).unwrap();
    let expect = [[1u16, 0, 1], [0, 1, 0]];
    for y in 0..2 {
        for x in 0..3 {
            assert_eq!(slot(&img, x, y, INDEX_CHANNEL), expect[y][x]);
        }
    }
    assert_eq!(img.progress, vec![(0, 2), (1, 2)]);
}

#[test]
fn wbmp_decode_nonzero_header_is_coder_error() {
    let mut exc = ExceptionInfo::new();
    let info = request(0, 0, false, vec![0x01, 0x00, 0x02, 0x01, 0xc0]);
    assert!(read_wbmp_image(&info, &mut exc).is_err());
    let rec = exc.record.unwrap();
    assert_eq!(rec.kind, Exception::CoderError);
    assert_eq!(rec.tag, ExceptionTag::OnlyLevelZerofilesSupported);
}

#[test]
fn wbmp_decode_zero_width_is_corrupt_image() {
    let mut exc = ExceptionInfo::new();
    let info = request(0, 0, false, vec![0x00, 0x00, 0x00, 0x01, 0xc0]);
    assert!(read_wbmp_image(&info, &mut exc).is_err());
    let rec = exc.record.unwrap();
    assert_eq!(rec.kind, Exception::CorruptImageError);
    assert_eq!(rec.tag, ExceptionTag::ImproperImageHeader);
}

#[test]
fn wbmp_decode_zero_height_is_corrupt_image() {
    let mut exc = ExceptionInfo::new();
    let info = request(0, 0, false, vec![0x00, 0x00, 0x02, 0x00]);
    assert!(read_wbmp_image(&info, &mut exc).is_err());
    assert_eq!(exc.record.unwrap().tag, ExceptionTag::ImproperImageHeader);
}

#[test]
fn wbmp_decode_truncated_header_is_short_read() {
    for bytes in [vec![], vec![0x00], vec![0x00, 0x00], vec![0x00, 0x00, 0x02]] {
        let mut exc = ExceptionInfo::new();
        let info = request(0, 0, false, bytes);
        assert!(read_wbmp_image(&info, &mut exc).is_err());
        let rec = exc.record.unwrap();
        assert_eq!(rec.kind, Exception::CorruptImageError);
        assert_eq!(rec.tag, ExceptionTag::ShortRead);
    }
}

#[test]
fn wbmp_decode_truncated_rows_is_short_read() {
    // Declares 2 x 2 but carries only one row byte.
    let mut exc = ExceptionInfo::new();
    let info = request(0, 0, false, vec![0x00, 0x00, 0x02, 0x02, 0xc0]);
    assert!(read_wbmp_image(&info, &mut exc).is_err());
    assert_eq!(exc.record.unwrap().tag, ExceptionTag::ShortRead);
}

#[test]
fn wbmp_ping_decode_materializes_no_pixels() {
    // A probe needs only the header, not the pixel bytes.
    let mut exc = ExceptionInfo::new();
    let info = request(7, 9, true, vec![0x00, 0x00, 0x02, 0x01]);
    let img = read_wbmp_image(&info, &mut exc).unwrap();
    assert!(img.pixels.is_empty());
    assert!(img.progress.is_empty());
    assert!(exc.check().is_ok());
}

#[test]
fn wbmp_encode_two_by_one() {
    let mut exc = ExceptionInfo::new();
    let info = request(0, 0, false, Vec::new());
    let mut img = bilevel_image(&[vec![true, true]]);
    assert_eq!(write_wbmp_image(&info, &mut img, &mut exc), Ok(()));
    assert_eq!(img.blob, vec![0x00, 0x00, 0x02, 0x01, 0xc0]);
    assert_eq!(img.progress, vec![(0, 1)]);
    assert!(exc.check().is_ok());
}

#[test]
fn wbmp_encode_packs_rows_without_padding() {
    // 9 x 2: each row takes two bytes, the second padded with zeros.
    let bits: Vec<Vec<bool>> = vec![
        vec![true, false, true, false, true, false, true, false, true],
        vec![false, true, false, true, false, true, false, true, false],
    ];
    let mut exc = ExceptionInfo::new();
    let info = request(0, 0, false, Vec::new());
    let mut img = bilevel_image(&bits);
    assert_eq!(write_wbmp_image(&info, &mut img, &mut exc), Ok(()));
    assert_eq!(img.blob, vec![0x00, 0x00, 0x09, 0x02, 0xaa, 0x80, 0x55, 0x00]);
}

#[test]
fn wbmp_encode_then_decode_round_trips() {
    let bits: Vec<Vec<bool>> = vec![
        vec![true, false, false, true, true],
        vec![false, true, false, false, true],
        vec![true, true, true, false, false],
    ];
    let mut exc = ExceptionInfo::new();
    let info = request(0, 0, false, Vec::new());
    let mut img = bilevel_image(&bits);
    assert_eq!(write_wbmp_image(&info, &mut img, &mut exc), Ok(()));

    let mut exc2 = ExceptionInfo::new();
    let info2 = request(0, 0, false, img.blob.clone());
    let back = read_wbmp_image(&info2, &mut exc2).unwrap();
    assert_eq!(back.columns, 5);
    assert_eq!(back.rows, 3);
    for y in 0..3 {
        for x in 0..5 {
            let want = if bits[y][x] { 1 } else { 0 };
            assert_eq!(slot(&back, x, y, INDEX_CHANNEL), want, "bit at ({}, {})", x, y);
            let colour = if bits[y][x] { QUANTUM_RANGE } else { 0 };
            assert_eq!(slot(&back, x, y, RED_CHANNEL), colour);
        }
    }
}

#[test]
fn wbmp_encode_thresholds_gray_pixels() {
    // A mid-gray pixel below half range encodes as background; one at or
    // above half range encodes as foreground.
    let mut img = bilevel_image(&[vec![false, false]]);
    // Overwrite the two pixels with grays straddling the threshold.
    for c in 0..3 {
        img.pixels[c] = Quantum(32767);
        img.pixels[CHANNELS + c] = Quantum(32768);
    }
    let mut exc = ExceptionInfo::new();
    let info = request(0, 0, false, Vec::new());
    assert_eq!(write_wbmp_image(&info, &mut img, &mut exc), Ok(()));
    assert_eq!(img.blob, vec![0x00, 0x00, 0x02, 0x01, 0x40]);
}

#[test]
fn pixel_luma_uses_the_documented_weights() {
    let quantums = vec![
        Quantum(QUANTUM_RANGE),
        Quantum(0),
        Quantum(0),
        Quantum(OPAQUE_ALPHA),
        Quantum(0),
    ];
    let view = VirtualPixels { quantums, columns: 1, rows: 1 };
    assert_eq!(view.get_pixel_luma(0), 13936);
    let white = VirtualPixels {
        quantums: vec![
            Quantum(QUANTUM_RANGE),
            Quantum(QUANTUM_RANGE),
            Quantum(QUANTUM_RANGE),
            Quantum(OPAQUE_ALPHA),
            Quantum(0),
        ],
        columns: 1,
        rows: 1,
    };
    assert_eq!(white.get_pixel_luma(0), QUANTUM_RANGE);
}

#[test]
fn set_alpha_replaces_only_alpha() {
    let mut p = pixel(1, 2, 3, 4);
    p.set_alpha(Quantum(9));
    assert_eq!(p, pixel(1, 2, 3, 9));
}

#[test]
fn quantum_from_u8_widens() {
    assert_eq!(Quantum::from(0u8), Quantum(0));
    assert_eq!(Quantum::from(255u8), Quantum(255));
}
