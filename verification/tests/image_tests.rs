//! The handle wrappers and pixel-buffer views: extent, palette, region
//! views, the sync step, and the attached-stream discipline.

use image_coders::blob::BlobWriter;
use image_coders::exception::{Exception, ExceptionInfo, ExceptionTag};
use image_coders::image::{BlobMode, BlobState, Colorspace, Image, ImageInfo, ImageType};
use image_coders::{PixelInfo, Quantum};
use image_coders::{
    ALPHA_CHANNEL, BLUE_CHANNEL, CHANNELS, GREEN_CHANNEL, INDEX_CHANNEL, OPAQUE_ALPHA,
    QUANTUM_RANGE, RED_CHANNEL,
};

fn pixel(r: u16, g: u16, b: u16, a: u16) -> PixelInfo {
    PixelInfo { red: Quantum(r), green: Quantum(g), blue: Quantum(b), alpha: Quantum(a) }
}

fn fresh_image(columns: usize, rows: usize) -> Image {
    let mut exc = ExceptionInfo::new();
    let info = ImageInfo::new(columns, rows, pixel(5, 6, 7, 8), false, Vec::new());
    info.acquire_image(&mut exc).unwrap()
}

fn slot(img: &Image, x: usize, y: usize, c: usize) -> u16 {
    img.pixels[(y * img.columns + x) * CHANNELS + c].0
}

#[test]
fn acquire_image_copies_the_request() {
    let img = fresh_image(3, 4);
    assert_eq!(img.columns(), 3);
    assert_eq!(img.rows(), 4);
    assert_eq!(img.background_color(), pixel(5, 6, 7, 8));
    assert_eq!(img.num_channels(), CHANNELS);
    assert!(!img.is_ping());
    assert!(img.pixels.is_empty());
}

#[test]
fn set_extent_zero_fills_the_canvas() {
    let mut exc = ExceptionInfo::new();
    let mut img = fresh_image(1, 1);
    assert_eq!(img.set_extent(3, 2, &mut exc), Ok(()));
    assert_eq!(img.columns, 3);
    assert_eq!(img.rows, 2);
    assert_eq!(img.pixels.len(), 3 * 2 * CHANNELS);
    assert!(img.pixels.iter().all(|q| q.0 == 0));
}

#[test]
fn set_extent_rejects_an_oversized_canvas() {
    let mut exc = ExceptionInfo::new();
    let mut img = fresh_image(1, 1);
    assert_eq!(img.set_extent(usize::MAX, 2, &mut exc), Err(()));
    let rec = exc.record.unwrap();
    assert_eq!(rec.kind, Exception::ResourceLimitError);
    assert_eq!(rec.tag, ExceptionTag::MemoryAllocationFailed);
}

#[test]
fn acquire_colormap_builds_a_gray_ramp() {
    let mut exc = ExceptionInfo::new();
    let mut img = fresh_image(1, 1);
    assert_eq!(img.acquire_colormap(3, &mut exc), Ok(()));
    let grays: Vec<u16> = img.colormap.iter().map(|e| e.red.0).collect();
    assert_eq!(grays, vec![0, 32767, QUANTUM_RANGE]);
    assert!(img.colormap.iter().all(|e| {
        e.red == e.green && e.green == e.blue && e.alpha.0 == OPAQUE_ALPHA
    }));
}

#[test]
fn acquire_colormap_rejects_zero_entries() {
    let mut exc = ExceptionInfo::new();
    let mut img = fresh_image(1, 1);
    assert_eq!(img.acquire_colormap(0, &mut exc), Err(()));
    assert_eq!(exc.record.unwrap().tag, ExceptionTag::MemoryAllocationFailed);
}

#[test]
fn queued_region_commits_only_itself() {
    let mut exc = ExceptionInfo::new();
    let mut img = fresh_image(2, 2);
    img.set_extent(2, 2, &mut exc).unwrap();
    img.set_pixels_to_background_color(&mut exc).unwrap();
    // Write one pixel through a one-by-one view at (1, 0).
    let mut q = img.queue_authentic_pixels(1, 0, 1, 1, &mut exc).unwrap();
    q.set_pixel_from_info(0, &pixel(100, 101, 102, 103));
    img.sync_authentic_pixels(q, &mut exc).unwrap();
    assert_eq!(slot(&img, 1, 0, RED_CHANNEL), 100);
    assert_eq!(slot(&img, 1, 0, GREEN_CHANNEL), 101);
    assert_eq!(slot(&img, 1, 0, BLUE_CHANNEL), 102);
    assert_eq!(slot(&img, 1, 0, ALPHA_CHANNEL), 103);
    // The other three pixels still carry the background.
    for (x, y) in [(0, 0), (0, 1), (1, 1)] {
        assert_eq!(slot(&img, x, y, RED_CHANNEL), 5);
        assert_eq!(slot(&img, x, y, ALPHA_CHANNEL), 8);
    }
}

#[test]
fn queued_view_starts_as_a_snapshot() {
    let mut exc = ExceptionInfo::new();
    let mut img = fresh_image(2, 1);
    img.set_extent(2, 1, &mut exc).unwrap();
    img.set_pixels_to_background_color(&mut exc).unwrap();
    let q = img.queue_authentic_pixels(0, 0, 2, 1, &mut exc).unwrap();
    assert_eq!(q.quantums[RED_CHANNEL].0, 5);
    assert_eq!(q.quantums[CHANNELS + BLUE_CHANNEL].0, 7);
}

#[test]
fn set_pixel_index_touches_only_the_index_channel() {
    let mut exc = ExceptionInfo::new();
    let mut img = fresh_image(1, 1);
    img.set_extent(1, 1, &mut exc).unwrap();
    img.set_pixels_to_background_color(&mut exc).unwrap();
    let mut q = img.queue_authentic_pixels(0, 0, 1, 1, &mut exc).unwrap();
    q.set_pixel_index(0, Quantum(1));
    img.sync_authentic_pixels(q, &mut exc).unwrap();
    assert_eq!(slot(&img, 0, 0, INDEX_CHANNEL), 1);
    assert_eq!(slot(&img, 0, 0, RED_CHANNEL), 5);
}

#[test]
fn sync_applies_the_palette_and_clamps() {
    let mut exc = ExceptionInfo::new();
    let mut img = fresh_image(2, 1);
    img.set_extent(2, 1, &mut exc).unwrap();
    img.acquire_colormap(2, &mut exc).unwrap();
    let mut q = img.queue_authentic_pixels(0, 0, 2, 1, &mut exc).unwrap();
    q.set_pixel_index(0, Quantum(1));
    // An index past the palette is clamped to entry zero.
    q.set_pixel_index(1, Quantum(9));
    img.sync_authentic_pixels(q, &mut exc).unwrap();
    img.sync(&mut exc).unwrap();
    assert_eq!(slot(&img, 0, 0, RED_CHANNEL), QUANTUM_RANGE);
    assert_eq!(slot(&img, 0, 0, ALPHA_CHANNEL), OPAQUE_ALPHA);
    assert_eq!(slot(&img, 1, 0, RED_CHANNEL), 0);
}

#[test]
fn set_type_bilevel_thresholds_by_luminance() {
    let mut exc = ExceptionInfo::new();
    let mut img = fresh_image(1, 1);
    img.set_extent(1, 1, &mut exc).unwrap();
    // Pure green has luminance above half range; it becomes white.
    let mut q = img.queue_authentic_pixels(0, 0, 1, 1, &mut exc).unwrap();
    q.set_pixel_from_info(0, &pixel(0, QUANTUM_RANGE, 0, OPAQUE_ALPHA));
    img.sync_authentic_pixels(q, &mut exc).unwrap();
    img.set_type(ImageType::Bilevel, &mut exc).unwrap();
    assert_eq!(img.image_type, ImageType::Bilevel);
    assert_eq!(slot(&img, 0, 0, RED_CHANNEL), QUANTUM_RANGE);
    assert_eq!(slot(&img, 0, 0, BLUE_CHANNEL), QUANTUM_RANGE);
    assert_eq!(slot(&img, 0, 0, ALPHA_CHANNEL), OPAQUE_ALPHA);
}

#[test]
fn transform_colorspace_records_the_target_space() {
    let mut exc = ExceptionInfo::new();
    let mut img = fresh_image(1, 1);
    img.set_extent(1, 1, &mut exc).unwrap();
    assert_eq!(img.transform_colorspace(Colorspace::SRGB, &mut exc), Ok(()));
    assert_eq!(img.colorspace, Colorspace::SRGB);
}

#[test]
fn conform_pixel_info_keeps_the_channels() {
    let mut exc = ExceptionInfo::new();
    let mut img = fresh_image(1, 1);
    let source = pixel(9, 8, 7, 6);
    assert_eq!(img.conform_pixel_info(&source, &mut exc), Ok(source));
}

#[test]
fn blob_open_and_close_track_the_stream_state() {
    let mut exc = ExceptionInfo::new();
    let info = ImageInfo::new(1, 1, pixel(0, 0, 0, 0), false, vec![0xaa, 0xbb]);
    let mut img = info.acquire_image(&mut exc).unwrap();
    assert_eq!(img.blob_state, BlobState::Closed);

    let mut reader = img.open_blob_read(&info, BlobMode::Binary, &mut exc).unwrap();
    assert_eq!(img.blob_state, BlobState::OpenForRead);
    assert_eq!(reader.read_u8(&mut exc), Ok(0xaa));
    img.close_blob_read(reader);
    assert_eq!(img.blob_state, BlobState::Closed);

    let mut writer = img.open_blob_write(&info, BlobMode::Binary, &mut exc).unwrap();
    assert_eq!(img.blob_state, BlobState::OpenForWrite);
    writer.write_u8(0x42);
    img.close_blob_write(writer);
    assert_eq!(img.blob_state, BlobState::Closed);
    assert_eq!(img.blob, vec![0x42]);
}

#[test]
fn operations_refuse_to_act_once_a_failure_is_recorded() {
    let mut exc = ExceptionInfo::new();
    let _ = exc.throw(Exception::CorruptImageError, ExceptionTag::ShortRead, "earlier");
    let info = ImageInfo::new(1, 1, pixel(0, 0, 0, 0), false, Vec::new());
    assert!(info.acquire_image(&mut exc).is_err());
    let mut img = fresh_image(1, 1);
    assert_eq!(img.set_extent(1, 1, &mut exc), Err(()));
    assert!(img.pixels.is_empty());
}

#[test]
fn progress_reports_accumulate_in_order() {
    let mut img = fresh_image(1, 1);
    img.set_progress(0, 2);
    img.set_progress(1, 2);
    assert_eq!(img.progress, vec![(0, 2), (1, 2)]);
}

#[test]
fn blob_writer_starts_empty() {
    let w = BlobWriter::new();
    assert!(w.data.is_empty());
}
