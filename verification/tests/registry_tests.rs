//! Registration, the format registry, and the decode/encode trampolines.

use image_coders::exception::{Exception, ExceptionInfo};
use image_coders::image::{BlobState, ImageInfo, PixelTrait};
use image_coders::null::{register_null_image, unregister_null_image};
use image_coders::registry::{
    dispatch_decode, dispatch_encode, CoderFlags, CoderId, FormatRegistry, FormatType,
    CODER_FLAGS_DEFAULT, CODER_FLAG_ADJOIN, CODER_FLAG_BLOB_SUPPORT, IMAGE_CODER_SIGNATURE,
};
use image_coders::wbmp::{register_wbmp_image, unregister_wbmp_image};
use image_coders::{PixelInfo, Quantum};

fn request(columns: usize, rows: usize, ping: bool, blob: Vec<u8>) -> ImageInfo {
    let bg = PixelInfo {
        red: Quantum(0),
        green: Quantum(0),
        blue: Quantum(0),
        alpha: Quantum(0),
    };
    ImageInfo::new(columns, rows, bg, ping, blob)
}

#[test]
fn registration_returns_the_signature_and_installs_entries() {
    let mut registry = FormatRegistry::new();
    assert_eq!(register_null_image(&mut registry), IMAGE_CODER_SIGNATURE);
    assert_eq!(register_wbmp_image(&mut registry), IMAGE_CODER_SIGNATURE);
    assert_eq!(registry.entries.len(), 2);

    let wbmp = registry.lookup(CoderId::Wbmp).unwrap();
    assert_eq!(wbmp.flags, CoderFlags(CODER_FLAGS_DEFAULT & !CODER_FLAG_ADJOIN));
    assert_eq!(wbmp.format_type, FormatType::Undefined);
    let null = registry.lookup(CoderId::Null).unwrap();
    assert_eq!(null.format_type, FormatType::Implicit);
}

#[test]
fn unregistration_is_idempotent() {
    let mut registry = FormatRegistry::new();
    let _ = register_null_image(&mut registry);
    let _ = register_wbmp_image(&mut registry);
    unregister_null_image(&mut registry);
    assert_eq!(registry.entries.len(), 1);
    assert!(registry.lookup(CoderId::Null).is_none());
    unregister_null_image(&mut registry);
    assert_eq!(registry.entries.len(), 1);
    unregister_wbmp_image(&mut registry);
    assert!(registry.entries.is_empty());
}

#[test]
fn coder_flags_operations() {
    let all = CoderFlags(CODER_FLAGS_DEFAULT);
    let adjoin = CoderFlags(CODER_FLAG_ADJOIN);
    assert!(all.contains(adjoin));
    let trimmed = all.difference(adjoin);
    assert!(!trimmed.contains(adjoin));
    assert!(trimmed.contains(CoderFlags(CODER_FLAG_BLOB_SUPPORT)));
    assert_eq!(trimmed.union(adjoin), all);
}

#[test]
fn decode_trampoline_hands_out_the_image_on_success() {
    let mut exc = ExceptionInfo::new();
    let info = request(2, 2, false, Vec::new());
    let img = dispatch_decode(CoderId::Null, &info, &mut exc).unwrap();
    assert_eq!(img.columns, 2);
    assert_eq!(img.alpha_trait, PixelTrait::Blend);
    assert!(exc.check().is_ok());
}

#[test]
fn decode_trampoline_returns_null_handle_with_exception_on_failure() {
    let mut exc = ExceptionInfo::new();
    let info = request(0, 0, false, vec![0x09, 0x00]);
    assert!(dispatch_decode(CoderId::Wbmp, &info, &mut exc).is_none());
    assert!(exc.check().is_err());
    assert_eq!(exc.record.unwrap().kind, Exception::CoderError);
}

#[test]
fn encode_trampoline_reports_success() {
    let mut exc = ExceptionInfo::new();
    let info = request(0, 0, false, Vec::new());
    // Encode the canvas the Null decoder produced.
    let mut img = dispatch_decode(CoderId::Null, &request(2, 1, false, Vec::new()), &mut exc)
        .unwrap();
    assert_eq!(img.blob_state, BlobState::Closed);
    assert!(dispatch_encode(CoderId::Wbmp, &info, &mut img, &mut exc));
    // A transparent background canvas is all background bits.
    assert_eq!(img.blob, vec![0x00, 0x00, 0x02, 0x01, 0x00]);
    assert!(exc.check().is_ok());
}
