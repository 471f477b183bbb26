//! Loader tests: extension classification, the PDF signature scan, and
//! source assembly from decoded rasters.

use pdf_rancher::loader::{classify_source, find_pdf_header};
use pdf_rancher::{Source, SourceFile, SourceKind};

#[test]
fn test_open_no_extension_returns_error() {
    let result = classify_source("test/potato");
    assert!(result.is_err());
    assert_eq!(
        "File has no extension: test/potato",
        result.unwrap_err().message()
    );
}

#[test]
fn test_classify_pdf_extension_any_case() {
    assert_eq!(SourceKind::Pdf, classify_source("test/basic.pdf").unwrap());
    assert_eq!(SourceKind::Pdf, classify_source("test/BASIC.PDF").unwrap());
}

#[test]
fn test_classify_image_extensions() {
    assert_eq!(SourceKind::Image, classify_source("a.jpg").unwrap());
    assert_eq!(SourceKind::Image, classify_source("b.JPEG").unwrap());
    assert_eq!(SourceKind::Image, classify_source("c.png").unwrap());
}

#[test]
fn test_classify_unknown_extension_errors() {
    let result = classify_source("notes.txt");
    assert!(result.is_err());
    assert_eq!(
        "Unsupported file extension: txt",
        result.unwrap_err().message()
    );
}

#[test]
fn test_classify_hidden_file_has_no_extension() {
    assert!(classify_source("dir/.hidden").is_err());
}

#[test]
fn test_find_pdf_header_at_start() {
    let bytes = b"%PDF-1.5 rest of the file".to_vec();
    assert_eq!(Some(0), find_pdf_header(&bytes));
}

#[test]
fn test_find_pdf_header_tolerates_leading_garbage() {
    let bytes = b"garbage\xff\x00junk%PDF-1.4 body".to_vec();
    assert_eq!(Some(13), find_pdf_header(&bytes));
}

#[test]
fn test_find_pdf_header_absent() {
    let bytes = b"this is not a portable document".to_vec();
    assert_eq!(None, find_pdf_header(&bytes));
}

#[test]
fn test_from_image_builds_a_one_page_source() {
    // a small opaque raster: embedded unscaled
    let w = 100u32;
    let h = 80u32;
    let rgba = vec![200u8; (w * h * 4) as usize];
    let (sf, rw, rh) = SourceFile::from_image("test/small-image.jpg", &rgba, w, h);
    assert_eq!(Source::Image("test/small-image.jpg".to_string()), sf.source);
    assert_eq!(7, sf.id.len());
    assert!(sf.id.chars().all(|c| c.is_ascii_alphanumeric()));
    assert_eq!(1, pdf_rancher::graph::collect_page_ids(&sf.document).len());
    assert_eq!((100, 80), (rw, rh));
}

#[test]
fn test_tokens_differ_between_sources() {
    let rgba = vec![1u8; 16];
    let (a, _, _) = SourceFile::from_image("x.png", &rgba, 2, 2);
    let (b, _, _) = SourceFile::from_image("x.png", &rgba, 2, 2);
    // seven random alphanumeric characters collide with negligible odds
    assert_ne!(a.id, b.id);
}

#[test]
fn test_classify_reports_the_lowered_extension() {
    let result = classify_source("scan.TIFX");
    assert!(result.is_err());
    assert_eq!(
        "Unsupported file extension: tifx",
        result.unwrap_err().message()
    );
}
