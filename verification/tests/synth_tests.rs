//! Synthesizer tests: page orientation, downscaling, and the optional
//! soft mask, on rasters built in memory.

use pdf_rancher::graph::{collect_page_ids, graph_get};
use pdf_rancher::synth::synthesize_image_graph;
use pdf_rancher::{Dict, DocumentGraph, PdfObject};

fn page_dict(doc: &DocumentGraph) -> &Dict {
    let pages = collect_page_ids(doc);
    assert_eq!(1, pages.len());
    match graph_get(doc, pages[0]) {
        Some(PdfObject::Dictionary(d)) => d,
        _ => panic!("page object is not a dictionary"),
    }
}

fn media_box(doc: &DocumentGraph) -> (i64, i64) {
    let d = page_dict(doc);
    match d.get(b"MediaBox") {
        Some(PdfObject::Array(items)) => {
            assert_eq!(4, items.len());
            match (&items[2], &items[3]) {
                (PdfObject::Integer(w), PdfObject::Integer(h)) => (*w, *h),
                _ => panic!("media box entries are not integers"),
            }
        },
        _ => panic!("page has no media box"),
    }
}

/// The color image object's dictionary: the stream whose color space is
/// `DeviceRGB`.
fn image_dict(doc: &DocumentGraph) -> &Dict {
    for e in &doc.objects {
        if let PdfObject::Stream(s) = &e.obj {
            if let Some(PdfObject::Name(cs)) = s.dict.get(b"ColorSpace") {
                if cs.as_slice() == b"DeviceRGB" {
                    return &s.dict;
                }
            }
        }
    }
    panic!("no color image object found");
}

fn image_dims(doc: &DocumentGraph) -> (i64, i64) {
    let d = image_dict(doc);
    match (d.get(b"Width"), d.get(b"Height")) {
        (Some(PdfObject::Integer(w)), Some(PdfObject::Integer(h))) => (*w, *h),
        _ => panic!("image has no dimensions"),
    }
}

#[test]
fn test_small_image_is_embedded_unscaled_portrait() {
    let w = 300u32;
    let h = 200u32;
    // opaque pixels: every alpha byte is 255
    let mut rgba = vec![17u8; (w * h * 4) as usize];
    for i in 0..(w * h) as usize {
        rgba[4 * i + 3] = 255;
    }
    let (doc, rw, rh) = synthesize_image_graph(&rgba, w, h);
    assert_eq!((300, 200), (rw, rh));
    assert_eq!((595, 842), media_box(&doc));
    assert_eq!((300, 200), image_dims(&doc));
    // fully opaque: no soft mask
    assert!(image_dict(&doc).get(b"SMask").is_none());
}

#[test]
fn test_large_wide_image_is_downscaled_to_landscape() {
    let w = 4000u32;
    let h = 3000u32;
    let rgba = vec![128u8; (w * h * 4) as usize];
    let (doc, rw, rh) = synthesize_image_graph(&rgba, w, h);
    // A4 landscape
    assert_eq!((842, 595), media_box(&doc));
    // strictly downscaled, never enlarged
    assert!(rw < 4000 && rh < 3000);
    assert!(rw >= 1 && rh >= 1);
    assert_eq!((rw as i64, rh as i64), image_dims(&doc));
    // the aspect ratio survives within rounding
    let ratio = rw as f64 / rh as f64;
    assert!((ratio - 4.0 / 3.0).abs() < 0.01);
}

#[test]
fn test_tall_image_is_downscaled_to_portrait() {
    let w = 1000u32;
    let h = 2000u32;
    let rgba = vec![9u8; (w * h * 4) as usize];
    let (doc, rw, rh) = synthesize_image_graph(&rgba, w, h);
    assert_eq!((595, 842), media_box(&doc));
    assert!(rw <= 523 && rh <= 770);
    assert!(rw < 1000 && rh < 2000);
}

#[test]
fn test_transparent_image_carries_a_soft_mask() {
    let w = 10u32;
    let h = 10u32;
    let mut rgba = vec![255u8; (w * h * 4) as usize];
    rgba[3] = 128;  // one translucent pixel
    let (doc, _, _) = synthesize_image_graph(&rgba, w, h);
    let smask = image_dict(&doc).get(b"SMask");
    assert!(matches!(smask, Some(PdfObject::Reference(_))));
    // the mask object itself is a grayscale image of the same size
    if let Some(PdfObject::Reference(sid)) = smask {
        match graph_get(&doc, *sid) {
            Some(PdfObject::Stream(s)) => {
                assert!(matches!(s.dict.get(b"ColorSpace"), Some(PdfObject::Name(n)) if n.as_slice() == b"DeviceGray"));
                assert_eq!(100, s.content.len());
                assert_eq!(128, s.content[0]);
            },
            _ => panic!("soft mask is not a stream"),
        }
    }
}

#[test]
fn test_content_stream_places_the_image() {
    let w = 100u32;
    let h = 50u32;
    let rgba = vec![1u8; (w * h * 4) as usize];
    let (doc, _, _) = synthesize_image_graph(&rgba, w, h);
    let mut found = false;
    for e in &doc.objects {
        if let PdfObject::Stream(s) = &e.obj {
            if s.content.starts_with(b"q\n") {
                // top-left placement: x = margin, y = page height - margin - image height
                assert_eq!(b"q\n100 0 0 50 36 756 cm\n/Im0 Do\nQ\n".to_vec(), s.content);
                found = true;
            }
        }
    }
    assert!(found);
}
