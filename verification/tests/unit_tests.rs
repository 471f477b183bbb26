//! Small unit tests: rotations, selectors, previews, error messages and
//! the self-update failure codes.

use pdf_rancher::{License, Page, Rotation, Selector, UpdateError};

#[test]
fn test_as_rotation_maps_to_degrees() {
    assert_eq!(None, Rotation::R0.as_rotation());
    assert_eq!(Some(90), Rotation::R90.as_rotation());
    assert_eq!(Some(180), Rotation::R180.as_rotation());
    assert_eq!(Some(270), Rotation::R270.as_rotation());
}

#[test]
fn test_selector_new_defaults_to_no_rotation() {
    let s = Selector::new(2, 5);
    assert_eq!(2, s.source_file_index);
    assert_eq!(5, s.page_index);
    assert_eq!(Rotation::R0, s.rotation);
}

#[test]
fn test_page_reports_its_dimensions() {
    let p = Page::new(vec![1, 2, 3], (232, 300));
    assert_eq!(232, p.width());
    assert_eq!(300, p.height());
    assert_eq!(vec![1, 2, 3], p.preview_jpg);
}

#[test]
fn test_update_error_codes_are_stable() {
    assert_eq!(1, UpdateError::UpdateNotFound.code());
    assert_eq!(2, UpdateError::EmptyEndpoints.code());
    assert_eq!(28, UpdateError::Tauri.code());
    assert_eq!(99, UpdateError::Other.code());
}

#[test]
fn test_update_error_message_names_the_code() {
    assert_eq!(
        "Error performing self-update: 3",
        UpdateError::Io.message()
    );
    assert_eq!(
        "Error performing self-update: 99",
        UpdateError::Other.message()
    );
}

#[test]
fn test_license_keeps_its_fields() {
    let l = License::new(
        "tauri".to_string(),
        "https://github.com/tauri-apps/tauri".to_string(),
        "Apache-2.0 OR MIT".to_string(),
        "".to_string(),
    );
    assert_eq!("tauri", l.component);
    assert_eq!("https://github.com/tauri-apps/tauri", l.origin);
    assert_eq!("Apache-2.0 OR MIT", l.license);
}
