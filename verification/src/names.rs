//! The PDF names the engine reads and writes, as byte strings.
//!
//! Each name exists twice: a spec function giving its bytes as a sequence,
//! and an executable constructor returning those bytes as a vector.

use vstd::prelude::*;
use vstd::string::StrSliceExecFns;
use vstd::string::StringSliceAdditionalSpecFns;

verus! {

/// The bytes of the name `Type`.
pub open spec fn nm_type() -> Seq<u8> {
    seq![84u8, 121u8, 112u8, 101u8]
}

/// The name `Type` as a byte vector.
pub fn key_type() -> (v: Vec<u8>)
    ensures
        v@ == nm_type(),
{
    let v: Vec<u8> = "Type".as_bytes_vec();
    proof {
        reveal_strlit("Type");
        assert(vstd::string::is_ascii("Type"));
        vstd::string::is_ascii_spec_bytes("Type");
        assert(v@ =~= nm_type());
    }
    v
}

/// The bytes of the name `Pages`.
pub open spec fn nm_pages() -> Seq<u8> {
    seq![80u8, 97u8, 103u8, 101u8, 115u8]
}

/// The name `Pages` as a byte vector.
pub fn key_pages() -> (v: Vec<u8>)
    ensures
        v@ == nm_pages(),
{
    let v: Vec<u8> = "Pages".as_bytes_vec();
    proof {
        reveal_strlit("Pages");
        assert(vstd::string::is_ascii("Pages"));
        vstd::string::is_ascii_spec_bytes("Pages");
        assert(v@ =~= nm_pages());
    }
    v
}

/// The bytes of the name `Page`.
pub open spec fn nm_page() -> Seq<u8> {
    seq![80u8, 97u8, 103u8, 101u8]
}

/// The name `Page` as a byte vector.
pub fn key_page() -> (v: Vec<u8>)
    ensures
        v@ == nm_page(),
{
    let v: Vec<u8> = "Page".as_bytes_vec();
    proof {
        reveal_strlit("Page");
        assert(vstd::string::is_ascii("Page"));
        vstd::string::is_ascii_spec_bytes("Page");
        assert(v@ =~= nm_page());
    }
    v
}

/// The bytes of the name `Kids`.
pub open spec fn nm_kids() -> Seq<u8> {
    seq![75u8, 105u8, 100u8, 115u8]
}

/// The name `Kids` as a byte vector.
pub fn key_kids() -> (v: Vec<u8>)
    ensures
        v@ == nm_kids(),
{
    let v: Vec<u8> = "Kids".as_bytes_vec();
    proof {
        reveal_strlit("Kids");
        assert(vstd::string::is_ascii("Kids"));
        vstd::string::is_ascii_spec_bytes("Kids");
        assert(v@ =~= nm_kids());
    }
    v
}

/// The bytes of the name `Count`.
pub open spec fn nm_count() -> Seq<u8> {
    seq![67u8, 111u8, 117u8, 110u8, 116u8]
}

/// The name `Count` as a byte vector.
pub fn key_count() -> (v: Vec<u8>)
    ensures
        v@ == nm_count(),
{
    let v: Vec<u8> = "Count".as_bytes_vec();
    proof {
        reveal_strlit("Count");
        assert(vstd::string::is_ascii("Count"));
        vstd::string::is_ascii_spec_bytes("Count");
        assert(v@ =~= nm_count());
    }
    v
}

/// The bytes of the name `Parent`.
pub open spec fn nm_parent() -> Seq<u8> {
    seq![80u8, 97u8, 114u8, 101u8, 110u8, 116u8]
}

/// The name `Parent` as a byte vector.
pub fn key_parent() -> (v: Vec<u8>)
    ensures
        v@ == nm_parent(),
{
    let v: Vec<u8> = "Parent".as_bytes_vec();
    proof {
        reveal_strlit("Parent");
        assert(vstd::string::is_ascii("Parent"));
        vstd::string::is_ascii_spec_bytes("Parent");
        assert(v@ =~= nm_parent());
    }
    v
}

/// The bytes of the name `Rotate`.
pub open spec fn nm_rotate() -> Seq<u8> {
    seq![82u8, 111u8, 116u8, 97u8, 116u8, 101u8]
}

/// The name `Rotate` as a byte vector.
pub fn key_rotate() -> (v: Vec<u8>)
    ensures
        v@ == nm_rotate(),
{
    let v: Vec<u8> = "Rotate".as_bytes_vec();
    proof {
        reveal_strlit("Rotate");
        assert(vstd::string::is_ascii("Rotate"));
        vstd::string::is_ascii_spec_bytes("Rotate");
        assert(v@ =~= nm_rotate());
    }
    v
}

/// The bytes of the name `Root`.
pub open spec fn nm_root() -> Seq<u8> {
    seq![82u8, 111u8, 111u8, 116u8]
}

/// The name `Root` as a byte vector.
pub fn key_root() -> (v: Vec<u8>)
    ensures
        v@ == nm_root(),
{
    let v: Vec<u8> = "Root".as_bytes_vec();
    proof {
        reveal_strlit("Root");
        assert(vstd::string::is_ascii("Root"));
        vstd::string::is_ascii_spec_bytes("Root");
        assert(v@ =~= nm_root());
    }
    v
}

/// The bytes of the name `Outlines`.
pub open spec fn nm_outlines() -> Seq<u8> {
    seq![79u8, 117u8, 116u8, 108u8, 105u8, 110u8, 101u8, 115u8]
}

/// The name `Outlines` as a byte vector.
pub fn key_outlines() -> (v: Vec<u8>)
    ensures
        v@ == nm_outlines(),
{
    let v: Vec<u8> = "Outlines".as_bytes_vec();
    proof {
        reveal_strlit("Outlines");
        assert(vstd::string::is_ascii("Outlines"));
        vstd::string::is_ascii_spec_bytes("Outlines");
        assert(v@ =~= nm_outlines());
    }
    v
}

/// The bytes of the name `Outline`.
pub open spec fn nm_outline() -> Seq<u8> {
    seq![79u8, 117u8, 116u8, 108u8, 105u8, 110u8, 101u8]
}

/// The name `Outline` as a byte vector.
pub fn key_outline() -> (v: Vec<u8>)
    ensures
        v@ == nm_outline(),
{
    let v: Vec<u8> = "Outline".as_bytes_vec();
    proof {
        reveal_strlit("Outline");
        assert(vstd::string::is_ascii("Outline"));
        vstd::string::is_ascii_spec_bytes("Outline");
        assert(v@ =~= nm_outline());
    }
    v
}

/// The bytes of the name `Catalog`.
pub open spec fn nm_catalog() -> Seq<u8> {
    seq![67u8, 97u8, 116u8, 97u8, 108u8, 111u8, 103u8]
}

/// The name `Catalog` as a byte vector.
pub fn key_catalog() -> (v: Vec<u8>)
    ensures
        v@ == nm_catalog(),
{
    let v: Vec<u8> = "Catalog".as_bytes_vec();
    proof {
        reveal_strlit("Catalog");
        assert(vstd::string::is_ascii("Catalog"));
        vstd::string::is_ascii_spec_bytes("Catalog");
        assert(v@ =~= nm_catalog());
    }
    v
}

/// The bytes of the name `Filter`.
pub open spec fn nm_filter() -> Seq<u8> {
    seq![70u8, 105u8, 108u8, 116u8, 101u8, 114u8]
}

/// The name `Filter` as a byte vector.
pub fn key_filter() -> (v: Vec<u8>)
    ensures
        v@ == nm_filter(),
{
    let v: Vec<u8> = "Filter".as_bytes_vec();
    proof {
        reveal_strlit("Filter");
        assert(vstd::string::is_ascii("Filter"));
        vstd::string::is_ascii_spec_bytes("Filter");
        assert(v@ =~= nm_filter());
    }
    v
}

/// The bytes of the name `Length`.
pub open spec fn nm_length() -> Seq<u8> {
    seq![76u8, 101u8, 110u8, 103u8, 116u8, 104u8]
}

/// The name `Length` as a byte vector.
pub fn key_length() -> (v: Vec<u8>)
    ensures
        v@ == nm_length(),
{
    let v: Vec<u8> = "Length".as_bytes_vec();
    proof {
        reveal_strlit("Length");
        assert(vstd::string::is_ascii("Length"));
        vstd::string::is_ascii_spec_bytes("Length");
        assert(v@ =~= nm_length());
    }
    v
}

/// The bytes of the name `SMask`.
pub open spec fn nm_smask() -> Seq<u8> {
    seq![83u8, 77u8, 97u8, 115u8, 107u8]
}

/// The name `SMask` as a byte vector.
pub fn key_smask() -> (v: Vec<u8>)
    ensures
        v@ == nm_smask(),
{
    let v: Vec<u8> = "SMask".as_bytes_vec();
    proof {
        reveal_strlit("SMask");
        assert(vstd::string::is_ascii("SMask"));
        vstd::string::is_ascii_spec_bytes("SMask");
        assert(v@ =~= nm_smask());
    }
    v
}

/// The bytes of the name `Width`.
pub open spec fn nm_width() -> Seq<u8> {
    seq![87u8, 105u8, 100u8, 116u8, 104u8]
}

/// The name `Width` as a byte vector.
pub fn key_width() -> (v: Vec<u8>)
    ensures
        v@ == nm_width(),
{
    let v: Vec<u8> = "Width".as_bytes_vec();
    proof {
        reveal_strlit("Width");
        assert(vstd::string::is_ascii("Width"));
        vstd::string::is_ascii_spec_bytes("Width");
        assert(v@ =~= nm_width());
    }
    v
}

/// The bytes of the name `Height`.
pub open spec fn nm_height() -> Seq<u8> {
    seq![72u8, 101u8, 105u8, 103u8, 104u8, 116u8]
}

/// The name `Height` as a byte vector.
pub fn key_height() -> (v: Vec<u8>)
    ensures
        v@ == nm_height(),
{
    let v: Vec<u8> = "Height".as_bytes_vec();
    proof {
        reveal_strlit("Height");
        assert(vstd::string::is_ascii("Height"));
        vstd::string::is_ascii_spec_bytes("Height");
        assert(v@ =~= nm_height());
    }
    v
}

/// The bytes of the name `ColorSpace`.
pub open spec fn nm_colorspace() -> Seq<u8> {
    seq![67u8, 111u8, 108u8, 111u8, 114u8, 83u8, 112u8, 97u8, 99u8, 101u8]
}

/// The name `ColorSpace` as a byte vector.
pub fn key_colorspace() -> (v: Vec<u8>)
    ensures
        v@ == nm_colorspace(),
{
    let v: Vec<u8> = "ColorSpace".as_bytes_vec();
    proof {
        reveal_strlit("ColorSpace");
        assert(vstd::string::is_ascii("ColorSpace"));
        vstd::string::is_ascii_spec_bytes("ColorSpace");
        assert(v@ =~= nm_colorspace());
    }
    v
}

/// The bytes of the name `BitsPerComponent`.
pub open spec fn nm_bits_per_component() -> Seq<u8> {
    seq![66u8, 105u8, 116u8, 115u8, 80u8, 101u8, 114u8, 67u8, 111u8, 109u8, 112u8, 111u8, 110u8, 101u8, 110u8, 116u8]
}

/// The name `BitsPerComponent` as a byte vector.
pub fn key_bits_per_component() -> (v: Vec<u8>)
    ensures
        v@ == nm_bits_per_component(),
{
    let v: Vec<u8> = "BitsPerComponent".as_bytes_vec();
    proof {
        reveal_strlit("BitsPerComponent");
        assert(vstd::string::is_ascii("BitsPerComponent"));
        vstd::string::is_ascii_spec_bytes("BitsPerComponent");
        assert(v@ =~= nm_bits_per_component());
    }
    v
}

/// The bytes of the name `Subtype`.
pub open spec fn nm_subtype() -> Seq<u8> {
    seq![83u8, 117u8, 98u8, 116u8, 121u8, 112u8, 101u8]
}

/// The name `Subtype` as a byte vector.
pub fn key_subtype() -> (v: Vec<u8>)
    ensures
        v@ == nm_subtype(),
{
    let v: Vec<u8> = "Subtype".as_bytes_vec();
    proof {
        reveal_strlit("Subtype");
        assert(vstd::string::is_ascii("Subtype"));
        vstd::string::is_ascii_spec_bytes("Subtype");
        assert(v@ =~= nm_subtype());
    }
    v
}

/// The bytes of the name `XObject`.
pub open spec fn nm_xobject() -> Seq<u8> {
    seq![88u8, 79u8, 98u8, 106u8, 101u8, 99u8, 116u8]
}

/// The name `XObject` as a byte vector.
pub fn key_xobject() -> (v: Vec<u8>)
    ensures
        v@ == nm_xobject(),
{
    let v: Vec<u8> = "XObject".as_bytes_vec();
    proof {
        reveal_strlit("XObject");
        assert(vstd::string::is_ascii("XObject"));
        vstd::string::is_ascii_spec_bytes("XObject");
        assert(v@ =~= nm_xobject());
    }
    v
}

/// The bytes of the name `Image`.
pub open spec fn nm_image() -> Seq<u8> {
    seq![73u8, 109u8, 97u8, 103u8, 101u8]
}

/// The name `Image` as a byte vector.
pub fn key_image() -> (v: Vec<u8>)
    ensures
        v@ == nm_image(),
{
    let v: Vec<u8> = "Image".as_bytes_vec();
    proof {
        reveal_strlit("Image");
        assert(vstd::string::is_ascii("Image"));
        vstd::string::is_ascii_spec_bytes("Image");
        assert(v@ =~= nm_image());
    }
    v
}

/// The bytes of the name `DeviceRGB`.
pub open spec fn nm_device_rgb() -> Seq<u8> {
    seq![68u8, 101u8, 118u8, 105u8, 99u8, 101u8, 82u8, 71u8, 66u8]
}

/// The name `DeviceRGB` as a byte vector.
pub fn key_device_rgb() -> (v: Vec<u8>)
    ensures
        v@ == nm_device_rgb(),
{
    let v: Vec<u8> = "DeviceRGB".as_bytes_vec();
    proof {
        reveal_strlit("DeviceRGB");
        assert(vstd::string::is_ascii("DeviceRGB"));
        vstd::string::is_ascii_spec_bytes("DeviceRGB");
        assert(v@ =~= nm_device_rgb());
    }
    v
}

/// The bytes of the name `DeviceGray`.
pub open spec fn nm_device_gray() -> Seq<u8> {
    seq![68u8, 101u8, 118u8, 105u8, 99u8, 101u8, 71u8, 114u8, 97u8, 121u8]
}

/// The name `DeviceGray` as a byte vector.
pub fn key_device_gray() -> (v: Vec<u8>)
    ensures
        v@ == nm_device_gray(),
{
    let v: Vec<u8> = "DeviceGray".as_bytes_vec();
    proof {
        reveal_strlit("DeviceGray");
        assert(vstd::string::is_ascii("DeviceGray"));
        vstd::string::is_ascii_spec_bytes("DeviceGray");
        assert(v@ =~= nm_device_gray());
    }
    v
}

/// The bytes of the name `FlateDecode`.
pub open spec fn nm_flate_decode() -> Seq<u8> {
    seq![70u8, 108u8, 97u8, 116u8, 101u8, 68u8, 101u8, 99u8, 111u8, 100u8, 101u8]
}

/// The name `FlateDecode` as a byte vector.
pub fn key_flate_decode() -> (v: Vec<u8>)
    ensures
        v@ == nm_flate_decode(),
{
    let v: Vec<u8> = "FlateDecode".as_bytes_vec();
    proof {
        reveal_strlit("FlateDecode");
        assert(vstd::string::is_ascii("FlateDecode"));
        vstd::string::is_ascii_spec_bytes("FlateDecode");
        assert(v@ =~= nm_flate_decode());
    }
    v
}

/// The bytes of the name `Resources`.
pub open spec fn nm_resources() -> Seq<u8> {
    seq![82u8, 101u8, 115u8, 111u8, 117u8, 114u8, 99u8, 101u8, 115u8]
}

/// The name `Resources` as a byte vector.
pub fn key_resources() -> (v: Vec<u8>)
    ensures
        v@ == nm_resources(),
{
    let v: Vec<u8> = "Resources".as_bytes_vec();
    proof {
        reveal_strlit("Resources");
        assert(vstd::string::is_ascii("Resources"));
        vstd::string::is_ascii_spec_bytes("Resources");
        assert(v@ =~= nm_resources());
    }
    v
}

/// The bytes of the name `Contents`.
pub open spec fn nm_contents() -> Seq<u8> {
    seq![67u8, 111u8, 110u8, 116u8, 101u8, 110u8, 116u8, 115u8]
}

/// The name `Contents` as a byte vector.
pub fn key_contents() -> (v: Vec<u8>)
    ensures
        v@ == nm_contents(),
{
    let v: Vec<u8> = "Contents".as_bytes_vec();
    proof {
        reveal_strlit("Contents");
        assert(vstd::string::is_ascii("Contents"));
        vstd::string::is_ascii_spec_bytes("Contents");
        assert(v@ =~= nm_contents());
    }
    v
}

/// The bytes of the name `MediaBox`.
pub open spec fn nm_media_box() -> Seq<u8> {
    seq![77u8, 101u8, 100u8, 105u8, 97u8, 66u8, 111u8, 120u8]
}

/// The name `MediaBox` as a byte vector.
pub fn key_media_box() -> (v: Vec<u8>)
    ensures
        v@ == nm_media_box(),
{
    let v: Vec<u8> = "MediaBox".as_bytes_vec();
    proof {
        reveal_strlit("MediaBox");
        assert(vstd::string::is_ascii("MediaBox"));
        vstd::string::is_ascii_spec_bytes("MediaBox");
        assert(v@ =~= nm_media_box());
    }
    v
}

/// The bytes of the name `Im0`.
pub open spec fn nm_im0() -> Seq<u8> {
    seq![73u8, 109u8, 48u8]
}

/// The name `Im0` as a byte vector.
pub fn key_im0() -> (v: Vec<u8>)
    ensures
        v@ == nm_im0(),
{
    let v: Vec<u8> = "Im0".as_bytes_vec();
    proof {
        reveal_strlit("Im0");
        assert(vstd::string::is_ascii("Im0"));
        vstd::string::is_ascii_spec_bytes("Im0");
        assert(v@ =~= nm_im0());
    }
    v
}

/// The bytes of the version label `1.5`.
pub open spec fn nm_version_1_5() -> Seq<u8> {
    seq![49u8, 46u8, 53u8]
}

/// The version label `1.5` as a byte vector.
pub fn version_1_5_bytes() -> (v: Vec<u8>)
    ensures
        v@ == nm_version_1_5(),
{
    let v: Vec<u8> = "1.5".as_bytes_vec();
    proof {
        reveal_strlit("1.5");
        assert(vstd::string::is_ascii("1.5"));
        vstd::string::is_ascii_spec_bytes("1.5");
        assert(v@ =~= nm_version_1_5());
    }
    v
}

} // verus!
