//! The source loader's decision logic: classifying an input by its file
//! extension, locating the PDF signature under leading garbage, and
//! assembling `SourceFile` values.  Reading files, byte-level parsing
//! and thumbnail rendering are the shell's work; this module only
//! decides and assembles.

use vstd::prelude::*;

use rand::Rng;
use rand::RngExt;

use crate::error::Error;
use crate::graph::page_ids;
use crate::model::{bytes_eq, graph_wf, DocumentGraph};
use crate::project::{Page, Source, SourceFile};
use crate::synth::{
    clamp1, embedded_raster, fits_portrait, synth_shape, synthesize_image_graph, target_height,
    target_width,
};
use vstd::string::StrSliceExecFns;
use vstd::string::StringExecFns;
use vstd::string::StringSliceAdditionalSpecFns;

verus! {

/// The five signature bytes every PDF starts with: `%PDF-`.
pub open spec fn pdf_signature() -> Seq<u8> {
    seq![37u8, 80u8, 68u8, 70u8, 45u8]
}

/// Whether the signature stands at position `i`.
pub open spec fn sig_at(b: Seq<u8>, i: int) -> bool {
    0 <= i && i + 5 <= b.len() && b.subrange(i, i + 5) == pdf_signature()
}

/// The position of the first PDF signature in the bytes, if any.
/// Leading garbage before the signature is tolerated; a byte stream
/// without the signature is no PDF.
#[verifier::loop_isolation(false)]
pub fn find_pdf_header(bytes: &Vec<u8>) -> (r: Option<usize>)
    ensures
        match r {
            Some(i) => sig_at(bytes@, i as int) && (forall|j: int| 0 <= j < i ==> !sig_at(bytes@, j)),
            None => forall|j: int| !sig_at(bytes@, j),
        },
{
    let n: usize = bytes.len();
    if n < 5 {
        return None;
    }
    let last: usize = n - 5;
    let mut i: usize = 0;
    while i <= last
        invariant
            0 <= i <= last + 1,
            last == n - 5,
            n == bytes@.len(),
            forall|j: int| 0 <= j < i ==> !sig_at(bytes@, j),
        decreases n - i,
    {
        if bytes[i] == 37 && bytes[i + 1] == 80 && bytes[i + 2] == 68 && bytes[i + 3] == 70
            && bytes[i + 4] == 45 {
            proof {
                assert(bytes@.subrange(i as int, i as int + 5) =~= pdf_signature());
            }
            return Some(i);
        }
        proof {
            assert(!sig_at(bytes@, i as int)) by {
                if sig_at(bytes@, i as int) {
                    assert(bytes@.subrange(i as int, i as int + 5)[0] == bytes@[i as int]);
                    assert(bytes@.subrange(i as int, i as int + 5)[1] == bytes@[i as int + 1]);
                    assert(bytes@.subrange(i as int, i as int + 5)[2] == bytes@[i as int + 2]);
                    assert(bytes@.subrange(i as int, i as int + 5)[3] == bytes@[i as int + 3]);
                    assert(bytes@.subrange(i as int, i as int + 5)[4] == bytes@[i as int + 4]);
                }
            }
        }
        i += 1;
    }
    proof {
        assert forall|j: int| true implies !sig_at(bytes@, j) by {
            if 0 <= j && j + 5 <= bytes@.len() {
                assert(j <= last);
                assert(j < i);
            }
        }
    }
    None
}

/// Where a path's extension starts, or `-1`: the position after the
/// last dot of the last path segment, provided that dot is not the
/// segment's first character.
pub open spec fn ext_start(b: Seq<u8>) -> int
    decreases b.len(),
{
    if b.len() == 0 {
        -1
    } else if b.last() == 47 {
        -1
    } else if b.last() == 46 {
        if b.len() >= 2 && b[b.len() - 2] != 47 {
            b.len() as int
        } else {
            -1
        }
    } else {
        ext_start(b.drop_last())
    }
}

/// Computes `ext_start` on a byte string.
#[verifier::loop_isolation(false)]
pub fn ext_start_x(b: &[u8]) -> (r: Option<usize>)
    ensures
        match r {
            Some(i) => ext_start(b@) == i as int && i <= b@.len(),
            None => ext_start(b@) == -1,
        },
{
    let n: usize = b.len();
    let mut i: usize = n;
    proof {
        assert(b@.take(n as int) =~= b@);
    }
    while i > 0
        invariant
            0 <= i <= n,
            n == b@.len(),
            ext_start(b@) == ext_start(b@.take(i as int)),
        decreases i,
    {
        let ghost prefix: Seq<u8> = b@.take(i as int);
        proof {
            assert(prefix.last() == b@[i - 1]);
            assert(prefix.drop_last() =~= b@.take(i as int - 1));
        }
        if b[i - 1] == 47 {
            return None;
        }
        if b[i - 1] == 46 {
            if i >= 2 && b[i - 2] != 47 {
                return Some(i);
            }
            return None;
        }
        i -= 1;
    }
    proof {
        assert(b@.take(0) =~= Seq::<u8>::empty());
    }
    None
}

/// A byte string with its ASCII letters in lower case.
pub open spec fn ascii_lower(b: Seq<u8>) -> Seq<u8> {
    Seq::new(b.len(), |i: int| if 65 <= b[i] <= 90 {
        (b[i] + 32) as u8
    } else {
        b[i]
    })
}

/// Copies a byte range with ASCII letters lowered.
#[verifier::loop_isolation(false)]
pub fn lower_range(b: &[u8], from: usize) -> (r: Vec<u8>)
    requires
        from <= b@.len(),
    ensures
        r@ == ascii_lower(b@.skip(from as int)),
{
    let n: usize = b.len();
    let mut out: Vec<u8> = Vec::new();
    let mut i: usize = from;
    while i < n
        invariant
            from <= i <= n,
            n == b@.len(),
            out@.len() == i - from,
            forall|j: int|
                0 <= j < out@.len() ==> #[trigger] out@[j] == ascii_lower(b@.skip(from as int))[j],
        decreases n - i,
    {
        let c: u8 = b[i];
        if 65 <= c && c <= 90 {
            out.push(c + 32);
        } else {
            out.push(c);
        }
        i += 1;
    }
    proof {
        assert(out@ =~= ascii_lower(b@.skip(from as int)));
    }
    out
}

#[verifier::external_type_specification]
#[verifier::external_body]
pub struct ExUtf8Error(core::str::Utf8Error);

/// Relies on `core::str::from_utf8`: a successful check hands the very
/// same bytes back as a string slice.
pub assume_specification<'a>[ core::str::from_utf8 ](v: &'a [u8]) -> (r: Result<
    &'a str,
    core::str::Utf8Error,
>)
    ensures
        r matches Ok(s) ==> s.spec_bytes() == v@,
;

/// What `ImageFormat::from_extension` recognizes: a function of the
/// extension alone, left unspecified under this name.
pub uninterp spec fn image_ext_of(e: Seq<u8>) -> bool;

/// Relies on the image library's `ImageFormat::from_extension`: whether
/// an extension names a known raster format depends on the extension
/// bytes alone.  Its match list plainly recognizes `jpg`, `jpeg` and
/// `png`, and knows neither `pdf` nor the empty extension.
#[verifier::external_body]
fn is_image_extension(ext: &[u8]) -> (r: bool)
    ensures
        r == image_ext_of(ext@),
        ext@ == "jpg".spec_bytes() ==> r,
        ext@ == "jpeg".spec_bytes() ==> r,
        ext@ == "png".spec_bytes() ==> r,
        ext@ == "pdf".spec_bytes() ==> !r,
        ext@ == Seq::<u8>::empty() ==> !r,
{
    match std::str::from_utf8(ext) {
        Ok(s) => image::ImageFormat::from_extension(s).is_some(),
        Err(_) => false,
    }
}

/// An ASCII letter or digit, as the opaque source tokens are made of.
pub open spec fn token_char(c: char) -> bool {
    ('0' <= c && c <= '9') || ('a' <= c && c <= 'z') || ('A' <= c && c <= 'Z')
}

/// Relies on rand's `Alphanumeric` distribution: exactly seven
/// characters are drawn, each an ASCII letter or digit.
#[verifier::external_body]
fn random_token() -> (r: String)
    ensures
        r@.len() == 7,
        forall|i: int| 0 <= i < r@.len() ==> token_char(#[trigger] r@[i]),
{
    rand::rng().sample_iter(&rand::distr::Alphanumeric).take(7).map(char::from).collect()
}

/// What kind of input a path names.
#[derive(Debug, Clone, Copy, PartialEq, Eq, Structural)]
pub enum SourceKind {
    Pdf,
    Image,
}

/// The bytes of the lowered extension of a path, where one exists.
pub open spec fn path_ext(b: Seq<u8>) -> Seq<u8> {
    ascii_lower(b.skip(ext_start(b)))
}

/// Classifies a path by its extension: `pdf` is a PDF, an extension the
/// image library knows is an image, anything else — a missing extension
/// included — is unsupported.
pub fn classify_source(path: &str) -> (r: Result<SourceKind, Error>)
    ensures
        ({
            let b = path.spec_bytes();
            &&& (ext_start(b) == -1 ==> (r matches Err(e) && e matches Error::UnsupportedSourceType(
                m,
            ) && m@ == "File has no extension: "@ + path@))
            &&& (ext_start(b) >= 0 && path_ext(b) == "pdf".spec_bytes() ==> r == Ok::<SourceKind, Error>(
                SourceKind::Pdf,
            ))
            &&& (ext_start(b) >= 0 && path_ext(b) != "pdf".spec_bytes() && image_ext_of(
                path_ext(b),
            ) ==> r == Ok::<SourceKind, Error>(SourceKind::Image))
            &&& (ext_start(b) >= 0 && path_ext(b) != "pdf".spec_bytes() && !image_ext_of(
                path_ext(b),
            ) ==> (r matches Err(e) && e matches Error::UnsupportedSourceType(m)
                && m@.len() >= "Unsupported file extension: "@.len() && m@.subrange(
                0,
                "Unsupported file extension: "@.len() as int,
            ) == "Unsupported file extension: "@))
        }),
{
    let bytes: &[u8] = path.as_bytes();
    match ext_start_x(bytes) {
        None => {
            let mut msg = String::from_str("File has no extension: ");
            msg.append(path);
            Err(Error::UnsupportedSourceType(msg))
        },
        Some(st) => {
            let ext = lower_range(bytes, st);
            let pdf_ext = "pdf".as_bytes_vec();
            if bytes_eq(ext.as_slice(), pdf_ext.as_slice()) {
                Ok(SourceKind::Pdf)
            } else if is_image_extension(ext.as_slice()) {
                Ok(SourceKind::Image)
            } else {
                // report the extension as matched, in lower case
                let mut msg = String::from_str("Unsupported file extension: ");
                match core::str::from_utf8(ext.as_slice()) {
                    Ok(sfx) => {
                        msg.append(sfx);
                    },
                    Err(_) => {
                        if path.is_char_boundary(st) {
                            let parts = path.split_at(st);
                            msg.append(parts.1);
                        }
                    },
                }
                proof {
                    assert(msg@.subrange(0, "Unsupported file extension: "@.len() as int)
                        =~= "Unsupported file extension: "@);
                }
                Err(Error::UnsupportedSourceType(msg))
            }
        },
    }
}

impl SourceFile {
    /// Assembles a source around an already parsed document graph.  The
    /// shell parses the bytes and renders the previews; the opaque token
    /// is drawn here.
    pub fn from_pdf_graph(path: &str, document: DocumentGraph, pages: Vec<Page>) -> (sf:
        SourceFile)
        requires
            graph_wf(document),
        ensures
            sf.document == document,
            sf.pages == pages,
            graph_wf(sf.document),
            (sf.source matches Source::PDF(p) && p@ == path@),
            sf.id@.len() == 7,
            forall|i: int| 0 <= i < sf.id@.len() ==> token_char(#[trigger] sf.id@[i]),
    {
        let id = random_token();
        SourceFile { id, source: Source::PDF(String::from_str(path)), document, pages }
    }

    /// Synthesizes a one-page source from a decoded raster: the image is
    /// embedded, never enlarged, on the A4 orientation that suits it.
    pub fn from_image(path: &str, rgba: &Vec<u8>, w: u32, h: u32) -> (r: (SourceFile, u32, u32))
        requires
            rgba@.len() == w as int * h as int * 4,
            1 <= w,
            1 <= h,
        ensures
            graph_wf(r.0.document),
            r.0.document.version@ == crate::names::nm_version_1_5(),
            page_ids(r.0.document).len() == 1,
            (r.0.source matches Source::Image(p) && p@ == path@),
            r.0.id@.len() == 7,
            forall|i: int| 0 <= i < r.0.id@.len() ==> token_char(#[trigger] r.0.id@[i]),
            r.0.pages@.len() == 0,
            r.1 as int == embedded_raster(rgba@, w as int, h as int).1,
            r.2 as int == embedded_raster(rgba@, w as int, h as int).2,
            1 <= r.1 <= w,
            1 <= r.2 <= h,
            fits_portrait(w as int, h as int) ==> r.1 == w && r.2 == h,
            !fits_portrait(w as int, h as int) ==> r.1 as int <= clamp1(
                target_width(w as int, h as int),
            ) && r.2 as int <= clamp1(target_height(w as int, h as int)),
            synth_shape(r.0.document, rgba@, w as int, h as int, r.1 as int, r.2 as int),
    {
        let id = random_token();
        let synth = synthesize_image_graph(rgba, w, h);
        let sf = SourceFile {
            id,
            source: Source::Image(String::from_str(path)),
            document: synth.0,
            pages: Vec::new(),
        };
        (sf, synth.1, synth.2)
    }
}

} // verus!
