//! The image-to-document synthesizer: builds a minimal one-page graph
//! from a decoded raster, choosing an A4 orientation, scaling without
//! ever enlarging, and embedding the pixels as an image object with an
//! optional soft mask for transparency.
//!
//! All size arithmetic is exact: a scale factor is a fraction, compared
//! by cross-multiplication, and a scaled length is rounded to the
//! nearest whole point.

use vstd::prelude::*;

use crate::model::{
    clone_bytes, dv, find_id, find_key, graph_wf, gv, ids_unique, obj_wf, ov, ovs, Dict,
    DocumentGraph, GraphEntry, ObjV, ObjectId, PdfObject, Stream,
};
use crate::names::{
    key_bits_per_component, key_colorspace, key_contents, key_count, key_device_gray,
    key_device_rgb, key_height, key_im0, key_image, key_kids, key_media_box, key_page, key_pages,
    key_parent, key_resources, key_root, key_smask, key_subtype, key_type, key_width, key_xobject,
    key_catalog, nm_catalog, nm_height, nm_image, nm_kids, nm_media_box, nm_page, nm_pages, nm_root,
    nm_smask, nm_subtype, nm_type, nm_version_1_5, nm_width, version_1_5_bytes,
};
use crate::text::{dec_digits, push_decimal};
use vstd::string::StrSliceExecFns;
use vstd::string::StringSliceAdditionalSpecFns;

verus! {

broadcast use crate::model::lemma_ovs_props, crate::model::lemma_evs_props;

/// Whether the raster fits the portrait content area without scaling.
pub open spec fn fits_portrait(w: int, h: int) -> bool {
    w <= 523 && h <= 770
}

/// Fraction comparison by cross-multiplication; denominators positive.
pub open spec fn rat_le(a: (int, int), b: (int, int)) -> bool {
    a.0 * b.1 <= b.0 * a.1
}

/// The scale one dimension asks for: one when it fits, else the exact
/// ratio of the content length to the raster length.
pub open spec fn dim_scale(c: int, v: int) -> (int, int) {
    if v <= c {
        (1, 1)
    } else {
        (c, v)
    }
}

/// The largest scale that fits the raster in a content area, capped at
/// one: the smaller of the two per-dimension scales.
pub open spec fn scale_for(cw: int, ch: int, w: int, h: int) -> (int, int) {
    let sw = dim_scale(cw, w);
    let sh = dim_scale(ch, h);
    if rat_le(sw, sh) {
        sw
    } else {
        sh
    }
}

/// A length scaled by a fraction, rounded to nearest.
pub open spec fn scaled(v: int, s: (int, int)) -> int {
    (2 * v * s.0 + s.1) / (2 * s.1)
}

/// The page size the synthesizer picks, in points: portrait when the
/// raster fits it unscaled; otherwise landscape for a wide raster whose
/// landscape scale is no worse, and whichever orientation scales better
/// for the rest, portrait on ties.
pub open spec fn page_choice(w: int, h: int) -> (int, int) {
    if fits_portrait(w, h) {
        (595, 842)
    } else {
        let sp = scale_for(523, 770, w, h);
        let sl = scale_for(770, 523, w, h);
        if w > h && rat_le(sp, sl) {
            (842, 595)
        } else if rat_le(sl, sp) {
            (595, 842)
        } else {
            (842, 595)
        }
    }
}

/// The scale that goes with `page_choice`.
pub open spec fn chosen_scale(w: int, h: int) -> (int, int) {
    if fits_portrait(w, h) {
        (1, 1)
    } else {
        let sp = scale_for(523, 770, w, h);
        let sl = scale_for(770, 523, w, h);
        if w > h && rat_le(sp, sl) {
            sl
        } else if rat_le(sl, sp) {
            sp
        } else {
            sl
        }
    }
}

/// A length clamped below at one, as the resampler's box arguments are.
pub open spec fn clamp1(v: int) -> int {
    if v < 1 {
        1
    } else {
        v
    }
}

/// The width the chosen scale asks the embedded image to have.
pub open spec fn target_width(w: int, h: int) -> int {
    scaled(w, chosen_scale(w, h))
}

/// The height the chosen scale asks the embedded image to have.
pub open spec fn target_height(w: int, h: int) -> int {
    scaled(h, chosen_scale(w, h))
}

/// The interleaved color bytes of an RGBA buffer.
pub open spec fn rgb_of(s: Seq<u8>) -> Seq<u8> {
    Seq::new(s.len() / 4 * 3, |i: int| s[i / 3 * 4 + i % 3])
}

/// The alpha bytes of an RGBA buffer.
pub open spec fn alpha_of(s: Seq<u8>) -> Seq<u8> {
    Seq::new(s.len() / 4, |i: int| s[4 * i + 3])
}

/// Whether any pixel is not fully opaque.
pub open spec fn has_alpha(s: Seq<u8>) -> bool {
    exists|i: int| 0 <= i < s.len() / 4 && #[trigger] s[4 * i + 3] != 255
}

/// What the image library's Lanczos resampling yields for a raster and
/// a target box: a buffer and its dimensions, depending on these
/// arguments alone.  The resampling is an outside algorithm; its result
/// is only named here.
pub uninterp spec fn resized_of(b: Seq<u8>, w: int, h: int, tw: int, th: int) -> (
    Seq<u8>,
    int,
    int,
);

/// The raster the synthesizer embeds: the input as it is when no
/// downscale is called for, the resampled raster otherwise.
pub open spec fn embedded_raster(b: Seq<u8>, w: int, h: int) -> (Seq<u8>, int, int) {
    if fits_portrait(w, h) {
        (b, w, h)
    } else if target_width(w, h) < w || target_height(w, h) < h {
        resized_of(b, w, h, clamp1(target_width(w, h)), clamp1(target_height(w, h)))
    } else {
        (b, w, h)
    }
}

/// A scale at most one never lengthens.
proof fn lemma_scaled_le(v: int, s: (int, int))
    requires
        0 <= v,
        1 <= s.1,
        0 <= s.0 <= s.1,
    ensures
        0 <= scaled(v, s) <= v,
{
    assert(2 * v * s.0 + s.1 < 2 * s.1 * (v + 1)) by (nonlinear_arith)
        requires
            0 <= v && 1 <= s.1 && 0 <= s.0 <= s.1,
    ;
    assert((2 * v * s.0 + s.1) / (2 * s.1) < v + 1) by {
        vstd::arithmetic::div_mod::lemma_multiply_divide_lt(2 * v * s.0 + s.1, 2 * s.1, v + 1);
    }
    assert(0 <= (2 * v * s.0 + s.1) / (2 * s.1)) by {
        vstd::arithmetic::div_mod::lemma_div_pos_is_pos(2 * v * s.0 + s.1, 2 * s.1);
    }
}

/// A scale that fits a content length keeps the scaled length inside it.
proof fn lemma_scaled_bound(v: int, s: (int, int), c: int)
    requires
        0 <= v,
        1 <= s.1,
        0 <= s.0,
        s.0 * v <= c * s.1,
        0 <= c,
    ensures
        scaled(v, s) <= c,
{
    assert(2 * v * s.0 + s.1 < 2 * s.1 * (c + 1)) by (nonlinear_arith)
        requires
            0 <= v && 1 <= s.1 && 0 <= s.0 && s.0 * v <= c * s.1 && 0 <= c,
    ;
    assert((2 * v * s.0 + s.1) / (2 * s.1) < c + 1) by {
        vstd::arithmetic::div_mod::lemma_multiply_divide_lt(2 * v * s.0 + s.1, 2 * s.1, c + 1);
    }
}

/// What the combined scale satisfies: a proper fraction that fits the
/// raster into the content area.
proof fn lemma_scale_for_props(cw: int, ch: int, w: int, h: int)
    requires
        1 <= cw,
        1 <= ch,
        1 <= w,
        1 <= h,
    ensures
        ({
            let s = scale_for(cw, ch, w, h);
            &&& 1 <= s.0 <= s.1
            &&& s.1 <= if w > h {
                w
            } else {
                h
            }
            &&& s.0 * w <= cw * s.1
            &&& s.0 * h <= ch * s.1
        }),
{
    let sw = dim_scale(cw, w);
    let sh = dim_scale(ch, h);
    let s = scale_for(cw, ch, w, h);
    assert(sw.0 * w <= cw * sw.1) by (nonlinear_arith)
        requires
            sw == dim_scale(cw, w) && 1 <= cw && 1 <= w,
    ;
    assert(sh.0 * h <= ch * sh.1) by (nonlinear_arith)
        requires
            sh == dim_scale(ch, h) && 1 <= ch && 1 <= h,
    ;
    if rat_le(sw, sh) {
        assert(s.0 * h <= ch * s.1) by (nonlinear_arith)
            requires
                s == sw && rat_le(sw, sh) && sh.0 * h <= ch * sh.1 && 1 <= sw.1 && 1 <= sh.1 && 0
                    <= sw.0 && 0 <= sh.0 && 1 <= h,
        ;
    } else {
        assert(s.0 * w <= cw * s.1) by (nonlinear_arith)
            requires
                s == sh && !rat_le(sw, sh) && sw.0 * w <= cw * sw.1 && 1 <= sw.1 && 1 <= sh.1 && 0
                    <= sw.0 && 0 <= sh.0 && 1 <= w,
        ;
    }
}

/// The content stream that paints the embedded image: scale it to its
/// displayed size and place it at the top-left of the margined area.
pub open spec fn cm_content(rw: nat, rh: nat, px: nat, py: nat) -> Seq<u8> {
    "q\n".spec_bytes() + dec_digits(rw) + " 0 0 ".spec_bytes() + dec_digits(rh)
        + " ".spec_bytes() + dec_digits(px) + " ".spec_bytes() + dec_digits(py)
        + " cm\n/Im0 Do\nQ\n".spec_bytes()
}

/// Computes `scale_for` on machine integers.
fn scale_exec(cw: u64, ch: u64, w: u64, h: u64) -> (r: (u64, u64))
    requires
        1 <= cw <= 1000,
        1 <= ch <= 1000,
        1 <= w <= u32::MAX,
        1 <= h <= u32::MAX,
    ensures
        (r.0 as int, r.1 as int) == scale_for(cw as int, ch as int, w as int, h as int),
        1 <= r.0 <= 1000,
        1 <= r.1 <= u32::MAX,
{
    let sw: (u64, u64) = if w <= cw {
        (1, 1)
    } else {
        (cw, w)
    };
    let sh: (u64, u64) = if h <= ch {
        (1, 1)
    } else {
        (ch, h)
    };
    proof {
        assert(sw.0 <= 1000 && sh.0 <= 1000);
        assert(sw.1 <= 0xffff_ffff && sh.1 <= 0xffff_ffff);
        assert(sw.0 * sh.1 <= 1000 * 0xffff_ffff && sh.0 * sw.1 <= 1000 * 0xffff_ffff)
            by (nonlinear_arith)
            requires
                0 <= sw.0 <= 1000 && 0 <= sh.0 <= 1000 && 0 <= sw.1 <= 0xffff_ffff && 0 <= sh.1
                    <= 0xffff_ffff,
        ;
    }
    if sw.0 * sh.1 <= sh.0 * sw.1 {
        sw
    } else {
        sh
    }
}

/// Splits an RGBA buffer into its color bytes and its alpha bytes, and
/// reports whether any pixel is not fully opaque.
#[verifier::loop_isolation(false)]
fn split_channels(rgba: &Vec<u8>, count: usize) -> (r: (Vec<u8>, Vec<u8>, bool))
    requires
        rgba@.len() == count * 4,
    ensures
        r.0@ == rgb_of(rgba@),
        r.1@ == alpha_of(rgba@),
        r.2 == has_alpha(rgba@),
{
    let total: usize = rgba.len();
    let mut rgb: Vec<u8> = Vec::new();
    let mut alpha: Vec<u8> = Vec::new();
    let mut any: bool = false;
    let mut i: usize = 0;
    while i < count
        invariant
            total == rgba@.len(),
            0 <= i <= count,
            rgb@.len() == 3 * i,
            alpha@.len() == i,
            forall|j: int| 0 <= j < 3 * i ==> #[trigger] rgb@[j] == rgba@[j / 3 * 4 + j % 3],
            forall|j: int| 0 <= j < i ==> #[trigger] alpha@[j] == rgba@[4 * j + 3],
            any == exists|j: int| 0 <= j < i && #[trigger] rgba@[4 * j + 3] != 255,
        decreases count - i,
    {
        proof {
            assert(4 * (i as int) + 3 < total as int) by (nonlinear_arith)
                requires
                    0 <= i < count && total as int == count * 4,
            ;
        }
        let base: usize = 4 * i;
        rgb.push(rgba[base]);
        rgb.push(rgba[base + 1]);
        rgb.push(rgba[base + 2]);
        let a: u8 = rgba[base + 3];
        alpha.push(a);
        proof {
            assert forall|j: int| 0 <= j < 3 * (i + 1) implies #[trigger] rgb@[j] == rgba@[j / 3
                * 4 + j % 3] by {
                if j >= 3 * i {
                    assert(j / 3 == i as int && (j % 3 == j - 3 * i)) by (nonlinear_arith)
                        requires
                            3 * i <= j < 3 * (i + 1),
                    ;
                }
            }
        }
        if a != 255 {
            any = true;
            proof {
                assert(rgba@[4 * (i as int) + 3] != 255);
            }
        }
        i += 1;
    }
    proof {
        assert(rgb@ =~= rgb_of(rgba@));
        assert(alpha@ =~= alpha_of(rgba@));
    }
    (rgb, alpha, any)
}

/// The structure a synthesized document shows, for an input raster `b`
/// of `w` by `h` pixels embedded at `rw` by `rh`: one page, sized by
/// `page_choice`, whose resources name the image object under `Im0` and
/// whose single content stream paints it at the top-left of the margined
/// area; the image stream carries exactly the embedded raster's color
/// bytes, and a soft mask with exactly its alpha bytes stands beside it
/// precisely when some pixel is not fully opaque.
pub open spec fn synth_shape(g: DocumentGraph, b: Seq<u8>, w: int, h: int, rw: int, rh: int) -> bool {
    &&& crate::graph::page_ids(g).len() == 1
    &&& (find_id(gv(g), crate::graph::page_ids(g)[0]) matches Some(ObjV::Dict(pg)) && {
        &&& (find_key(pg, nm_media_box()) matches Some(ObjV::Arr(mb)) && mb.len() == 4 && mb[0]
            == ObjV::Int(0) && mb[1] == ObjV::Int(0) && mb[2] == ObjV::Int(page_choice(w, h).0)
            && mb[3] == ObjV::Int(page_choice(w, h).1))
        &&& (find_key(pg, crate::names::nm_resources()) matches Some(ObjV::Dict(res)) && (find_key(
            res,
            crate::names::nm_xobject(),
        ) matches Some(ObjV::Dict(xo)) && (find_key(xo, crate::names::nm_im0()) matches Some(
            ObjV::Ref(iid),
        ) && (find_id(gv(g), iid) matches Some(ObjV::Stream(ie, ic, ia)) && {
            &&& find_key(ie, nm_subtype()) == Some(ObjV::Name(nm_image()))
            &&& find_key(ie, nm_width()) == Some(ObjV::Int(rw))
            &&& find_key(ie, nm_height()) == Some(ObjV::Int(rh))
            &&& ic == rgb_of(embedded_raster(b, w, h).0)
            &&& ((find_key(ie, nm_smask()) is Some) <==> has_alpha(embedded_raster(b, w, h).0))
            &&& (find_key(ie, nm_smask()) matches Some(sm) ==> (sm matches ObjV::Ref(sid) && (
            find_id(gv(g), sid) matches Some(ObjV::Stream(se, sc, sa)) && {
                &&& sc == alpha_of(embedded_raster(b, w, h).0)
                &&& find_key(se, nm_width()) == Some(ObjV::Int(rw))
                &&& find_key(se, nm_height()) == Some(ObjV::Int(rh))
                &&& find_key(se, crate::names::nm_colorspace()) == Some(
                    ObjV::Name(crate::names::nm_device_gray()),
                )
            })))
        }))))
        &&& (find_key(pg, crate::names::nm_contents()) matches Some(ObjV::Ref(cid)) && (find_id(
            gv(g),
            cid,
        ) matches Some(ObjV::Stream(ce, cc, ca)) && cc == cm_content(
            rw as nat,
            rh as nat,
            36,
            (page_choice(w, h).1 - 36 - rh) as nat,
        )))
    })
}

/// Builds a one-page document graph around a decoded RGBA raster and
/// returns it with the embedded image's pixel dimensions.  The image is
/// never enlarged: it is embedded as is when it fits the portrait
/// content area, and resampled to fit the chosen page otherwise.
#[verifier::loop_isolation(false)]
#[verifier::rlimit(100)]
pub fn synthesize_image_graph(rgba: &Vec<u8>, w: u32, h: u32) -> (r: (DocumentGraph, u32, u32))
    requires
        rgba@.len() == w as int * h as int * 4,
        1 <= w,
        1 <= h,
    ensures
        graph_wf(r.0),
        r.0.version@ == nm_version_1_5(),
        r.1 as int == embedded_raster(rgba@, w as int, h as int).1,
        r.2 as int == embedded_raster(rgba@, w as int, h as int).2,
        1 <= r.1 <= w,
        1 <= r.2 <= h,
        fits_portrait(w as int, h as int) ==> r.1 == w && r.2 == h,
        !fits_portrait(w as int, h as int) ==> r.1 as int <= clamp1(
            target_width(w as int, h as int),
        ) && r.2 as int <= clamp1(target_height(w as int, h as int)),
        synth_shape(r.0, rgba@, w as int, h as int, r.1 as int, r.2 as int),
{
    proof {
        assert(nm_type().len() == 4 && nm_type()[0] == 84);
        assert(nm_subtype().len() == 7 && nm_subtype()[0] == 83);
        assert(nm_width().len() == 5 && nm_width()[0] == 87);
        assert(nm_height().len() == 6 && nm_height()[0] == 72);
        assert(crate::names::nm_colorspace().len() == 10);
        assert(crate::names::nm_bits_per_component().len() == 16);
        assert(nm_smask().len() == 5 && nm_smask()[0] == 83);
        assert(nm_media_box().len() == 8 && nm_media_box()[0] == 77);
        assert(crate::names::nm_resources().len() == 9);
        assert(crate::names::nm_contents().len() == 8 && crate::names::nm_contents()[0] == 67);
        assert(crate::names::nm_parent().len() == 6 && crate::names::nm_parent()[0] == 80);
        assert(nm_kids().len() == 4 && nm_kids()[0] == 75);
        assert(crate::names::nm_count().len() == 5 && crate::names::nm_count()[0] == 67);
        assert(nm_pages().len() == 5 && nm_pages()[0] == 80);
        assert(nm_root().len() == 4 && nm_root()[0] == 82);
        assert(crate::names::nm_im0().len() == 3);
        assert(crate::names::nm_xobject().len() == 7 && crate::names::nm_xobject()[0] == 88);
    }
    let ghost emb: (Seq<u8>, int, int) = embedded_raster(rgba@, w as int, h as int);
    let wi: u64 = w as u64;
    let hi: u64 = h as u64;
    let fits: bool = wi <= 523 && hi <= 770;
    // the chosen page, and the image, downscaled when it must be
    let mut pw: u64 = 595;
    let mut ph: u64 = 842;
    let buf: Vec<u8>;
    let rw: u32;
    let rh: u32;
    if fits {
        buf = clone_bytes(rgba);
        rw = w;
        rh = h;
        proof {
            assert((buf@, rw as int, rh as int) == emb);
        }
    } else {
        let sp = scale_exec(523, 770, wi, hi);
        let sl = scale_exec(770, 523, wi, hi);
        proof {
            lemma_scale_for_props(523, 770, w as int, h as int);
            lemma_scale_for_props(770, 523, w as int, h as int);
        }
        proof {
            assert(sp.0 * sl.1 <= 1000 * 0xffff_ffff && sl.0 * sp.1 <= 1000 * 0xffff_ffff
                && sl.0 * sp.1 >= 0 && sp.0 * sl.1 >= 0) by (nonlinear_arith)
                requires
                    1 <= sp.0 <= 1000 && 1 <= sl.0 <= 1000 && 1 <= sp.1 <= 0xffff_ffff && 1
                        <= sl.1 <= 0xffff_ffff,
            ;
        }
        let s: (u64, u64);
        if wi > hi && sp.0 * sl.1 <= sl.0 * sp.1 {
            pw = 842;
            ph = 595;
            s = sl;
        } else if sl.0 * sp.1 <= sp.0 * sl.1 {
            s = sp;
        } else {
            pw = 842;
            ph = 595;
            s = sl;
        }
        proof {
            assert((s.0 as int, s.1 as int) == chosen_scale(w as int, h as int));
            assert((pw as int, ph as int) == page_choice(w as int, h as int));
            lemma_scaled_le(w as int, (s.0 as int, s.1 as int));
            lemma_scaled_le(h as int, (s.0 as int, s.1 as int));
            lemma_scaled_bound(w as int, (s.0 as int, s.1 as int), pw as int - 72);
            lemma_scaled_bound(h as int, (s.0 as int, s.1 as int), ph as int - 72);
        }
        proof {
            assert(2 * wi * s.0 + s.1 <= 0x1f4_0000_0000_0000) by (nonlinear_arith)
                requires
                    wi <= 0xffff_ffff && 1 <= s.0 <= 1000 && 1 <= s.1 <= 0xffff_ffff,
            ;
            assert(2 * hi * s.0 + s.1 <= 0x1f4_0000_0000_0000) by (nonlinear_arith)
                requires
                    hi <= 0xffff_ffff && 1 <= s.0 <= 1000 && 1 <= s.1 <= 0xffff_ffff,
            ;
        }
        let tw: u64 = (2 * wi * s.0 + s.1) / (2 * s.1);
        let th: u64 = (2 * hi * s.0 + s.1) / (2 * s.1);
        proof {
            assert(tw as int == target_width(w as int, h as int));
            assert(th as int == target_height(w as int, h as int));
        }
        if tw < wi || th < hi {
            let tw32: u32 = if tw == 0 {
                1
            } else {
                tw as u32
            };
            let th32: u32 = if th == 0 {
                1
            } else {
                th as u32
            };
            proof {
                assert(tw32 as int == clamp1(target_width(w as int, h as int)));
                assert(th32 as int == clamp1(target_height(w as int, h as int)));
            }
            let resized = resize_rgba(rgba, w, h, tw32, th32);
            buf = resized.0;
            rw = resized.1;
            rh = resized.2;
            proof {
                assert((buf@, rw as int, rh as int) == emb);
            }
        } else {
            buf = clone_bytes(rgba);
            rw = w;
            rh = h;
            proof {
                assert((buf@, rw as int, rh as int) == emb);
            }
        }
    }
    proof {
        assert((buf@, rw as int, rh as int) == emb);
        assert((pw as int, ph as int) == page_choice(w as int, h as int));
        assert(1 <= rw <= w && 1 <= rh <= h);
        assert(rh as int <= ph as int - 72);
        assert(buf@.len() == rw as int * rh as int * 4);
    }
    let blen: usize = buf.len();
    let count: usize = blen / 4;
    proof {
        assert(count == rw as int * rh as int && blen == count * 4) by (nonlinear_arith)
            requires
                blen == rw as int * rh as int * 4 && count == blen as int / 4 && rw >= 0 && rh
                    >= 0,
        ;
    }
    let channels = split_channels(&buf, count);
    let rgb = channels.0;
    let alpha = channels.1;
    let any_alpha = channels.2;
    let pos_y: u64 = ph - 36 - rh as u64;
    // the object graph, identifiers dense from one
    let mut objs: Vec<GraphEntry> = Vec::new();
    let mut next: u32 = 1;
    let ghost mut smask_dv: Seq<(Seq<u8>, ObjV)> = Seq::empty();
    let smask_ref: Option<ObjectId> = if any_alpha {
        let mut sd = Dict::new();
        sd.set(key_type(), PdfObject::Name(key_xobject()));
        sd.set(key_subtype(), PdfObject::Name(key_image()));
        sd.set(key_width(), PdfObject::Integer(rw as i64));
        sd.set(key_height(), PdfObject::Integer(rh as i64));
        sd.set(key_colorspace(), PdfObject::Name(key_device_gray()));
        sd.set(key_bits_per_component(), PdfObject::Integer(8));
        proof {
            smask_dv = dv(sd);
            assert(obj_wf(ObjV::Dict(dv(sd))));
            assert(obj_wf(ObjV::Stream(dv(sd), alpha_of(buf@), true)));
            assert(find_key(smask_dv, nm_width()) == Some(ObjV::Int(rw as int)));
            assert(find_key(smask_dv, nm_height()) == Some(ObjV::Int(rh as int)));
            assert(find_key(smask_dv, crate::names::nm_colorspace()) == Some(
                ObjV::Name(crate::names::nm_device_gray()),
            ));
        }
        let sid = ObjectId { num: next, gen: 0 };
        objs.push(
            GraphEntry {
                id: sid,
                obj: PdfObject::Stream(
                    Stream { dict: sd, content: alpha, allows_compression: true },
                ),
            },
        );
        next = next + 1;
        Some(sid)
    } else {
        None
    };
    let mut imgd = Dict::new();
    imgd.set(key_type(), PdfObject::Name(key_xobject()));
    imgd.set(key_subtype(), PdfObject::Name(key_image()));
    imgd.set(key_width(), PdfObject::Integer(rw as i64));
    imgd.set(key_height(), PdfObject::Integer(rh as i64));
    imgd.set(key_colorspace(), PdfObject::Name(key_device_rgb()));
    imgd.set(key_bits_per_component(), PdfObject::Integer(8));
    match smask_ref {
        Some(sid) => {
            imgd.set(key_smask(), PdfObject::Reference(sid));
        },
        None => {},
    }
    let img_id = ObjectId { num: next, gen: 0 };
    let ghost img_dv: Seq<(Seq<u8>, ObjV)> = dv(imgd);
    proof {
        assert(obj_wf(ObjV::Dict(img_dv)));
        assert(obj_wf(ObjV::Stream(img_dv, rgb_of(buf@), true)));
    }
    let ghost rgb_len: int = rgb@.len() as int;
    proof {
        assert(rgb_len == rw as int * rh as int * 3) by (nonlinear_arith)
            requires
                rgb_len == buf@.len() / 4 * 3 && buf@.len() == rw as int * rh as int * 4 && rgb_len
                    == rgb_of(buf@).len(),
        ;
    }
    objs.push(
        GraphEntry {
            id: img_id,
            obj: PdfObject::Stream(Stream { dict: imgd, content: rgb, allows_compression: true }),
        },
    );
    next = next + 1;
    // the content stream that paints the image
    let mut content: Vec<u8> = "q\n".as_bytes_vec();
    push_decimal(rw as u64, &mut content);
    let mut piece = " 0 0 ".as_bytes_vec();
    content.append(&mut piece);
    push_decimal(rh as u64, &mut content);
    let mut piece2 = " ".as_bytes_vec();
    content.append(&mut piece2);
    push_decimal(36, &mut content);
    let mut piece3 = " ".as_bytes_vec();
    content.append(&mut piece3);
    push_decimal(pos_y, &mut content);
    let mut piece4 = " cm\n/Im0 Do\nQ\n".as_bytes_vec();
    content.append(&mut piece4);
    let ghost content_v: Seq<u8> = content@;
    proof {
        assert(content_v =~= cm_content(rw as nat, rh as nat, 36, pos_y as nat));
    }
    let content_id = ObjectId { num: next, gen: 0 };
    let cdict = Dict::new();
    let ghost cd_dv: Seq<(Seq<u8>, ObjV)> = dv(cdict);
    proof {
        assert(obj_wf(ObjV::Stream(cd_dv, content_v, true)));
    }
    objs.push(
        GraphEntry {
            id: content_id,
            obj: PdfObject::Stream(Stream { dict: cdict, content, allows_compression: true }),
        },
    );
    next = next + 1;
    // the page, its resources, the page tree and the catalog
    let page_id = ObjectId { num: next, gen: 0 };
    let pages_id = ObjectId { num: next + 1, gen: 0 };
    let catalog_id = ObjectId { num: next + 2, gen: 0 };
    let mut xobjects = Dict::new();
    xobjects.set(key_im0(), PdfObject::Reference(img_id));
    let ghost xo_dv: Seq<(Seq<u8>, ObjV)> = dv(xobjects);
    let mut resources = Dict::new();
    resources.set(key_xobject(), PdfObject::Dictionary(xobjects));
    let ghost res_dv: Seq<(Seq<u8>, ObjV)> = dv(resources);
    let mut mb: Vec<PdfObject> = Vec::new();
    mb.push(PdfObject::Integer(0));
    mb.push(PdfObject::Integer(0));
    mb.push(PdfObject::Integer(pw as i64));
    mb.push(PdfObject::Integer(ph as i64));
    let ghost mb_v: Seq<PdfObject> = mb@;
    let mut page = Dict::new();
    page.set(key_type(), PdfObject::Name(key_page()));
    page.set(key_media_box(), PdfObject::Array(mb));
    page.set(key_resources(), PdfObject::Dictionary(resources));
    page.set(key_contents(), PdfObject::Reference(content_id));
    page.set(key_parent(), PdfObject::Reference(pages_id));
    let ghost page_dv: Seq<(Seq<u8>, ObjV)> = dv(page);
    proof {
        assert(obj_wf(ObjV::Arr(ovs(mb_v)))) by {
            assert forall|i: int| 0 <= i < ovs(mb_v).len() implies obj_wf(
                #[trigger] ovs(mb_v)[i],
            ) by {
                assert(ovs(mb_v)[i] == ov(mb_v[i]));
            }
        }
        assert(obj_wf(ObjV::Dict(page_dv)));
    }
    objs.push(GraphEntry { id: page_id, obj: PdfObject::Dictionary(page) });
    let mut kids: Vec<PdfObject> = Vec::new();
    kids.push(PdfObject::Reference(page_id));
    let ghost kids_v: Seq<PdfObject> = kids@;
    let mut pages = Dict::new();
    pages.set(key_type(), PdfObject::Name(key_pages()));
    pages.set(key_kids(), PdfObject::Array(kids));
    pages.set(key_count(), PdfObject::Integer(1));
    let ghost pages_dv: Seq<(Seq<u8>, ObjV)> = dv(pages);
    proof {
        assert(obj_wf(ObjV::Arr(ovs(kids_v)))) by {
            assert forall|i: int| 0 <= i < ovs(kids_v).len() implies obj_wf(
                #[trigger] ovs(kids_v)[i],
            ) by {
                assert(ovs(kids_v)[i] == ov(kids_v[i]));
            }
        }
        assert(obj_wf(ObjV::Dict(pages_dv)));
    }
    objs.push(GraphEntry { id: pages_id, obj: PdfObject::Dictionary(pages) });
    let mut catalog = Dict::new();
    catalog.set(key_type(), PdfObject::Name(key_catalog()));
    catalog.set(key_pages(), PdfObject::Reference(pages_id));
    let ghost cat_dv: Seq<(Seq<u8>, ObjV)> = dv(catalog);
    proof {
        assert(obj_wf(ObjV::Dict(cat_dv)));
    }
    objs.push(GraphEntry { id: catalog_id, obj: PdfObject::Dictionary(catalog) });
    let mut trailer = Dict::new();
    trailer.set(key_root(), PdfObject::Reference(catalog_id));
    let n_obj: usize = objs.len();
    let g = DocumentGraph {
        objects: objs,
        trailer,
        max_id: n_obj as u32,
        version: version_1_5_bytes(),
    };
    let ghost gs: Seq<(ObjectId, ObjV)> = gv(g);
    proof {
        let off: int = if any_alpha {
            1
        } else {
            0
        };
        assert(gs.len() == 5 + off);
        assert forall|k: int| 0 <= k < gs.len() implies (#[trigger] gs[k]).0 == (ObjectId {
            num: (1 + k) as u32,
            gen: 0,
        }) by {}
        assert(ids_unique(gs));
        // the stored objects, by identifier
        assert(gs[img_id.num - 1].1 == ObjV::Stream(img_dv, rgb_of(buf@), true));
        assert forall|q: int| 0 <= q < img_id.num - 1 implies (#[trigger] gs[q]).0 != img_id by {}
        crate::model::lemma_find_id_at(gs, img_id, img_id.num - 1);
        assert(gs[page_id.num - 1].1 == ObjV::Dict(page_dv));
        assert forall|q: int| 0 <= q < page_id.num - 1 implies (#[trigger] gs[q]).0 != page_id
            by {}
        crate::model::lemma_find_id_at(gs, page_id, page_id.num - 1);
        assert(gs[pages_id.num - 1].1 == ObjV::Dict(pages_dv));
        assert forall|q: int| 0 <= q < pages_id.num - 1 implies (#[trigger] gs[q]).0 != pages_id
            by {}
        crate::model::lemma_find_id_at(gs, pages_id, pages_id.num - 1);
        assert(gs[catalog_id.num - 1].1 == ObjV::Dict(cat_dv));
        assert forall|q: int| 0 <= q < catalog_id.num - 1 implies (#[trigger] gs[q]).0
            != catalog_id by {}
        crate::model::lemma_find_id_at(gs, catalog_id, catalog_id.num - 1);
        // the page walk finds exactly the one page
        assert(find_key(dv(g.trailer), nm_root()) == Some(ObjV::Ref(catalog_id)));
        assert(find_key(cat_dv, nm_pages()) == Some(ObjV::Ref(pages_id)));
        assert(crate::graph::dict_type(cat_dv) == Some(nm_catalog()));
        assert(crate::graph::dict_type(pages_dv) == Some(nm_pages()));
        assert(crate::graph::dict_type(page_dv) == Some(nm_page()));
        assert(find_key(pages_dv, nm_kids()) == Some(ObjV::Arr(ovs(kids_v))));
        assert(ovs(kids_v).len() == 1);
        assert(ovs(kids_v)[0] == ObjV::Ref(page_id));
        assert(crate::graph::kids_of(gs, pages_dv) == ovs(kids_v));
        assert forall|i: int| 0 <= i < ovs(kids_v).len() implies ((#[trigger] ovs(kids_v)[i])
            matches ObjV::Ref(p) && (find_id(gs, p) matches Some(ObjV::Dict(e)) && crate::graph::dict_type(
            e,
        ) == Some(nm_page()))) by {}
        crate::graph::lemma_walk_all_pages(gs, ovs(kids_v), gs.len() as nat);
        assert(crate::graph::page_ids(g) == crate::graph::walk_kids(
            gs,
            ovs(kids_v),
            gs.len() as nat,
        ).0);
        assert(crate::graph::page_ids(g).len() == 1);
        assert(crate::graph::page_ids(g)[0] == page_id);
        // the content stream and, when present, the soft mask
        assert(gs[content_id.num - 1].1 == ObjV::Stream(cd_dv, content_v, true));
        assert forall|q: int| 0 <= q < content_id.num - 1 implies (#[trigger] gs[q]).0
            != content_id by {}
        crate::model::lemma_find_id_at(gs, content_id, content_id.num - 1);
        if any_alpha {
            let sid = ObjectId { num: 1, gen: 0 };
            assert(gs[0].1 == ObjV::Stream(smask_dv, alpha_of(buf@), true));
            crate::model::lemma_find_id_at(gs, sid, 0);
        }
        // the page facts
        assert(find_key(page_dv, nm_media_box()) == Some(ObjV::Arr(ovs(mb_v))));
        assert(ovs(mb_v).len() == 4);
        assert(ovs(mb_v)[0] == ObjV::Int(0) && ovs(mb_v)[1] == ObjV::Int(0));
        assert(ovs(mb_v)[2] == ObjV::Int(pw as int) && ovs(mb_v)[3] == ObjV::Int(ph as int));
        assert(find_key(page_dv, crate::names::nm_resources()) == Some(ObjV::Dict(res_dv)));
        assert(find_key(res_dv, crate::names::nm_xobject()) == Some(ObjV::Dict(xo_dv)));
        assert(find_key(xo_dv, crate::names::nm_im0()) == Some(ObjV::Ref(img_id)));
        assert(find_key(page_dv, crate::names::nm_contents()) == Some(ObjV::Ref(content_id)));
        // the image facts
        assert(find_key(img_dv, nm_subtype()) == Some(ObjV::Name(nm_image())));
        assert(find_key(img_dv, nm_width()) == Some(ObjV::Int(rw as int)));
        assert(find_key(img_dv, nm_height()) == Some(ObjV::Int(rh as int)));
        assert(rgb_of(buf@).len() == rw as int * rh as int * 3);
        assert(rgb@ == rgb_of(emb.0));
        assert(any_alpha == has_alpha(emb.0));
        assert(any_alpha ==> find_key(img_dv, nm_smask()) == Some(
            ObjV::Ref(ObjectId { num: 1, gen: 0 }),
        ));
        assert(!any_alpha ==> find_key(img_dv, nm_smask()) is None);
        assert(pos_y as int == page_choice(w as int, h as int).1 - 36 - rh as int);
        // well-formedness
        assert forall|k: int| 0 <= k < gs.len() implies obj_wf((#[trigger] gs[k]).1) by {
            assert(gs[k].1 == ov(g.objects@[k].obj));
        }
        assert(obj_wf(ObjV::Dict(dv(g.trailer))));
        assert(graph_wf(g));
        assert(synth_shape(g, rgba@, w as int, h as int, rw as int, rh as int));
    }
    (g, rw, rh)
}

/// Relies on the image library's aspect-preserving `resize` with the
/// Lanczos filter: the result fits inside the requested box, is never
/// empty, and is a full RGBA buffer of its reported dimensions.  The
/// resampling is pure arithmetic on its arguments, so its result is a
/// function of them alone, named `resized_of`.
#[verifier::external_body]
fn resize_rgba(rgba: &Vec<u8>, w: u32, h: u32, tw: u32, th: u32) -> (r: (Vec<u8>, u32, u32))
    requires
        rgba@.len() == w as int * h as int * 4,
        1 <= w,
        1 <= h,
        1 <= tw <= w,
        1 <= th <= h,
    ensures
        (r.0@, r.1 as int, r.2 as int) == resized_of(
            rgba@,
            w as int,
            h as int,
            tw as int,
            th as int,
        ),
        r.0@.len() == r.1 as int * r.2 as int * 4,
        1 <= r.1 <= tw,
        1 <= r.2 <= th,
{
    let img = image::RgbaImage::from_raw(w, h, rgba.clone()).unwrap();
    let resized = image::DynamicImage::ImageRgba8(img)
        .resize(tw, th, image::imageops::FilterType::Lanczos3)
        .to_rgba8();
    let (rw, rh) = resized.dimensions();
    (resized.into_raw(), rw, rh)
}

} // verus!
