//! The project: its imported sources, the page selectors, and the
//! composition engine that merges selected pages into one new document.

use vstd::prelude::*;

use crate::error::Error;
use crate::graph::{
    collect_page_ids, dict_type, gids, has_dict_of_type, lemma_page_ids_exist, obj_refs,
    lemma_remap_shape, page_ids,
    remap_entries, remap_obj,
};
use crate::model::{
    dv, evv, find_id, find_key, graph_wf, gv, ids_unique, obj_wf, ov, Dict, DocumentGraph, GraphEntry,
    ObjV, ObjectId, PdfObject,
};
use crate::names::{
    nm_catalog, nm_count, nm_kids, nm_outline, nm_outlines, nm_page, nm_pages, nm_parent,
    nm_root, nm_rotate, nm_type, nm_version_1_5,
};

verus! {

broadcast use crate::model::lemma_ovs_props, crate::model::lemma_evs_props;

/// A requested page rotation, in quarter turns.
#[derive(Debug, Clone, Copy, PartialEq, Eq, Structural)]
pub enum Rotation {
    R0,
    R90,
    R180,
    R270,
}

impl Rotation {
    /// The degree value this rotation writes into a page's `Rotate` key,
    /// or nothing: a default rotation declines to override the page.
    pub fn as_rotation(&self) -> (r: Option<u32>)
        ensures
            r == match *self {
                Rotation::R0 => None::<u32>,
                Rotation::R90 => Some(90u32),
                Rotation::R180 => Some(180u32),
                Rotation::R270 => Some(270u32),
            },
    {
        match self {
            Rotation::R0 => None,
            Rotation::R90 => Some(90),
            Rotation::R180 => Some(180),
            Rotation::R270 => Some(270),
        }
    }
}

/// One requested output page: a source, a page in it, and a rotation.
#[derive(Debug, Clone, Copy, PartialEq, Eq, Structural)]
pub struct Selector {
    pub source_file_index: usize,
    pub page_index: usize,
    pub rotation: Rotation,
}

impl Selector {
    /// A selector without a rotation override.
    pub fn new(source_file_index: usize, page_index: usize) -> (s: Selector)
        ensures
            s == (Selector { source_file_index, page_index, rotation: Rotation::R0 }),
    {
        Selector { source_file_index, page_index, rotation: Rotation::R0 }
    }
}

/// A rendered page preview: encoded raster bytes and pixel dimensions.
pub struct Page {
    pub preview_jpg: Vec<u8>,
    pub dimensions: (u32, u32),
}

impl Page {
    /// Wraps raster bytes and their dimensions.
    pub fn new(preview_jpg: Vec<u8>, dimensions: (u32, u32)) -> (p: Page)
        ensures
            p.preview_jpg@ == preview_jpg@,
            p.dimensions == dimensions,
    {
        Page { preview_jpg, dimensions }
    }

    /// The preview's width in pixels.
    pub fn width(&self) -> (w: u32)
        ensures
            w == self.dimensions.0,
    {
        self.dimensions.0
    }

    /// The preview's height in pixels.
    pub fn height(&self) -> (h: u32)
        ensures
            h == self.dimensions.1,
    {
        self.dimensions.1
    }
}

/// Where an imported source came from.
#[derive(Debug, Clone, PartialEq, Eq)]
pub enum Source {
    PDF(String),
    Image(String),
}

/// An imported input: an opaque token, its origin, its parsed or
/// synthesized document graph, and its page previews.  A source is
/// never changed once created; composing reads it only.
pub struct SourceFile {
    pub id: String,
    pub source: Source,
    pub document: DocumentGraph,
    pub pages: Vec<Page>,
}

/// A project: the imported sources, in import order.
pub struct Project {
    pub source_files: Vec<SourceFile>,
}

/// Every source's document graph is well formed.
pub open spec fn project_wf(p: Project) -> bool {
    forall|i: int|
        0 <= i < p.source_files@.len() ==> graph_wf((#[trigger] p.source_files@[i]).document)
}

/// The total number of stored objects over all sources.
pub open spec fn total_objects(srcs: Seq<SourceFile>) -> int
    decreases srcs.len(),
{
    if srcs.len() == 0 {
        0
    } else {
        gv(srcs[0].document).len() + total_objects(srcs.drop_first())
    }
}

/// Whether a selector names an existing page of an existing source.
pub open spec fn sel_ok(p: Project, s: Selector) -> bool {
    &&& s.source_file_index < p.source_files@.len()
    &&& s.page_index < page_ids(p.source_files@[s.source_file_index as int].document).len()
}

/// Splitting the source list splits the object total.
pub proof fn lemma_total_split(srcs: Seq<SourceFile>, k: int)
    requires
        0 <= k <= srcs.len(),
    ensures
        total_objects(srcs) == total_objects(srcs.take(k)) + total_objects(srcs.skip(k)),
    decreases k,
{
    if k == 0 {
        assert(srcs.take(0) =~= Seq::<SourceFile>::empty());
        assert(srcs.skip(0) =~= srcs);
    } else {
        assert(srcs.take(k)[0] == srcs[0]);
        assert(srcs.take(k).drop_first() =~= srcs.drop_first().take(k - 1));
        assert(srcs.skip(k) =~= srcs.drop_first().skip(k - 1));
        lemma_total_split(srcs.drop_first(), k - 1);
    }
}

/// Appending one source extends the object total.
pub proof fn lemma_total_take_push(srcs: Seq<SourceFile>, x: SourceFile)
    ensures
        total_objects(srcs.push(x)) == total_objects(srcs) + gv(x.document).len(),
    decreases srcs.len(),
{
    if srcs.len() == 0 {
        assert(srcs.push(x).len() == 1);
        assert(srcs.push(x)[0] == x);
        assert(srcs.push(x).drop_first() =~= Seq::<SourceFile>::empty());
        assert(total_objects(Seq::<SourceFile>::empty()) == 0);
        assert(total_objects(srcs) == 0);
        assert(total_objects(srcs.push(x)) == gv(x.document).len() + 0);
    } else {
        assert(srcs.push(x)[0] == srcs[0]);
        assert(srcs.push(x).drop_first() =~= srcs.drop_first().push(x));
        lemma_total_take_push(srcs.drop_first(), x);
        assert(total_objects(srcs.push(x)) == gv(srcs[0].document).len() + total_objects(
            srcs.drop_first().push(x),
        ));
    }
}

/// Object totals are never negative.
pub proof fn lemma_total_nonneg(srcs: Seq<SourceFile>)
    ensures
        total_objects(srcs) >= 0,
    decreases srcs.len(),
{
    if srcs.len() > 0 {
        lemma_total_nonneg(srcs.drop_first());
    }
}

/// The dictionary of a source's `j`-th page, as the page walk finds it.
pub open spec fn src_page_dict(sf: SourceFile, j: int) -> Seq<(Seq<u8>, ObjV)> {
    match find_id(gv(sf.document), page_ids(sf.document)[j]) {
        Some(ObjV::Dict(e)) => e,
        _ => Seq::empty(),
    }
}

/// How a composed page's `Rotate` key may relate to its source page's:
/// an absent key stays absent, an integer value is kept.
pub open spec fn rot_match(e: Seq<(Seq<u8>, ObjV)>, se: Seq<(Seq<u8>, ObjV)>) -> bool {
    &&& (find_key(se, nm_rotate()) is None ==> find_key(e, nm_rotate()) is None)
    &&& (forall|v: int|
        find_key(se, nm_rotate()) == Some(ObjV::Int(v)) ==> find_key(e, nm_rotate()) == Some(
            ObjV::Int(v),
        ))
}


/// The page-tree root dictionaries a graph stores, in storage order.
pub open spec fn pages_dicts_of(gs: Seq<(ObjectId, ObjV)>) -> Seq<Seq<(Seq<u8>, ObjV)>>
    decreases gs.len(),
{
    if gs.len() == 0 {
        Seq::empty()
    } else {
        let rest = pages_dicts_of(gs.drop_first());
        if gs[0].1 matches ObjV::Dict(e) && dict_type(e) == Some(nm_pages()) {
            seq![gs[0].1->Dict_0] + rest
        } else {
            rest
        }
    }
}

/// The page-tree root dictionaries of all sources, in source order.
pub open spec fn sources_pages_dicts(srcs: Seq<SourceFile>) -> Seq<Seq<(Seq<u8>, ObjV)>>
    decreases srcs.len(),
{
    if srcs.len() == 0 {
        Seq::empty()
    } else {
        pages_dicts_of(gv(srcs[0].document)) + sources_pages_dicts(srcs.drop_first())
    }
}

/// First wins: the value the earliest dictionary holds under the key,
/// if any of them does.
pub open spec fn first_wins_key(ds: Seq<Seq<(Seq<u8>, ObjV)>>, k: Seq<u8>) -> Option<ObjV>
    decreases ds.len(),
{
    if ds.len() == 0 {
        None
    } else if find_key(ds[0], k) is Some {
        find_key(ds[0], k)
    } else {
        first_wins_key(ds.drop_first(), k)
    }
}

/// Appending one entry extends the collected page-tree dictionaries at
/// the end, by that entry's dictionary when it is one of type `Pages`.
proof fn lemma_pages_dicts_push(gs: Seq<(ObjectId, ObjV)>, x: (ObjectId, ObjV))
    ensures
        pages_dicts_of(gs.push(x)) == pages_dicts_of(gs) + (
        if x.1 matches ObjV::Dict(e) && dict_type(e) == Some(nm_pages()) {
            seq![x.1->Dict_0]
        } else {
            Seq::<Seq<(Seq<u8>, ObjV)>>::empty()
        }),
    decreases gs.len(),
{
    let tail: Seq<Seq<(Seq<u8>, ObjV)>> = if x.1 matches ObjV::Dict(e) && dict_type(e) == Some(
        nm_pages(),
    ) {
        seq![x.1->Dict_0]
    } else {
        Seq::empty()
    };
    if gs.len() == 0 {
        assert(gs.push(x).len() == 1);
        assert(gs.push(x)[0] == x);
        assert(gs.push(x).drop_first() =~= Seq::<(ObjectId, ObjV)>::empty());
        assert(pages_dicts_of(Seq::<(ObjectId, ObjV)>::empty())
            == Seq::<Seq<(Seq<u8>, ObjV)>>::empty());
        if x.1 matches ObjV::Dict(e) && dict_type(e) == Some(nm_pages()) {
            assert(pages_dicts_of(gs.push(x)) == seq![x.1->Dict_0] + Seq::<
                Seq<(Seq<u8>, ObjV)>,
            >::empty());
        } else {
            assert(pages_dicts_of(gs.push(x)) == Seq::<Seq<(Seq<u8>, ObjV)>>::empty());
        }
        assert(pages_dicts_of(gs.push(x)) =~= pages_dicts_of(gs) + tail);
    } else {
        assert(gs.push(x)[0] == gs[0]);
        assert(gs.push(x).drop_first() =~= gs.drop_first().push(x));
        lemma_pages_dicts_push(gs.drop_first(), x);
        if gs[0].1 matches ObjV::Dict(e) && dict_type(e) == Some(nm_pages()) {
            assert(seq![gs[0].1->Dict_0] + (pages_dicts_of(gs.drop_first()) + tail) =~= (seq![
                gs[0].1->Dict_0,
            ] + pages_dicts_of(gs.drop_first())) + tail);
        }
    }
}

/// Concatenating graphs concatenates their page-tree dictionaries.
proof fn lemma_pages_dicts_concat(a: Seq<(ObjectId, ObjV)>, b: Seq<(ObjectId, ObjV)>)
    ensures
        pages_dicts_of(a + b) == pages_dicts_of(a) + pages_dicts_of(b),
    decreases a.len(),
{
    if a.len() == 0 {
        assert(a + b =~= b);
        assert(pages_dicts_of(a) + pages_dicts_of(b) =~= pages_dicts_of(b));
    } else {
        assert((a + b)[0] == a[0]);
        assert((a + b).drop_first() =~= a.drop_first() + b);
        lemma_pages_dicts_concat(a.drop_first(), b);
        if a[0].1 matches ObjV::Dict(e) && dict_type(e) == Some(nm_pages()) {
            assert(seq![a[0].1->Dict_0] + (pages_dicts_of(a.drop_first()) + pages_dicts_of(b))
                =~= (seq![a[0].1->Dict_0] + pages_dicts_of(a.drop_first())) + pages_dicts_of(b));
        }
    }
}

/// A source appended at the end contributes its page-tree dictionaries
/// at the end.
proof fn lemma_sources_pages_dicts_push(srcs: Seq<SourceFile>, x: SourceFile)
    ensures
        sources_pages_dicts(srcs.push(x)) == sources_pages_dicts(srcs) + pages_dicts_of(
            gv(x.document),
        ),
    decreases srcs.len(),
{
    if srcs.len() == 0 {
        assert(srcs.push(x).len() == 1);
        assert(srcs.push(x)[0] == x);
        assert(srcs.push(x).drop_first() =~= Seq::<SourceFile>::empty());
        assert(sources_pages_dicts(Seq::<SourceFile>::empty())
            == Seq::<Seq<(Seq<u8>, ObjV)>>::empty());
        assert(sources_pages_dicts(srcs.push(x)) == pages_dicts_of(gv(x.document))
            + sources_pages_dicts(Seq::<SourceFile>::empty()));
        assert(sources_pages_dicts(srcs.push(x)) =~= sources_pages_dicts(srcs)
            + pages_dicts_of(gv(x.document)));
    } else {
        assert(srcs.push(x)[0] == srcs[0]);
        assert(srcs.push(x).drop_first() =~= srcs.drop_first().push(x));
        lemma_sources_pages_dicts_push(srcs.drop_first(), x);
        assert(pages_dicts_of(gv(srcs[0].document)) + (sources_pages_dicts(srcs.drop_first())
            + pages_dicts_of(gv(x.document))) =~= (pages_dicts_of(gv(srcs[0].document))
            + sources_pages_dicts(srcs.drop_first())) + pages_dicts_of(gv(x.document)));
    }
}

/// A renumbered graph view holds the same page-tree dictionaries, each
/// with its references remapped.
proof fn lemma_pages_dicts_remap(
    gs1: Seq<(ObjectId, ObjV)>,
    gs2: Seq<(ObjectId, ObjV)>,
    ids: Seq<ObjectId>,
    st: int,
)
    requires
        gs2.len() == gs1.len(),
        forall|k: int| 0 <= k < gs1.len() ==> (#[trigger] gs2[k]).1 == remap_obj(ids, st, gs1[k].1),
    ensures
        pages_dicts_of(gs2).len() == pages_dicts_of(gs1).len(),
        forall|j: int|
            0 <= j < pages_dicts_of(gs1).len() ==> #[trigger] pages_dicts_of(gs2)[j]
                == remap_entries(ids, st, pages_dicts_of(gs1)[j]),
    decreases gs1.len(),
{
    if gs1.len() > 0 {
        assert(gs2[0].1 == remap_obj(ids, st, gs1[0].1));
        lemma_remap_shape(ids, st, gs1[0].1);
        assert forall|k: int| 0 <= k < gs1.drop_first().len() implies (
        #[trigger] gs2.drop_first()[k]).1 == remap_obj(ids, st, gs1.drop_first()[k].1) by {
            assert(gs2.drop_first()[k] == gs2[k + 1]);
            assert(gs1.drop_first()[k] == gs1[k + 1]);
        }
        lemma_pages_dicts_remap(gs1.drop_first(), gs2.drop_first(), ids, st);
        if gs1[0].1 matches ObjV::Dict(e) && dict_type(e) == Some(nm_pages()) {
            assert(gs2[0].1 == ObjV::Dict(remap_entries(ids, st, gs1[0].1->Dict_0)));
            assert(dict_type(remap_entries(ids, st, gs1[0].1->Dict_0)) == Some(nm_pages()));
            assert forall|j: int| 0 <= j < pages_dicts_of(gs1).len() implies
                #[trigger] pages_dicts_of(gs2)[j] == remap_entries(
                ids,
                st,
                pages_dicts_of(gs1)[j],
            ) by {
                if j > 0 {
                    assert(pages_dicts_of(gs2)[j] == pages_dicts_of(gs2.drop_first())[j - 1]);
                    assert(pages_dicts_of(gs1)[j] == pages_dicts_of(gs1.drop_first())[j - 1]);
                }
            }
        } else {
            assert(!(gs2[0].1 matches ObjV::Dict(e2) && dict_type(e2) == Some(nm_pages())))
                by {
                if gs1[0].1 is Dict {
                    assert(dict_type(remap_entries(ids, st, gs1[0].1->Dict_0)) == dict_type(
                        gs1[0].1->Dict_0,
                    ));
                }
            }
        }
    }
}

/// First-wins lookup, after appending one more dictionary.
proof fn lemma_first_wins_push(ds: Seq<Seq<(Seq<u8>, ObjV)>>, d: Seq<(Seq<u8>, ObjV)>, k: Seq<u8>)
    ensures
        first_wins_key(ds.push(d), k) == if first_wins_key(ds, k) is Some {
            first_wins_key(ds, k)
        } else {
            find_key(d, k)
        },
    decreases ds.len(),
{
    if ds.len() == 0 {
        assert(ds.push(d).len() == 1);
        assert(ds.push(d)[0] == d);
        assert(ds.push(d).drop_first() =~= Seq::<Seq<(Seq<u8>, ObjV)>>::empty());
        assert(first_wins_key(Seq::<Seq<(Seq<u8>, ObjV)>>::empty(), k) is None);
        if find_key(d, k) is Some {
            assert(first_wins_key(ds.push(d), k) == find_key(d, k));
        } else {
            assert(first_wins_key(ds.push(d), k) == first_wins_key(
                ds.push(d).drop_first(),
                k,
            ));
        }
    } else {
        assert(ds.push(d)[0] == ds[0]);
        if find_key(ds[0], k) is Some {
        } else {
            assert(ds.push(d).drop_first() =~= ds.drop_first().push(d));
            lemma_first_wins_push(ds.drop_first(), d, k);
        }
    }
}

/// First-wins lookup carries over to a pointwise-remapped dictionary
/// sequence: the key is found in one exactly when in the other, and an
/// integer or name value is found unchanged.
proof fn lemma_first_wins_remapped(
    ds1: Seq<Seq<(Seq<u8>, ObjV)>>,
    ds2: Seq<Seq<(Seq<u8>, ObjV)>>,
    ms: Seq<(Seq<ObjectId>, int)>,
    k: Seq<u8>,
)
    requires
        ds2.len() == ds1.len(),
        ms.len() == ds1.len(),
        forall|j: int|
            0 <= j < ds1.len() ==> #[trigger] ds2[j] == remap_entries(ms[j].0, ms[j].1, ds1[j]),
    ensures
        (first_wins_key(ds2, k) is Some) <==> (first_wins_key(ds1, k) is Some),
        forall|v: int|
            first_wins_key(ds1, k) == Some(ObjV::Int(v)) ==> first_wins_key(ds2, k) == Some(
                ObjV::Int(v),
            ),
        forall|nm2: Seq<u8>|
            first_wins_key(ds1, k) == Some(ObjV::Name(nm2)) ==> first_wins_key(ds2, k) == Some(
                ObjV::Name(nm2),
            ),
    decreases ds1.len(),
{
    if ds1.len() > 0 {
        assert(ds2[0] == remap_entries(ms[0].0, ms[0].1, ds1[0]));
        crate::graph::lemma_remap_find_key(ms[0].0, ms[0].1, ds1[0], k);
        if find_key(ds1[0], k) is Some {
        } else {
            assert forall|j: int| 0 <= j < ds1.drop_first().len() implies
                #[trigger] ds2.drop_first()[j] == remap_entries(
                ms.drop_first()[j].0,
                ms.drop_first()[j].1,
                ds1.drop_first()[j],
            ) by {
                assert(ds2.drop_first()[j] == ds2[j + 1]);
                assert(ds1.drop_first()[j] == ds1[j + 1]);
                assert(ms.drop_first()[j] == ms[j + 1]);
            }
            lemma_first_wins_remapped(ds1.drop_first(), ds2.drop_first(), ms.drop_first(), k);
        }
    }
}

/// The pooled identifier a selector's page carries.
pub open spec fn sel_new_id(spp: Seq<Vec<ObjectId>>, s: Selector) -> ObjectId {
    spp[s.source_file_index as int]@[s.page_index as int]
}

/// The dictionary stored under an identifier, when it is a dictionary.
pub open spec fn stored_dict(gs: Seq<(ObjectId, ObjV)>, id: ObjectId) -> Seq<(Seq<u8>, ObjV)> {
    match find_id(gs, id) {
        Some(ObjV::Dict(e)) => e,
        _ => Seq::empty(),
    }
}

/// Merges `later` into `acc`, first wins: keys already in `acc` keep
/// their values, keys only in `later` are appended in their order.
#[verifier::loop_isolation(false)]
fn dict_merge(acc: &mut Dict, later: &Dict)
    requires
        obj_wf(ObjV::Dict(dv(*old(acc)))),
        obj_wf(ObjV::Dict(dv(*later))),
    ensures
        forall|k: Seq<u8>|
            #[trigger] find_key(dv(*final(acc)), k) == if find_key(dv(*old(acc)), k) is Some {
                find_key(dv(*old(acc)), k)
            } else {
                find_key(dv(*later), k)
            },
        obj_wf(ObjV::Dict(dv(*final(acc)))),
{
    let ghost acc0: Seq<(Seq<u8>, ObjV)> = dv(*acc);
    let ghost lat: Seq<(Seq<u8>, ObjV)> = dv(*later);
    let n: usize = later.entries.len();
    let mut i: usize = 0;
    proof {
        assert(lat.take(0) =~= Seq::<(Seq<u8>, ObjV)>::empty());
    }
    while i < n
        invariant
            0 <= i <= n,
            obj_wf(ObjV::Dict(dv(*acc))),
            forall|k: Seq<u8>|
                #[trigger] find_key(dv(*acc), k) == if find_key(acc0, k) is Some {
                    find_key(acc0, k)
                } else {
                    find_key(lat.take(i as int), k)
                },
        decreases n - i,
    {
        let ghost cur: Seq<(Seq<u8>, ObjV)> = dv(*acc);
        let e = &later.entries[i];
        proof {
            crate::model::lemma_evs_props(later.entries@);
            assert(lat[i as int] == (e.key@, ov(e.value)));
            assert(obj_wf(lat[i as int].1));
            assert(obj_wf(ov(e.value)));
        }
        if !acc.has(e.key.as_slice()) {
            let ek = crate::model::clone_bytes(&e.key);
            let ev = crate::model::clone_obj(&e.value);
            acc.set(ek, ev);
        }
        proof {
            assert(lat.take(i + 1) =~= lat.take(i as int).push(lat[i as int]));
            assert forall|k: Seq<u8>| true implies #[trigger] find_key(dv(*acc), k) == if find_key(
                acc0,
                k,
            ) is Some {
                find_key(acc0, k)
            } else {
                find_key(lat.take(i + 1), k)
            } by {
                crate::model::lemma_find_key_push_gen(lat.take(i as int), lat[i as int], k);
            }
        }
        i += 1;
    }
    proof {
        assert(lat.take(n as int) =~= lat);
    }
}

/// The position of the last selector whose page carries this pooled
/// identifier, if any.
#[verifier::loop_isolation(false)]
fn last_sel_for(selectors: &Vec<Selector>, sel_ids: &Vec<ObjectId>, id: ObjectId) -> (r: Option<
    usize,
>)
    requires
        sel_ids@.len() == selectors@.len(),
    ensures
        match r {
            Some(j) => {
                &&& 0 <= j < selectors@.len()
                &&& sel_ids@[j as int] == id
                &&& forall|j2: int| j < j2 < selectors@.len() ==> #[trigger] sel_ids@[j2] != id
            },
            None => forall|j2: int| 0 <= j2 < selectors@.len() ==> #[trigger] sel_ids@[j2] != id,
        },
{
    let n: usize = selectors.len();
    let mut i: usize = n;
    while i > 0
        invariant
            0 <= i <= n,
            n == sel_ids@.len(),
            forall|j2: int| i <= j2 < n ==> #[trigger] sel_ids@[j2] != id,
        decreases i,
    {
        i = i - 1;
        if sel_ids[i].num == id.num && sel_ids[i].gen == id.gen {
            return Some(i);
        }
    }
    None
}

/// The rotation clause a composed page must satisfy: a requested turn is
/// written as the `Rotate` value; no request leaves the source page's
/// integer or absent `Rotate` as it was.
pub open spec fn rotate_clause(
    pg: Seq<(Seq<u8>, ObjV)>,
    rot: Rotation,
    se: Seq<(Seq<u8>, ObjV)>,
) -> bool {
    match rot {
        Rotation::R0 => rot_match(pg, se),
        Rotation::R90 => find_key(pg, nm_rotate()) == Some(ObjV::Int(90)),
        Rotation::R180 => find_key(pg, nm_rotate()) == Some(ObjV::Int(180)),
        Rotation::R270 => find_key(pg, nm_rotate()) == Some(ObjV::Int(270)),
    }
}

/// Builds the output graph from the pooled objects: one surviving
/// catalog and page-tree root, the selected pages re-parented and
/// rotated, every other ordinary object carried over, outline objects
/// and unselected pages dropped.
#[verifier::loop_isolation(false)]
#[verifier::rlimit(100)]
fn assemble_graph(pool: &Vec<GraphEntry>, spp: &Vec<Vec<ObjectId>>, selectors: &Vec<Selector>) -> (r:
    Result<DocumentGraph, Error>)
    requires
        evv(pool@).len() + 2 <= u32::MAX,
        selectors@.len() <= u32::MAX,
        forall|k: int| 0 <= k < evv(pool@).len() ==> (#[trigger] evv(pool@)[k]).0.num == 1 + k,
        forall|k: int| 0 <= k < evv(pool@).len() ==> obj_wf((#[trigger] evv(pool@)[k]).1),
        forall|i: int|
            0 <= i < selectors@.len() ==> (#[trigger] selectors@[i]).source_file_index < spp@.len()
                && selectors@[i].page_index < spp@[selectors@[i].source_file_index as int]@.len(),
        forall|si: int, j: int|
            0 <= si < spp@.len() && 0 <= j < spp@[si]@.len() ==> (find_id(
                evv(pool@),
                #[trigger] spp@[si]@[j],
            ) matches Some(ObjV::Dict(e)) && dict_type(e) == Some(nm_page()) && obj_wf(
                ObjV::Dict(e),
            )),
    ensures
        (r is Err) <==> !(has_dict_of_type(evv(pool@), nm_catalog()) && has_dict_of_type(
            evv(pool@),
            nm_pages(),
        )),
        r matches Err(e) ==> (e matches Error::StructuralError(m) && m@ == (
        if !has_dict_of_type(evv(pool@), nm_pages()) {
            "Invalid PDF: Pages root not found."@
        } else {
            "Invalid PDF: Catalog root not found."@
        })),
        r matches Ok(g) ==> {
            &&& graph_wf(g)
            &&& gv(g).len() <= evv(pool@).len()
            &&& forall|k: int| 0 <= k < gv(g).len() ==> 1 <= (#[trigger] gv(g)[k]).0.num
            &&& g.version@ == nm_version_1_5()
            &&& (find_key(dv(g.trailer), nm_root()) matches Some(ObjV::Ref(cid)) && (find_id(
                gv(g),
                cid,
            ) matches Some(ObjV::Dict(cat)) && find_key(cat, nm_outlines()) is None && (find_key(
                cat,
                nm_pages(),
            ) matches Some(ObjV::Ref(pid)) && (find_id(gv(g), pid) matches Some(ObjV::Dict(pd))
                && find_key(pd, nm_count()) == Some(ObjV::Int(selectors@.len() as int)) && (
            forall|k2: Seq<u8>|
                k2 != nm_count() && k2 != nm_kids() ==> #[trigger] find_key(pd, k2)
                    == first_wins_key(pages_dicts_of(evv(pool@)), k2)) && (
            find_key(pd, nm_kids()) matches Some(ObjV::Arr(kids)) && kids.len()
                == selectors@.len() && (forall|i: int|
                0 <= i < selectors@.len() ==> #[trigger] kids[i] == ObjV::Ref(
                    sel_new_id(spp@, selectors@[i]),
                )) && (forall|i: int|
                0 <= i < selectors@.len() ==> (find_id(
                    gv(g),
                    sel_new_id(spp@, #[trigger] selectors@[i]),
                ) matches Some(ObjV::Dict(pg)) && dict_type(pg) == Some(nm_page()) && find_key(
                    pg,
                    nm_parent(),
                ) == Some(ObjV::Ref(pid)) && ((forall|j2: int|
                    i < j2 < selectors@.len() ==> sel_new_id(spp@, #[trigger] selectors@[j2])
                        != sel_new_id(spp@, selectors@[i])) ==> rotate_clause(
                    pg,
                    selectors@[i].rotation,
                    stored_dict(evv(pool@), sel_new_id(spp@, selectors@[i])),
                )))))))))
        },
{
    let ghost ps: Seq<(ObjectId, ObjV)> = evv(pool@);
    proof {
        lemma_names_distinct();
    }
    let n: usize = pool.len();
    // classification: the surviving catalog and page-tree root
    let ckey = crate::names::key_catalog();
    let pskey = crate::names::key_pages();
    let pgkey = crate::names::key_page();
    let olkey = crate::names::key_outlines();
    let ol2key = crate::names::key_outline();
    let mut catalog_id: Option<ObjectId> = None;
    let mut catalog_dict: Option<Dict> = None;
    let mut pages_id: Option<ObjectId> = None;
    let mut pages_dict: Option<Dict> = None;
    let mut k: usize = 0;
    while k < n
        invariant
            0 <= k <= n,
            n == pool@.len(),
            (catalog_id is Some) <==> has_dict_of_type(ps.take(k as int), nm_catalog()),
            (catalog_id is Some) <==> (catalog_dict is Some),
            catalog_id matches Some(cid) ==> 1 <= cid.num <= k && ps[cid.num - 1].0 == cid && (ps[
                cid.num - 1].1 matches ObjV::Dict(e) && dict_type(e) == Some(nm_catalog())),
            catalog_dict matches Some(cd) ==> obj_wf(ObjV::Dict(dv(cd))),
            (pages_id is Some) <==> has_dict_of_type(ps.take(k as int), nm_pages()),
            (pages_id is Some) <==> (pages_dict is Some),
            pages_id matches Some(pid) ==> 1 <= pid.num <= k && ps[pid.num - 1].0 == pid && (ps[
                pid.num - 1].1 matches ObjV::Dict(e) && dict_type(e) == Some(nm_pages())),
            pages_dict matches Some(pd) ==> obj_wf(ObjV::Dict(dv(pd))),
            pages_dict matches Some(pd) ==> (forall|k2: Seq<u8>|
                #[trigger] find_key(dv(pd), k2) == first_wins_key(
                    pages_dicts_of(ps.take(k as int)),
                    k2,
                )),
            (pages_dict is None) ==> pages_dicts_of(ps.take(k as int)) == Seq::<
                Seq<(Seq<u8>, ObjV)>,
            >::empty(),
        decreases n - k,
    {
        let ghost tk: Seq<(ObjectId, ObjV)> = ps.take(k as int);
        proof {
            assert(ps.take(k + 1) =~= tk.push(ps[k as int]));
        }
        let e = &pool[k];
        proof {
            assert(ps[k as int] == (e.id, ov(e.obj)));
        }
        match &e.obj {
            PdfObject::Dictionary(d) => {
                if crate::graph::dict_has_type(d, ckey.as_slice()) {
                    let kept: ObjectId = match catalog_id {
                        Some(c) => c,
                        None => e.id,
                    };
                    catalog_id = Some(kept);
                    catalog_dict = Some(crate::model::clone_dict(d));
                    proof {
                        assert(has_dict_of_type(ps.take(k + 1), nm_catalog())) by {
                            assert(ps.take(k + 1)[k as int].1 matches ObjV::Dict(e2)
                                && dict_type(e2) == Some(nm_catalog()));
                        }
                        assert(e.id.num == 1 + k);
                        lemma_pages_dicts_push(tk, ps[k as int]);
                        assert(pages_dicts_of(ps.take(k + 1)) =~= pages_dicts_of(tk));
                    }
                } else if crate::graph::dict_has_type(d, pskey.as_slice()) {
                    let kept: ObjectId = match pages_id {
                        Some(c) => c,
                        None => e.id,
                    };
                    pages_id = Some(kept);
                    let ghost had_prev: bool = pages_dict is Some;
                    let ghost prev_pd: Seq<(Seq<u8>, ObjV)> = match &pages_dict {
                        Some(pd0) => dv(*pd0),
                        None => Seq::empty(),
                    };
                    proof {
                        assert(ps[k as int].1 == ObjV::Dict(dv(*d)));
                        assert(obj_wf(ObjV::Dict(dv(*d))));
                        lemma_pages_dicts_push(tk, ps[k as int]);
                        assert(pages_dicts_of(ps.take(k + 1)) =~= pages_dicts_of(tk).push(
                            dv(*d),
                        ));
                    }
                    let merged: Dict = match pages_dict {
                        Some(mut old) => {
                            dict_merge(&mut old, d);
                            old
                        },
                        None => crate::model::clone_dict(d),
                    };
                    pages_dict = Some(merged);
                    proof {
                        assert(has_dict_of_type(ps.take(k + 1), nm_pages())) by {
                            assert(ps.take(k + 1)[k as int].1 matches ObjV::Dict(e2)
                                && dict_type(e2) == Some(nm_pages()));
                        }
                        assert(e.id.num == 1 + k);
                        assert forall|k2: Seq<u8>| true implies #[trigger] find_key(
                            dv(pages_dict->Some_0),
                            k2,
                        ) == first_wins_key(pages_dicts_of(ps.take(k + 1)), k2) by {
                            lemma_first_wins_push(pages_dicts_of(tk), dv(*d), k2);
                            if had_prev {
                                assert(find_key(prev_pd, k2) == first_wins_key(
                                    pages_dicts_of(tk),
                                    k2,
                                ));
                            } else {
                                assert(pages_dicts_of(tk)
                                    == Seq::<Seq<(Seq<u8>, ObjV)>>::empty());
                                assert(first_wins_key(pages_dicts_of(tk), k2) is None);
                            }
                        }
                    }
                } else {
                    proof {
                        lemma_has_type_push_other(tk, ps[k as int], nm_catalog());
                        lemma_has_type_push_other(tk, ps[k as int], nm_pages());
                        lemma_pages_dicts_push(tk, ps[k as int]);
                        assert(pages_dicts_of(ps.take(k + 1)) =~= pages_dicts_of(tk));
                    }
                }
            },
            _ => {
                proof {
                    lemma_has_type_push_other(tk, ps[k as int], nm_catalog());
                    lemma_has_type_push_other(tk, ps[k as int], nm_pages());
                    lemma_pages_dicts_push(tk, ps[k as int]);
                    assert(pages_dicts_of(ps.take(k + 1)) =~= pages_dicts_of(tk));
                }
            },
        }
        k += 1;
    }
    proof {
        assert(ps.take(n as int) =~= ps);
    }
    let pgs_id: ObjectId = match pages_id {
        Some(p) => p,
        None => {
            return Err(
                Error::StructuralError(
                    String::from_str("Invalid PDF: Pages root not found."),
                ),
            );
        },
    };
    let mut pages_base: Dict = match pages_dict {
        Some(d) => d,
        None => {
            proof {
                assert(false);
            }
            Dict::new()
        },
    };
    let ghost pre_pd: Seq<(Seq<u8>, ObjV)> = dv(pages_base);
    proof {
        assert(forall|k2: Seq<u8>|
            #[trigger] find_key(pre_pd, k2) == first_wins_key(pages_dicts_of(ps), k2));
    }
    let cat_id: ObjectId = match catalog_id {
        Some(c) => c,
        None => {
            return Err(
                Error::StructuralError(
                    String::from_str("Invalid PDF: Catalog root not found."),
                ),
            );
        },
    };
    let mut cat_base: Dict = match catalog_dict {
        Some(d) => d,
        None => {
            proof {
                assert(false);
            }
            Dict::new()
        },
    };
    // the selected pages, in selector order
    let ns: usize = selectors.len();
    let mut sel_ids: Vec<ObjectId> = Vec::new();
    let mut kid_refs: Vec<PdfObject> = Vec::new();
    let mut i: usize = 0;
    while i < ns
        invariant
            0 <= i <= ns,
            sel_ids@.len() == i,
            kid_refs@.len() == i,
            forall|i2: int|
                0 <= i2 < i ==> #[trigger] sel_ids@[i2] == sel_new_id(spp@, selectors@[i2]),
            forall|i2: int|
                0 <= i2 < i ==> ov(#[trigger] kid_refs@[i2]) == ObjV::Ref(
                    sel_new_id(spp@, selectors@[i2]),
                ),
        decreases ns - i,
    {
        let s = &selectors[i];
        let pid = spp[s.source_file_index][s.page_index];
        sel_ids.push(pid);
        kid_refs.push(PdfObject::Reference(pid));
        i += 1;
    }
    // rebuild the surviving page-tree root and catalog
    let ghost kr: Seq<PdfObject> = kid_refs@;
    pages_base.set(crate::names::key_count(), PdfObject::Integer(ns as i64));
    pages_base.set(crate::names::key_kids(), PdfObject::Array(kid_refs));
    proof {
        assert(find_key(dv(pages_base), nm_kids()) == Some(ObjV::Arr(crate::model::ovs(kr))));
        assert(crate::model::ovs(kr).len() == ns);
        assert(obj_wf(ObjV::Arr(crate::model::ovs(kr)))) by {
            assert forall|i3: int| 0 <= i3 < ns implies obj_wf(
                #[trigger] crate::model::ovs(kr)[i3],
            ) by {
                assert(crate::model::ovs(kr)[i3] == ov(kr[i3]));
            }
        }
    }
    cat_base.set(crate::names::key_pages(), PdfObject::Reference(pgs_id));
    cat_base.remove(olkey.as_slice());
    let ghost pd_v: Seq<(Seq<u8>, ObjV)> = dv(pages_base);
    let ghost cat_v: Seq<(Seq<u8>, ObjV)> = dv(cat_base);
    proof {
        assert(obj_wf(ObjV::Dict(cat_v)));
        assert(obj_wf(ObjV::Dict(pd_v)));
    }
    // emit, in pool order
    proof {
        assert forall|i2: int| 0 <= i2 < ns implies (#[trigger] sel_ids@[i2]).num >= 1 by {
            lemma_sel_is_page(ps, spp@, selectors@, sel_ids@, i2);
            lemma_pool_find_id(ps, sel_ids@[i2]);
        }
    }
    let mut out_objs: Vec<GraphEntry> = Vec::new();
    let mut k2: usize = 0;
    while k2 < n
        invariant
            0 <= k2 <= n,
            n == pool@.len(),
            evv(out_objs@).len() <= k2,
            forall|j: int|
                0 <= j < evv(out_objs@).len() ==> 1 <= (#[trigger] evv(out_objs@)[j]).0.num <= k2,
            forall|j: int, j2: int|
                0 <= j < j2 < evv(out_objs@).len() ==> (#[trigger] evv(out_objs@)[j]).0.num < (
                #[trigger] evv(out_objs@)[j2]).0.num,
            forall|j: int|
                0 <= j < evv(out_objs@).len() ==> obj_wf((#[trigger] evv(out_objs@)[j]).1),
            cat_id.num <= k2 ==> exists|j: int|
                0 <= j < evv(out_objs@).len() && (#[trigger] evv(out_objs@)[j]) == (
                    cat_id,
                    ObjV::Dict(cat_v),
                ),
            pgs_id.num <= k2 ==> exists|j: int|
                0 <= j < evv(out_objs@).len() && (#[trigger] evv(out_objs@)[j]) == (
                    pgs_id,
                    ObjV::Dict(pd_v),
                ),
            forall|i2: int|
                0 <= i2 < ns && sel_ids@[i2].num <= k2 && (forall|j2: int|
                    i2 < j2 < ns ==> #[trigger] sel_ids@[j2] != sel_ids@[i2]) ==> exists|j: int|
                    0 <= j < evv(out_objs@).len() && (#[trigger] evv(out_objs@)[j]).0 == sel_ids@[
                    i2] && page_entry_ok(
                        evv(out_objs@)[j].1,
                        pgs_id,
                        selectors@[i2].rotation,
                        stored_dict(ps, sel_ids@[i2]),
                    ),
        decreases n - k2,
    {
        let ghost out0: Seq<(ObjectId, ObjV)> = evv(out_objs@);
        let e = &pool[k2];
        proof {
            assert(ps[k2 as int] == (e.id, ov(e.obj)));
            assert(e.id.num == 1 + k2);
        }
        match &e.obj {
            PdfObject::Dictionary(d) => {
                if crate::graph::dict_has_type(d, ckey.as_slice()) {
                    proof {
                        assert(ps[k2 as int].1 matches ObjV::Dict(de) && dict_type(de) == Some(
                            nm_catalog(),
                        ));
                        lemma_not_kept_here(ps, pgs_id, nm_pages(), k2 as int);
                        lemma_no_page_here(ps, spp@, selectors@, sel_ids@, k2 as int);
                    }
                    if e.id.num == cat_id.num && e.id.gen == cat_id.gen {
                        out_objs.push(
                            GraphEntry {
                                id: e.id,
                                obj: PdfObject::Dictionary(crate::model::clone_dict(&cat_base)),
                            },
                        );
                        proof {
                            let out1 = evv(out_objs@);
                            assert(out1[out0.len() as int] == (cat_id, ObjV::Dict(cat_v)));
                            lemma_emit_preserved(out0, out1, cat_id, pgs_id, cat_v, pd_v,
                                sel_ids@, selectors@, ps, ns as int, k2 as int);
                        }
                    } else {
                        proof {
                            assert(cat_id.num != 1 + k2) by {
                                if cat_id.num == 1 + k2 {
                                    assert(ps[k2 as int].0 == cat_id);
                                }
                            }
                        }
                    }
                } else if crate::graph::dict_has_type(d, pskey.as_slice()) {
                    proof {
                        assert(ps[k2 as int].1 matches ObjV::Dict(de) && dict_type(de) == Some(
                            nm_pages(),
                        ));
                        lemma_not_kept_here(ps, cat_id, nm_catalog(), k2 as int);
                        lemma_no_page_here(ps, spp@, selectors@, sel_ids@, k2 as int);
                    }
                    if e.id.num == pgs_id.num && e.id.gen == pgs_id.gen {
                        out_objs.push(
                            GraphEntry {
                                id: e.id,
                                obj: PdfObject::Dictionary(crate::model::clone_dict(&pages_base)),
                            },
                        );
                        proof {
                            let out1 = evv(out_objs@);
                            assert(out1[out0.len() as int] == (pgs_id, ObjV::Dict(pd_v)));
                            lemma_emit_preserved(out0, out1, cat_id, pgs_id, cat_v, pd_v,
                                sel_ids@, selectors@, ps, ns as int, k2 as int);
                        }
                    } else {
                        proof {
                            assert(pgs_id.num != 1 + k2) by {
                                if pgs_id.num == 1 + k2 {
                                    assert(ps[k2 as int].0 == pgs_id);
                                }
                            }
                        }
                    }
                } else if crate::graph::dict_has_type(d, pgkey.as_slice()) {
                    proof {
                        assert(ps[k2 as int].1 matches ObjV::Dict(de) && dict_type(de) == Some(
                            nm_page(),
                        ));
                        lemma_not_kept_here(ps, cat_id, nm_catalog(), k2 as int);
                        lemma_not_kept_here(ps, pgs_id, nm_pages(), k2 as int);
                    }
                    match last_sel_for(selectors, &sel_ids, e.id) {
                        Some(j) => {
                            let mut pg = crate::model::clone_dict(d);
                            pg.set(crate::names::key_parent(), PdfObject::Reference(pgs_id));
                            match selectors[j].rotation.as_rotation() {
                                Some(deg) => {
                                    pg.set(
                                        crate::names::key_rotate(),
                                        PdfObject::Integer(deg as i64),
                                    );
                                },
                                None => {},
                            }
                            proof {
                                crate::model::lemma_find_id_at(ps, e.id, k2 as int);
                                assert(stored_dict(ps, e.id) == dv(*d));
                                assert(find_key(dv(pg), nm_type()) == find_key(dv(*d), nm_type()));
                                assert(dict_type(dv(pg)) == Some(nm_page()));
                                assert(find_key(dv(pg), nm_parent()) == Some(
                                    ObjV::Ref(pgs_id),
                                ));
                                assert(rotate_clause(
                                    dv(pg),
                                    selectors@[j as int].rotation,
                                    dv(*d),
                                ));
                                assert(obj_wf(ObjV::Dict(dv(pg))));
                                assert(page_entry_ok(
                                    ObjV::Dict(dv(pg)),
                                    pgs_id,
                                    selectors@[j as int].rotation,
                                    stored_dict(ps, e.id),
                                ));
                            }
                            out_objs.push(
                                GraphEntry { id: e.id, obj: PdfObject::Dictionary(pg) },
                            );
                            proof {
                                let out1 = evv(out_objs@);
                                lemma_emit_preserved(out0, out1, cat_id, pgs_id, cat_v, pd_v,
                                    sel_ids@, selectors@, ps, ns as int, k2 as int);
                                assert forall|i2: int|
                                    0 <= i2 < ns && sel_ids@[i2].num <= k2 + 1 && (forall|
                                        j2: int,
                                    |
                                        i2 < j2 < ns ==> #[trigger] sel_ids@[j2] != sel_ids@[
                                        i2]) implies exists|jj: int|
                                    0 <= jj < out1.len() && (#[trigger] out1[jj]).0 == sel_ids@[
                                    i2] && page_entry_ok(
                                        out1[jj].1,
                                        pgs_id,
                                        selectors@[i2].rotation,
                                        stored_dict(ps, sel_ids@[i2]),
                                    ) by {
                                    if sel_ids@[i2].num == 1 + k2 {
                                        lemma_sel_is_page(
                                            ps, spp@, selectors@, sel_ids@, i2,
                                        );
                                        lemma_pool_find_id(ps, sel_ids@[i2]);
                                        assert(sel_ids@[i2] == e.id);
                                        assert(i2 == j) by {
                                            if i2 < j {
                                                assert(sel_ids@[j as int] == sel_ids@[i2]);
                                            }
                                            if (j as int) < i2 {
                                                assert(sel_ids@[i2] != e.id);
                                            }
                                        }
                                        assert(out1[out0.len() as int].0 == e.id);
                                        assert(page_entry_ok(
                                            out1[out0.len() as int].1,
                                            pgs_id,
                                            selectors@[i2].rotation,
                                            stored_dict(ps, sel_ids@[i2]),
                                        ));
                                    }
                                }
                            }
                        },
                        None => {
                            proof {
                                assert forall|i2: int| 0 <= i2 < ns implies (#[trigger] sel_ids@[
                                i2]).num != 1 + k2 by {
                                    if sel_ids@[i2].num == 1 + k2 {
                                        lemma_sel_is_page(
                                            ps, spp@, selectors@, sel_ids@, i2,
                                        );
                                        lemma_pool_find_id(ps, sel_ids@[i2]);
                                        assert(sel_ids@[i2] == e.id);
                                    }
                                }
                            }
                        },
                    }
                } else if crate::graph::dict_has_type(d, olkey.as_slice())
                    || crate::graph::dict_has_type(d, ol2key.as_slice()) {
                    proof {
                        assert(!(ps[k2 as int].1 matches ObjV::Dict(de) && dict_type(de) == Some(
                            nm_catalog(),
                        )));
                        assert(!(ps[k2 as int].1 matches ObjV::Dict(de) && dict_type(de) == Some(
                            nm_pages(),
                        )));
                        assert(!(ps[k2 as int].1 matches ObjV::Dict(de) && dict_type(de) == Some(
                            nm_page(),
                        )));
                        lemma_not_kept_here(ps, cat_id, nm_catalog(), k2 as int);
                        lemma_not_kept_here(ps, pgs_id, nm_pages(), k2 as int);
                        lemma_no_page_here(ps, spp@, selectors@, sel_ids@, k2 as int);
                    }
                } else {
                    proof {
                        assert(!(ps[k2 as int].1 matches ObjV::Dict(de) && dict_type(de) == Some(
                            nm_catalog(),
                        )));
                        assert(!(ps[k2 as int].1 matches ObjV::Dict(de) && dict_type(de) == Some(
                            nm_pages(),
                        )));
                        assert(!(ps[k2 as int].1 matches ObjV::Dict(de) && dict_type(de) == Some(
                            nm_page(),
                        )));
                        lemma_not_kept_here(ps, cat_id, nm_catalog(), k2 as int);
                        lemma_not_kept_here(ps, pgs_id, nm_pages(), k2 as int);
                        lemma_no_page_here(ps, spp@, selectors@, sel_ids@, k2 as int);
                    }
                    out_objs.push(
                        GraphEntry { id: e.id, obj: crate::model::clone_obj(&e.obj) },
                    );
                    proof {
                        lemma_emit_preserved(out0, evv(out_objs@), cat_id, pgs_id, cat_v, pd_v,
                            sel_ids@, selectors@, ps, ns as int, k2 as int);
                    }
                }
            },
            _ => {
                proof {
                    assert(!(ps[k2 as int].1 is Dict));
                    lemma_not_kept_here(ps, cat_id, nm_catalog(), k2 as int);
                    lemma_not_kept_here(ps, pgs_id, nm_pages(), k2 as int);
                    lemma_no_page_here(ps, spp@, selectors@, sel_ids@, k2 as int);
                }
                out_objs.push(GraphEntry { id: e.id, obj: crate::model::clone_obj(&e.obj) });
                proof {
                    lemma_emit_preserved(out0, evv(out_objs@), cat_id, pgs_id, cat_v, pd_v,
                        sel_ids@, selectors@, ps, ns as int, k2 as int);
                }
            },
        }
        k2 += 1;
    }
    // trailer and final graph
    let mut trailer = Dict::new();
    trailer.set(crate::names::key_root(), PdfObject::Reference(cat_id));
    let count: usize = out_objs.len();
    let g = DocumentGraph {
        objects: out_objs,
        trailer,
        max_id: count as u32,
        version: crate::names::version_1_5_bytes(),
    };
    proof {
        let out = gv(g);
        assert(find_key(dv(g.trailer), nm_root()) == Some(ObjV::Ref(cat_id)));
        assert(cat_id.num <= n && pgs_id.num <= n);
        let cj = choose|j: int|
            0 <= j < out.len() && (#[trigger] out[j]) == (cat_id, ObjV::Dict(cat_v));
        assert forall|q: int| 0 <= q < cj implies (#[trigger] out[q]).0 != cat_id by {}
        crate::model::lemma_find_id_at(out, cat_id, cj);
        let pj = choose|j: int|
            0 <= j < out.len() && (#[trigger] out[j]) == (pgs_id, ObjV::Dict(pd_v));
        assert forall|q: int| 0 <= q < pj implies (#[trigger] out[q]).0 != pgs_id by {}
        crate::model::lemma_find_id_at(out, pgs_id, pj);
        assert(find_key(cat_v, nm_pages()) == Some(ObjV::Ref(pgs_id)));
        assert(find_key(cat_v, nm_outlines()) is None);
        assert(find_key(pd_v, nm_count()) == Some(ObjV::Int(ns as int)));
        assert forall|k2: Seq<u8>| k2 != nm_count() && k2 != nm_kids() implies #[trigger] find_key(
            pd_v,
            k2,
        ) == first_wins_key(pages_dicts_of(ps), k2) by {
            assert(find_key(pd_v, k2) == find_key(pre_pd, k2));
        }
        assert(find_key(pd_v, nm_kids()) == Some(ObjV::Arr(crate::model::ovs(kr))));
        assert(crate::model::ovs(kr).len() == ns);
        assert forall|i3: int| 0 <= i3 < ns implies crate::model::ovs(kr)[i3] == ObjV::Ref(
            sel_new_id(spp@, #[trigger] selectors@[i3]),
        ) by {
            assert(crate::model::ovs(kr)[i3] == ov(kr[i3]));
        }
        assert forall|i3: int| 0 <= i3 < ns implies (find_id(
            out,
            sel_new_id(spp@, #[trigger] selectors@[i3]),
        ) matches Some(ObjV::Dict(pg)) && dict_type(pg) == Some(nm_page()) && find_key(
            pg,
            nm_parent(),
        ) == Some(ObjV::Ref(pgs_id)) && ((forall|j2: int|
            i3 < j2 < ns ==> sel_new_id(spp@, #[trigger] selectors@[j2]) != sel_new_id(
                spp@,
                selectors@[i3],
            )) ==> rotate_clause(
            pg,
            selectors@[i3].rotation,
            stored_dict(ps, sel_new_id(spp@, selectors@[i3])),
        ))) by {
            let il = lemma_last_occurrence(sel_ids@, i3);
            lemma_sel_is_page(ps, spp@, selectors@, sel_ids@, il);
            lemma_pool_find_id(ps, sel_ids@[il]);
            assert(sel_ids@[il].num <= n);
            let jj = choose|jj: int|
                0 <= jj < out.len() && (#[trigger] out[jj]).0 == sel_ids@[il] && page_entry_ok(
                    out[jj].1,
                    pgs_id,
                    selectors@[il].rotation,
                    stored_dict(ps, sel_ids@[il]),
                );
            assert forall|q: int| 0 <= q < jj implies (#[trigger] out[q]).0 != sel_ids@[il] by {}
            crate::model::lemma_find_id_at(out, sel_ids@[il], jj);
            assert(sel_ids@[i3] == sel_new_id(spp@, selectors@[i3]));
            if forall|j2: int|
                i3 < j2 < ns ==> sel_new_id(spp@, #[trigger] selectors@[j2]) != sel_new_id(
                    spp@,
                    selectors@[i3],
                ) {
                assert(il == i3) by {
                    if i3 < il {
                        assert(sel_new_id(spp@, selectors@[il]) == sel_ids@[il]);
                    }
                }
            }
        }
        assert(ids_unique(out));
        assert(obj_wf(ObjV::Dict(dv(g.trailer))));
        assert(graph_wf(g));
    }
    Ok(g)
}



/// Whether any source stores a dictionary of the given type.
pub open spec fn sources_have_type(srcs: Seq<SourceFile>, t: Seq<u8>) -> bool {
    exists|si: int| 0 <= si < srcs.len() && has_dict_of_type(gv((#[trigger] srcs[si]).document), t)
}

/// The `i`-th page slot of a composed document: the kid is a reference
/// to a stored `Page` dictionary whose parent is the page-tree root; if
/// no later selector names the same page, its rotation obeys the
/// selector against its source page.
pub open spec fn page_out_ok(
    g: DocumentGraph,
    sels: Seq<Selector>,
    srcs: Seq<SourceFile>,
    pid: ObjectId,
    kids: Seq<ObjV>,
    i: int,
) -> bool {
    kids[i] matches ObjV::Ref(pgid) && (find_id(gv(g), pgid) matches Some(ObjV::Dict(pg))
        && dict_type(pg) == Some(nm_page()) && find_key(pg, nm_parent()) == Some(ObjV::Ref(pid))
        && ((forall|j2: int| i < j2 < sels.len() ==> kids[j2] != kids[i]) ==> rotate_clause(
        pg,
        sels[i].rotation,
        src_page_dict(srcs[sels[i].source_file_index as int], sels[i].page_index as int),
    )))
}

/// The structure a composed document shows: the trailer names a catalog
/// without outlines, the catalog names a page tree whose count and kid
/// list match the selectors, and every kid is a well-parented page.
pub open spec fn output_shape(g: DocumentGraph, sels: Seq<Selector>, srcs: Seq<SourceFile>) -> bool {
    find_key(dv(g.trailer), nm_root()) matches Some(ObjV::Ref(cid)) && (find_id(
        gv(g),
        cid,
    ) matches Some(ObjV::Dict(cat)) && find_key(cat, nm_outlines()) is None && (find_key(
        cat,
        nm_pages(),
    ) matches Some(ObjV::Ref(pid)) && (find_id(gv(g), pid) matches Some(ObjV::Dict(pd))
        && find_key(pd, nm_count()) == Some(ObjV::Int(sels.len() as int)) && (find_key(
        pd,
        nm_kids(),
    ) matches Some(ObjV::Arr(kids)) && kids.len() == sels.len() && (forall|i: int|
        0 <= i < sels.len() ==> #[trigger] page_out_ok(g, sels, srcs, pid, kids, i))))))
}

/// The first-wins merge the surviving page-tree root carries: for every
/// key other than the rebuilt `Count` and `Kids`, the root holds the key
/// exactly when some source's page-tree root does, and an integer or
/// name value comes unchanged from the earliest such root, in source
/// order.  (A value holding references is carried too, but renumbered,
/// so only its presence is stated here.)
pub open spec fn pages_merge_ok(g: DocumentGraph, srcs: Seq<SourceFile>) -> bool {
    find_key(dv(g.trailer), nm_root()) matches Some(ObjV::Ref(cid)) && (find_id(
        gv(g),
        cid,
    ) matches Some(ObjV::Dict(cat)) && (find_key(cat, nm_pages()) matches Some(ObjV::Ref(pid))
        && (find_id(gv(g), pid) matches Some(ObjV::Dict(pd)) && (forall|k: Seq<u8>|
        k != nm_count() && k != nm_kids() ==> {
            let fw = first_wins_key(sources_pages_dicts(srcs), k);
            &&& ((#[trigger] find_key(pd, k)) is Some <==> fw is Some)
            &&& (forall|v: int|
                fw == Some(ObjV::Int(v)) ==> find_key(pd, k) == Some(ObjV::Int(v)))
            &&& (forall|nm2: Seq<u8>|
                fw == Some(ObjV::Name(nm2)) ==> find_key(pd, k) == Some(ObjV::Name(nm2)))
        }))))
}

/// The structural type names the engine distinguishes are pairwise
/// distinct.
proof fn lemma_names_distinct()
    ensures
        nm_catalog() != nm_pages(),
        nm_catalog() != nm_page(),
        nm_pages() != nm_page(),
        nm_outlines() != nm_catalog(),
        nm_outlines() != nm_pages(),
        nm_outlines() != nm_page(),
        nm_outline() != nm_catalog(),
        nm_outline() != nm_pages(),
        nm_outline() != nm_page(),
        nm_type() != nm_parent(),
        nm_type() != nm_rotate(),
        nm_parent() != nm_rotate(),
        nm_count() != nm_kids(),
{
    assert(nm_catalog().len() == 7);
    assert(nm_pages().len() == 5);
    assert(nm_page().len() == 4);
    assert(nm_outlines().len() == 8);
    assert(nm_outline().len() == 7);
    assert(nm_outlines()[0] == 79);
    assert(nm_catalog()[0] == 67);
    assert(nm_outline()[0] == 79);
    assert(nm_type().len() == 4);
    assert(nm_parent().len() == 6);
    assert(nm_rotate().len() == 6);
    assert(nm_parent()[0] == 80);
    assert(nm_rotate()[0] == 82);
    assert(nm_count().len() == 5);
    assert(nm_kids().len() == 4);
}

/// What a composed page entry looks like: a `Page` dictionary whose
/// parent is the surviving page-tree root and whose rotation obeys the
/// selector.
pub open spec fn page_entry_ok(
    v: ObjV,
    pgs_id: ObjectId,
    rot: Rotation,
    se: Seq<(Seq<u8>, ObjV)>,
) -> bool {
    v matches ObjV::Dict(pg) && dict_type(pg) == Some(nm_page()) && find_key(pg, nm_parent())
        == Some(ObjV::Ref(pgs_id)) && rotate_clause(pg, rot, se)
}

/// In a graph whose numbers are dense from one, a stored identifier sits
/// at the position its number names.
proof fn lemma_pool_find_id(ps: Seq<(ObjectId, ObjV)>, x: ObjectId)
    requires
        forall|k: int| 0 <= k < ps.len() ==> (#[trigger] ps[k]).0.num == 1 + k,
        find_id(ps, x) is Some,
    ensures
        1 <= x.num <= ps.len(),
        ps[x.num - 1].0 == x,
        find_id(ps, x) == Some(ps[x.num - 1].1),
{
    crate::graph::lemma_find_id_pos_exists(ps, x);
    let q = choose|q: int| 0 <= q < ps.len() && (#[trigger] ps[q]).0 == x;
    assert(x.num == 1 + q);
    assert forall|q2: int| 0 <= q2 < q implies (#[trigger] ps[q2]).0 != x by {}
    crate::model::lemma_find_id_at(ps, x, q);
}

/// A selector's pooled page identifier is stored as a `Page` dictionary.
proof fn lemma_sel_is_page(
    ps: Seq<(ObjectId, ObjV)>,
    spp: Seq<Vec<ObjectId>>,
    selectors: Seq<Selector>,
    sel_ids: Seq<ObjectId>,
    i2: int,
)
    requires
        sel_ids.len() == selectors.len(),
        forall|i3: int| 0 <= i3 < selectors.len() ==> #[trigger] sel_ids[i3] == sel_new_id(spp, selectors[i3]),
        forall|i3: int|
            0 <= i3 < selectors.len() ==> (#[trigger] selectors[i3]).source_file_index < spp.len()
                && selectors[i3].page_index < spp[selectors[i3].source_file_index as int]@.len(),
        forall|si: int, j: int|
            0 <= si < spp.len() && 0 <= j < spp[si]@.len() ==> (find_id(
                ps,
                #[trigger] spp[si]@[j],
            ) matches Some(ObjV::Dict(e)) && dict_type(e) == Some(nm_page()) && obj_wf(
                ObjV::Dict(e),
            )),
        0 <= i2 < selectors.len(),
    ensures
        (find_id(ps, sel_ids[i2]) matches Some(ObjV::Dict(e)) && dict_type(e) == Some(nm_page())
            && obj_wf(ObjV::Dict(e))),
{
    let s = selectors[i2];
    assert(sel_ids[i2] == spp[s.source_file_index as int]@[s.page_index as int]);
}

/// No selected page sits at a pool position whose object is not a
/// `Page` dictionary.
proof fn lemma_no_page_here(
    ps: Seq<(ObjectId, ObjV)>,
    spp: Seq<Vec<ObjectId>>,
    selectors: Seq<Selector>,
    sel_ids: Seq<ObjectId>,
    k2: int,
)
    requires
        forall|k: int| 0 <= k < ps.len() ==> (#[trigger] ps[k]).0.num == 1 + k,
        0 <= k2 < ps.len(),
        !(ps[k2].1 matches ObjV::Dict(e) && dict_type(e) == Some(nm_page())),
        sel_ids.len() == selectors.len(),
        forall|i3: int| 0 <= i3 < selectors.len() ==> #[trigger] sel_ids[i3] == sel_new_id(spp, selectors[i3]),
        forall|i3: int|
            0 <= i3 < selectors.len() ==> (#[trigger] selectors[i3]).source_file_index < spp.len()
                && selectors[i3].page_index < spp[selectors[i3].source_file_index as int]@.len(),
        forall|si: int, j: int|
            0 <= si < spp.len() && 0 <= j < spp[si]@.len() ==> (find_id(
                ps,
                #[trigger] spp[si]@[j],
            ) matches Some(ObjV::Dict(e)) && dict_type(e) == Some(nm_page()) && obj_wf(
                ObjV::Dict(e),
            )),
    ensures
        forall|i2: int| 0 <= i2 < sel_ids.len() ==> (#[trigger] sel_ids[i2]).num != 1 + k2,
{
    assert forall|i2: int| 0 <= i2 < sel_ids.len() implies (#[trigger] sel_ids[i2]).num != 1
        + k2 by {
        if sel_ids[i2].num == 1 + k2 {
            lemma_sel_is_page(ps, spp, selectors, sel_ids, i2);
            lemma_pool_find_id(ps, sel_ids[i2]);
        }
    }
}

/// A kept identifier whose position holds a dictionary of one type does
/// not sit where the object is of another kind.
proof fn lemma_not_kept_here(ps: Seq<(ObjectId, ObjV)>, kept: ObjectId, t: Seq<u8>, k2: int)
    requires
        forall|k: int| 0 <= k < ps.len() ==> (#[trigger] ps[k]).0.num == 1 + k,
        1 <= kept.num <= ps.len(),
        (ps[kept.num - 1].1 matches ObjV::Dict(e) && dict_type(e) == Some(t)),
        0 <= k2 < ps.len(),
        !(ps[k2].1 matches ObjV::Dict(e) && dict_type(e) == Some(t)),
    ensures
        kept.num != 1 + k2,
{
}

/// Appending a fresh, larger-numbered entry preserves everything already
/// recorded of the emitted prefix.
proof fn lemma_emit_preserved(
    out0: Seq<(ObjectId, ObjV)>,
    out1: Seq<(ObjectId, ObjV)>,
    cat_id: ObjectId,
    pgs_id: ObjectId,
    cat_v: Seq<(Seq<u8>, ObjV)>,
    pd_v: Seq<(Seq<u8>, ObjV)>,
    sel_ids: Seq<ObjectId>,
    selectors: Seq<Selector>,
    ps: Seq<(ObjectId, ObjV)>,
    ns: int,
    k2: int,
)
    requires
        out1.len() == out0.len() + 1,
        forall|q: int| 0 <= q < out0.len() ==> #[trigger] out1[q] == out0[q],
        forall|q: int| 0 <= q < out0.len() ==> 1 <= (#[trigger] out0[q]).0.num <= k2,
        forall|q: int, q2: int|
            0 <= q < q2 < out0.len() ==> (#[trigger] out0[q]).0.num < (#[trigger] out0[q2]).0.num,
        forall|q: int| 0 <= q < out0.len() ==> obj_wf((#[trigger] out0[q]).1),
        out1[out0.len() as int].0.num == 1 + k2,
        obj_wf(out1[out0.len() as int].1),
        0 <= k2,
    ensures
        forall|j: int| 0 <= j < out1.len() ==> 1 <= (#[trigger] out1[j]).0.num <= k2 + 1,
        forall|j: int, j2: int|
            0 <= j < j2 < out1.len() ==> (#[trigger] out1[j]).0.num < (#[trigger] out1[j2]).0.num,
        forall|j: int| 0 <= j < out1.len() ==> obj_wf((#[trigger] out1[j]).1),
        (exists|j: int| 0 <= j < out0.len() && (#[trigger] out0[j]) == (cat_id, ObjV::Dict(cat_v)))
            ==> (exists|j: int|
            0 <= j < out1.len() && (#[trigger] out1[j]) == (cat_id, ObjV::Dict(cat_v))),
        (exists|j: int| 0 <= j < out0.len() && (#[trigger] out0[j]) == (pgs_id, ObjV::Dict(pd_v)))
            ==> (exists|j: int|
            0 <= j < out1.len() && (#[trigger] out1[j]) == (pgs_id, ObjV::Dict(pd_v))),
        forall|i2: int|
            0 <= i2 < ns && (exists|j: int|
                0 <= j < out0.len() && (#[trigger] out0[j]).0 == #[trigger] sel_ids[i2]
                    && page_entry_ok(
                    out0[j].1,
                    pgs_id,
                    selectors[i2].rotation,
                    stored_dict(ps, sel_ids[i2]),
                )) ==> (exists|j: int|
                0 <= j < out1.len() && (#[trigger] out1[j]).0 == sel_ids[i2] && page_entry_ok(
                    out1[j].1,
                    pgs_id,
                    selectors[i2].rotation,
                    stored_dict(ps, sel_ids[i2]),
                )),
{
    assert forall|j: int| 0 <= j < out1.len() implies 1 <= (#[trigger] out1[j]).0.num <= k2
        + 1 && obj_wf(out1[j].1) by {
        if j < out0.len() {
            assert(out1[j] == out0[j]);
        }
    }
    assert forall|j: int, j2: int| 0 <= j < j2 < out1.len() implies (#[trigger] out1[j]).0.num < (
    #[trigger] out1[j2]).0.num by {
        if j2 < out0.len() {
            assert(out1[j] == out0[j]);
            assert(out1[j2] == out0[j2]);
        } else {
            if j < out0.len() {
                assert(out1[j] == out0[j]);
            }
        }
    }
    if exists|j: int| 0 <= j < out0.len() && (#[trigger] out0[j]) == (cat_id, ObjV::Dict(cat_v)) {
        let j = choose|j: int|
            0 <= j < out0.len() && (#[trigger] out0[j]) == (cat_id, ObjV::Dict(cat_v));
        assert(out1[j] == out0[j]);
    }
    if exists|j: int| 0 <= j < out0.len() && (#[trigger] out0[j]) == (pgs_id, ObjV::Dict(pd_v)) {
        let j = choose|j: int|
            0 <= j < out0.len() && (#[trigger] out0[j]) == (pgs_id, ObjV::Dict(pd_v));
        assert(out1[j] == out0[j]);
    }
    assert forall|i2: int|
        0 <= i2 < ns && (exists|j: int|
            0 <= j < out0.len() && (#[trigger] out0[j]).0 == #[trigger] sel_ids[i2]
                && page_entry_ok(
                out0[j].1,
                pgs_id,
                selectors[i2].rotation,
                stored_dict(ps, sel_ids[i2]),
            )) implies (exists|j: int|
        0 <= j < out1.len() && (#[trigger] out1[j]).0 == sel_ids[i2] && page_entry_ok(
            out1[j].1,
            pgs_id,
            selectors[i2].rotation,
            stored_dict(ps, sel_ids[i2]),
        )) by {
        let j = choose|j: int|
            0 <= j < out0.len() && (#[trigger] out0[j]).0 == sel_ids[i2] && page_entry_ok(
                out0[j].1,
                pgs_id,
                selectors[i2].rotation,
                stored_dict(ps, sel_ids[i2]),
            );
        assert(out1[j] == out0[j]);
    }
}

/// Every position of a finite sequence has a last occurrence of its
/// value at or after it; returns that position.
proof fn lemma_last_occurrence(ids: Seq<ObjectId>, i: int) -> (il: int)
    requires
        0 <= i < ids.len(),
    ensures
        i <= il < ids.len(),
        ids[il] == ids[i],
        forall|j2: int| il < j2 < ids.len() ==> #[trigger] ids[j2] != ids[il],
    decreases ids.len() - i,
{
    if forall|j2: int| i < j2 < ids.len() ==> #[trigger] ids[j2] != ids[i] {
        i
    } else {
        let j = choose|j: int| i < j < ids.len() && #[trigger] ids[j] == ids[i];
        lemma_last_occurrence(ids, j)
    }
}

/// Appending an entry that is no dictionary of type `t` does not create
/// one.
proof fn lemma_has_type_push_other(s: Seq<(ObjectId, ObjV)>, x: (ObjectId, ObjV), t: Seq<u8>)
    requires
        !(x.1 matches ObjV::Dict(e) && dict_type(e) == Some(t)),
    ensures
        has_dict_of_type(s.push(x), t) == has_dict_of_type(s, t),
{
    if has_dict_of_type(s, t) {
        let k = choose|k: int|
            0 <= k < s.len() && ((#[trigger] s[k]).1 matches ObjV::Dict(e) && dict_type(e) == Some(
                t,
            ));
        assert(s.push(x)[k] == s[k]);
    }
    if has_dict_of_type(s.push(x), t) {
        let k = choose|k: int|
            0 <= k < s.push(x).len() && ((#[trigger] s.push(x)[k]).1 matches ObjV::Dict(e)
                && dict_type(e) == Some(t));
        assert(k < s.len());
        assert(s[k] == s.push(x)[k]);
    }
}

impl Project {
    /// Renumbers every source's graph into its own identifier range,
    /// starting at one, and concatenates them; also locates, per source,
    /// the new identifier of each of its pages, in page order.
    #[verifier::loop_isolation(false)]
    fn pool_sources(&self) -> (r: (Vec<GraphEntry>, Vec<Vec<ObjectId>>))
        requires
            project_wf(*self),
            total_objects(self.source_files@) + 1 <= u32::MAX,
        ensures
            evv(r.0@).len() == total_objects(self.source_files@),
            forall|k: int| 0 <= k < evv(r.0@).len() ==> (#[trigger] evv(r.0@)[k]).0.num == 1 + k,
            forall|k: int| 0 <= k < evv(r.0@).len() ==> obj_wf((#[trigger] evv(r.0@)[k]).1),
            forall|t: Seq<u8>|
                #[trigger] has_dict_of_type(evv(r.0@), t) ==> exists|si: int|
                    0 <= si < self.source_files@.len() && has_dict_of_type(
                        gv((#[trigger] self.source_files@[si]).document),
                        t,
                    ),
            forall|t: Seq<u8>, si: int|
                0 <= si < self.source_files@.len() && #[trigger] has_dict_of_type(
                    gv(self.source_files@[si].document),
                    t,
                ) ==> has_dict_of_type(evv(r.0@), t),
            pages_dicts_of(evv(r.0@)).len() == sources_pages_dicts(self.source_files@).len(),
            exists|ms: Seq<(Seq<ObjectId>, int)>|
                #![trigger ms.len()]
                ms.len() == pages_dicts_of(evv(r.0@)).len() && (forall|j: int|
                    0 <= j < ms.len() ==> #[trigger] pages_dicts_of(evv(r.0@))[j] == remap_entries(
                        ms[j].0,
                        ms[j].1,
                        sources_pages_dicts(self.source_files@)[j],
                    )),
            r.1@.len() == self.source_files@.len(),
            forall|si: int|
                0 <= si < r.1@.len() ==> (#[trigger] r.1@[si])@.len() == page_ids(
                    self.source_files@[si].document,
                ).len(),
            forall|si: int, j: int|
                0 <= si < r.1@.len() && 0 <= j < r.1@[si]@.len() ==> (find_id(
                    evv(r.0@),
                    #[trigger] r.1@[si]@[j],
                ) matches Some(ObjV::Dict(e)) && dict_type(e) == Some(nm_page()) && obj_wf(
                    ObjV::Dict(e),
                ) && rot_match(e, src_page_dict(self.source_files@[si], j))),
    {
        let ghost srcs: Seq<SourceFile> = self.source_files@;
        let ns: usize = self.source_files.len();
        let mut pool: Vec<GraphEntry> = Vec::new();
        let mut spp: Vec<Vec<ObjectId>> = Vec::new();
        let mut start: u32 = 1;
        let mut si: usize = 0;
        let ghost mut msl: Seq<(Seq<ObjectId>, int)> = Seq::empty();
        proof {
            assert(srcs.take(0) =~= Seq::<SourceFile>::empty());
            assert(evv(pool@).len() == 0);
            assert(pages_dicts_of(evv(pool@)) =~= Seq::<Seq<(Seq<u8>, ObjV)>>::empty());
            assert(sources_pages_dicts(srcs.take(0)) =~= Seq::<Seq<(Seq<u8>, ObjV)>>::empty());
        }
        while si < ns
            invariant
                0 <= si <= ns,
                start as int == 1 + evv(pool@).len(),
                evv(pool@).len() == total_objects(srcs.take(si as int)),
                forall|k: int|
                    0 <= k < evv(pool@).len() ==> (#[trigger] evv(pool@)[k]).0.num == 1 + k,
                forall|k: int| 0 <= k < evv(pool@).len() ==> obj_wf((#[trigger] evv(pool@)[k]).1),
                forall|t: Seq<u8>|
                    #[trigger] has_dict_of_type(evv(pool@), t) ==> exists|si2: int|
                        0 <= si2 < si && has_dict_of_type(
                            gv((#[trigger] srcs[si2]).document),
                            t,
                        ),
                forall|t: Seq<u8>, si2: int|
                    0 <= si2 < si && #[trigger] has_dict_of_type(gv(srcs[si2].document), t)
                        ==> has_dict_of_type(evv(pool@), t),
                pages_dicts_of(evv(pool@)).len() == sources_pages_dicts(
                    srcs.take(si as int),
                ).len(),
                msl.len() == pages_dicts_of(evv(pool@)).len(),
                forall|j: int|
                    0 <= j < msl.len() ==> #[trigger] pages_dicts_of(evv(pool@))[j]
                        == remap_entries(
                        msl[j].0,
                        msl[j].1,
                        sources_pages_dicts(srcs.take(si as int))[j],
                    ),
                spp@.len() == si,
                forall|si2: int|
                    0 <= si2 < si as int ==> (#[trigger] spp@[si2])@.len() == page_ids(
                        srcs[si2].document,
                    ).len(),
                forall|si2: int, j: int|
                    0 <= si2 < spp@.len() && 0 <= j < spp@[si2]@.len() ==> (find_id(
                        evv(pool@),
                        #[trigger] spp@[si2]@[j],
                    ) matches Some(ObjV::Dict(e)) && dict_type(e) == Some(nm_page()) && obj_wf(
                        ObjV::Dict(e),
                    ) && rot_match(e, src_page_dict(srcs[si2], j))),
            decreases ns - si,
        {
            let ghost pool0: Seq<(ObjectId, ObjV)> = evv(pool@);
            let ghost msl0: Seq<(Seq<ObjectId>, int)> = msl;
            let sf = &self.source_files[si];
            let ghost doc_gs: Seq<(ObjectId, ObjV)> = gv(sf.document);
            proof {
                lemma_total_split(srcs, si as int);
                assert(srcs.skip(si as int)[0] == srcs[si as int]);
                assert(srcs.skip(si as int).drop_first() =~= srcs.skip(si as int + 1));
                lemma_total_nonneg(srcs.skip(si as int + 1));
                assert(start as int + doc_gs.len() <= u32::MAX as int + 1);
            }
            let ghost st0: int = start as int;
            let renum = crate::graph::renumber_graph(&sf.document, start);
            let pids = collect_page_ids(&sf.document);
            let mut ids: Vec<ObjectId> = Vec::new();
            let n_obj: usize = sf.document.objects.len();
            let mut k: usize = 0;
            while k < n_obj
                invariant
                    ids@.len() == k,
                    0 <= k <= n_obj,
                    forall|j: int| 0 <= j < k ==> ids@[j] == doc_gs[j].0,
                decreases n_obj - k,
            {
                ids.push(self.source_files[si].document.objects[k].id);
                k += 1;
            }
            proof {
                assert(ids@ =~= gids(doc_gs));
                lemma_page_ids_exist(sf.document);
            }
            let np: usize = pids.len();
            let mut pages_new: Vec<ObjectId> = Vec::new();
            let ghost mut poss: Seq<int> = Seq::empty();
            let mut j: usize = 0;
            while j < np
                invariant
                    0 <= j <= np,
                    pages_new@.len() == j,
                    poss.len() == j,
                    forall|j2: int|
                        0 <= j2 < j ==> 0 <= #[trigger] poss[j2] < doc_gs.len(),
                    forall|j2: int|
                        0 <= j2 < j ==> gids(doc_gs)[#[trigger] poss[j2]] == pids@[j2],
                    forall|j2: int, q: int|
                        0 <= j2 < j && 0 <= q < #[trigger] poss[j2] ==> #[trigger] gids(
                            doc_gs,
                        )[q] != pids@[j2],
                    forall|j2: int|
                        0 <= j2 < j ==> #[trigger] pages_new@[j2] == (ObjectId {
                            num: (st0 + poss[j2]) as u32,
                            gen: pids@[j2].gen,
                        }),
                decreases np - j,
            {
                match crate::graph::find_id_pos(&ids, pids[j]) {
                    Some(p) => {
                        proof {
                            crate::graph::lemma_idx_of_props(gids(doc_gs), pids@[j as int]);
                        }
                        pages_new.push(ObjectId { num: start + p as u32, gen: pids[j].gen });
                        proof {
                            poss = poss.push(p as int);
                        }
                    },
                    None => {
                        proof {
                            crate::graph::lemma_idx_of_props(gids(doc_gs), pids@[j as int]);
                            crate::graph::lemma_find_id_pos_exists(doc_gs, pids@[j as int]);
                            let q = choose|q: int|
                                0 <= q < doc_gs.len() && (#[trigger] doc_gs[q]).0 == pids@[j as int];
                            assert(gids(doc_gs)[q] == pids@[j as int]);
                            assert(false);
                        }
                        pages_new.push(pids[j]);
                        proof {
                            poss = poss.push(0);
                        }
                    },
                }
                j += 1;
            }
            let ghost ext: Seq<(ObjectId, ObjV)> = gv(renum);
            let mut renum_objects = renum.objects;
            proof {
                assert(evv(renum_objects@) == ext);
            }
            pool.append(&mut renum_objects);
            spp.push(pages_new);
            proof {
                assert(evv(pool@) =~= pool0 + ext);
            }
            let added: usize = sf.document.objects.len();
            start = start + added as u32;
            si += 1;
            proof {
                let pool1 = evv(pool@);
                assert(srcs.take(si as int) =~= srcs.take(si as int - 1).push(
                    srcs[si as int - 1],
                ));
                lemma_total_take_push(srcs.take(si as int - 1), srcs[si as int - 1]);
                assert(pool1.len() == total_objects(srcs.take(si as int)));
                assert forall|k2: int| 0 <= k2 < pool1.len() implies (#[trigger] pool1[k2]).0.num
                    == 1 + k2 && obj_wf(pool1[k2].1) by {
                    if k2 < pool0.len() {
                        assert(pool1[k2] == pool0[k2]);
                    } else {
                        assert(pool1[k2] == ext[k2 - pool0.len()]);
                        assert(graph_wf(sf.document));
                    }
                }
                // the page-tree root dictionaries, with their remapping
                lemma_pages_dicts_concat(pool0, ext);
                assert forall|k3: int| 0 <= k3 < doc_gs.len() implies (#[trigger] ext[k3]).1
                    == remap_obj(gids(doc_gs), st0, doc_gs[k3].1) by {}
                lemma_pages_dicts_remap(doc_gs, ext, gids(doc_gs), st0);
                lemma_sources_pages_dicts_push(srcs.take(si as int - 1), srcs[si as int - 1]);
                assert(doc_gs == gv(srcs[si as int - 1].document));
                let old_pd = pages_dicts_of(pool0);
                let new_pd = pages_dicts_of(ext);
                let src_pd = pages_dicts_of(doc_gs);
                assert(pages_dicts_of(pool1) == old_pd + new_pd);
                assert(sources_pages_dicts(srcs.take(si as int)) == sources_pages_dicts(
                    srcs.take(si as int - 1),
                ) + src_pd);
                msl = msl0 + Seq::new(new_pd.len(), |q: int| (gids(doc_gs), st0));
                assert forall|j: int| 0 <= j < msl.len() implies #[trigger] pages_dicts_of(
                    pool1,
                )[j] == remap_entries(
                    msl[j].0,
                    msl[j].1,
                    sources_pages_dicts(srcs.take(si as int))[j],
                ) by {
                    if j < old_pd.len() {
                        assert(pages_dicts_of(pool1)[j] == old_pd[j]);
                        assert(msl[j] == msl0[j]);
                        assert(sources_pages_dicts(srcs.take(si as int))[j]
                            == sources_pages_dicts(srcs.take(si as int - 1))[j]);
                    } else {
                        assert(pages_dicts_of(pool1)[j] == new_pd[j - old_pd.len()]);
                        assert(msl[j] == (gids(doc_gs), st0));
                        assert(sources_pages_dicts(srcs.take(si as int))[j] == src_pd[j
                            - old_pd.len()]);
                        assert(new_pd[j - old_pd.len()] == remap_entries(
                            gids(doc_gs),
                            st0,
                            src_pd[j - old_pd.len()],
                        ));
                    }
                }
                assert forall|t: Seq<u8>| #[trigger] has_dict_of_type(pool1, t) implies exists|
                    si2: int,
                | 0 <= si2 < si && has_dict_of_type(gv((#[trigger] srcs[si2]).document), t) by {
                    let k2 = choose|k2: int|
                        0 <= k2 < pool1.len() && ((#[trigger] pool1[k2]).1 matches ObjV::Dict(e)
                            && dict_type(e) == Some(t));
                    if k2 < pool0.len() {
                        assert(pool1[k2] == pool0[k2]);
                        assert(has_dict_of_type(pool0, t));
                    } else {
                        let k3 = k2 - pool0.len();
                        assert(pool1[k2] == ext[k3]);
                        assert(ext[k3].1 == remap_obj(gids(doc_gs), st0, doc_gs[k3].1));
                        lemma_remap_shape(gids(doc_gs), st0, doc_gs[k3].1);
                        assert(has_dict_of_type(doc_gs, t));
                        assert(0 <= si - 1 < si);
                    }
                }
                assert forall|t: Seq<u8>, si2: int|
                    0 <= si2 < si && #[trigger] has_dict_of_type(gv(srcs[si2].document), t) implies
                    has_dict_of_type(pool1, t) by {
                    if si2 < si - 1 {
                        assert(has_dict_of_type(pool0, t));
                        let k2 = choose|k2: int|
                            0 <= k2 < pool0.len() && ((#[trigger] pool0[k2]).1 matches ObjV::Dict(
                                e,
                            ) && dict_type(e) == Some(t));
                        assert(pool1[k2] == pool0[k2]);
                    } else {
                        let k3 = choose|k3: int|
                            0 <= k3 < doc_gs.len() && ((#[trigger] doc_gs[k3]).1 matches ObjV::Dict(
                                e,
                            ) && dict_type(e) == Some(t));
                        assert(pool1[pool0.len() + k3] == ext[k3]);
                        assert(ext[k3].1 == remap_obj(gids(doc_gs), st0, doc_gs[k3].1));
                        lemma_remap_shape(gids(doc_gs), st0, doc_gs[k3].1);
                    }
                }
                assert forall|si2: int, j2: int|
                    0 <= si2 < spp@.len() && 0 <= j2 < spp@[si2]@.len() implies (find_id(
                    pool1,
                    #[trigger] spp@[si2]@[j2],
                ) matches Some(ObjV::Dict(e)) && dict_type(e) == Some(nm_page()) && obj_wf(
                    ObjV::Dict(e),
                ) && rot_match(e, src_page_dict(srcs[si2], j2))) by {
                    if si2 < spp@.len() - 1 {
                        crate::graph::lemma_find_id_concat(pool0, ext, spp@[si2]@[j2]);
                    } else {
                        let st: int = st0;
                        let pid = pids@[j2];
                        let p = poss[j2];
                        lemma_page_ids_exist(srcs[si2].document);
                        assert(doc_gs[p].0 == pid);
                        assert(forall|q: int| 0 <= q < p ==> (#[trigger] doc_gs[q]).0 != pid);
                        crate::model::lemma_find_id_at(doc_gs, pid, p);
                        let se = src_page_dict(srcs[si2], j2);
                        assert(doc_gs[p].1 == ObjV::Dict(se));
                        assert(ext[p].1 == remap_obj(gids(doc_gs), st, doc_gs[p].1));
                        assert(ext[p].0 == (ObjectId { num: (st + p) as u32, gen: doc_gs[p].0.gen }));
                        assert(spp@[si2]@[j2] == ext[p].0);
                        assert forall|q: int| 0 <= q < pool0.len() + p implies (#[trigger] pool1[
                        q]).0 != ext[p].0 by {
                            assert(pool1[q].0.num == 1 + q);
                            assert(ext[p].0.num == 1 + pool0.len() + p);
                        }
                        crate::model::lemma_find_id_at(pool1, ext[p].0, pool0.len() + p);
                        crate::graph::lemma_remap_dict_type(gids(doc_gs), st, se);
                        crate::graph::lemma_remap_find_key(gids(doc_gs), st, se, nm_rotate());
                        assert(graph_wf(srcs[si2].document));
                        crate::graph::lemma_remap_wf(gids(doc_gs), st, ObjV::Dict(se));
                        assert(rot_match(remap_entries(gids(doc_gs), st, se), se)) by {
                            match find_key(se, nm_rotate()) {
                                Some(v) => {
                                    if v matches ObjV::Int(n) {
                                        assert(remap_obj(gids(doc_gs), st, v) == v);
                                    }
                                },
                                None => {},
                            }
                        }
                    }
                }
            }
        }
        proof {
            assert(srcs.take(ns as int) =~= srcs);
            assert(msl.len() == pages_dicts_of(evv(pool@)).len() && (forall|j: int|
                0 <= j < msl.len() ==> #[trigger] pages_dicts_of(evv(pool@))[j] == remap_entries(
                    msl[j].0,
                    msl[j].1,
                    sources_pages_dicts(srcs)[j],
                )));
        }
        (pool, spp)
    }

    /// A project with no sources.
    pub fn new() -> (p: Project)
        ensures
            p.source_files@.len() == 0,
    {
        Project { source_files: Vec::new() }
    }

    /// Removes every source.
    pub fn clear(&mut self)
        ensures
            final(self).source_files@.len() == 0,
    {
        self.source_files.clear()
    }

    /// Appends newly imported sources, keeping the existing ones.
    pub fn add_source_files(&mut self, new_files: Vec<SourceFile>)
        ensures
            final(self).source_files@.len() == old(self).source_files@.len() + new_files@.len(),
            forall|i: int|
                0 <= i < old(self).source_files@.len() ==> #[trigger] final(self).source_files@[i]
                    == old(self).source_files@[i],
            forall|i: int|
                0 <= i < new_files@.len() ==> #[trigger] final(self).source_files@[old(self).source_files@.len() + i]
                    == new_files@[i],
    {
        self.source_files.append(&mut { new_files });
    }


    /// Composes one new document from the selected pages, in selector
    /// order: sources are pooled under fresh identifiers, one catalog
    /// and one page-tree root survive, selected pages are re-parented
    /// and rotated, the result is renumbered densely, its eligible
    /// streams are compressed, and everything unreachable from the
    /// trailer is pruned.  No source is changed.
    #[verifier::rlimit(100)]
    pub fn export(&self, selectors: &Vec<Selector>) -> (r: Result<DocumentGraph, Error>)
        requires
            project_wf(*self),
            total_objects(self.source_files@) + 2 <= u32::MAX,
            selectors@.len() <= u32::MAX,
        ensures
            (r matches Err(e) && e is EmptySources) <==> self.source_files@.len() == 0,
            (r matches Err(e) && e is SelectorOutOfRange) <==> (self.source_files@.len() > 0
                && exists|i: int|
                0 <= i < selectors@.len() && !sel_ok(*self, #[trigger] selectors@[i])),
            r matches Err(Error::SelectorOutOfRange(i)) ==> 0 <= i < selectors@.len() && !sel_ok(
                *self,
                selectors@[i as int],
            ) && (forall|j: int| 0 <= j < i ==> sel_ok(*self, #[trigger] selectors@[j])),
            (r matches Err(e) && e is StructuralError) <==> (self.source_files@.len() > 0 && (
            forall|i: int| 0 <= i < selectors@.len() ==> sel_ok(*self, #[trigger] selectors@[i]))
                && !(sources_have_type(self.source_files@, nm_catalog()) && sources_have_type(
                self.source_files@,
                nm_pages(),
            ))),
            (r is Ok) <==> (self.source_files@.len() > 0 && (forall|i: int|
                0 <= i < selectors@.len() ==> sel_ok(*self, #[trigger] selectors@[i]))
                && sources_have_type(self.source_files@, nm_catalog()) && sources_have_type(
                self.source_files@,
                nm_pages(),
            )),
            r matches Err(e) ==> (e matches Error::StructuralError(m) ==> m@ == (
            if !sources_have_type(self.source_files@, nm_pages()) {
                "Invalid PDF: Pages root not found."@
            } else {
                "Invalid PDF: Catalog root not found."@
            })),
            r matches Ok(out) ==> {
                &&& graph_wf(out)
                &&& output_shape(out, selectors@, self.source_files@)
                &&& pages_merge_ok(out, self.source_files@)
                &&& out.version@ == nm_version_1_5()
                &&& (forall|k: int|
                    0 <= k < gv(out).len() ==> 1 <= (#[trigger] gv(out)[k]).0.num
                        <= total_objects(self.source_files@) + 2)
                &&& (forall|k: int|
                    0 <= k < gv(out).len() ==> crate::graph::reachable_from(
                        gv(out),
                        crate::graph::ents_refs(dv(out.trailer)),
                        (#[trigger] gv(out)[k]).0,
                    ))
                &&& (selectors@.len() <= gv(out).len() ==> page_ids(out).len()
                    == selectors@.len())
            },
    {
        let ghost srcs: Seq<SourceFile> = self.source_files@;
        if self.source_files.len() == 0 {
            return Err(Error::EmptySources);
        }
        match self.first_bad_selector(selectors) {
            Some(i) => {
                return Err(Error::SelectorOutOfRange(i));
            },
            None => {},
        }
        let (pool, spp) = self.pool_sources();
        let ghost ps: Seq<(ObjectId, ObjV)> = evv(pool@);
        proof {
            lemma_total_nonneg(srcs);
            assert forall|i: int| 0 <= i < selectors@.len() implies (
            #[trigger] selectors@[i]).source_file_index < spp@.len() && selectors@[i].page_index
                < spp@[selectors@[i].source_file_index as int]@.len() by {
                assert(sel_ok(*self, selectors@[i]));
            }
        }
        let g1 = match assemble_graph(&pool, &spp, selectors) {
            Ok(g) => g,
            Err(e) => {
                proof {
                    assert(!(has_dict_of_type(ps, nm_catalog()) && has_dict_of_type(
                        ps,
                        nm_pages(),
                    )));
                    assert(has_dict_of_type(ps, nm_pages()) <==> sources_have_type(
                        srcs,
                        nm_pages(),
                    )) by {
                        if sources_have_type(srcs, nm_pages()) {
                            let si = choose|si: int|
                                0 <= si < srcs.len() && has_dict_of_type(
                                    gv((#[trigger] srcs[si]).document),
                                    nm_pages(),
                                );
                            assert(has_dict_of_type(gv(srcs[si].document), nm_pages()));
                        }
                    }
                    assert(!(sources_have_type(srcs, nm_catalog()) && sources_have_type(
                        srcs,
                        nm_pages(),
                    )));
                }
                return Err(e);
            },
        };
        proof {
            assert(sources_have_type(srcs, nm_catalog()) && sources_have_type(srcs, nm_pages()))
                by {
                assert(has_dict_of_type(ps, nm_catalog()) && has_dict_of_type(ps, nm_pages()));
            }
        }
        let g2 = crate::graph::renumber_graph(&g1, 1);
        let g3 = crate::graph::compress_graph(&g2);
        let out = crate::graph::prune_graph(&g3);
        proof {
            lemma_names_distinct();
            let n: int = selectors@.len() as int;
            let s1 = gv(g1);
            let ids1 = gids(s1);
            // the assembled shape, by its bound names
            let cid1 = find_key(dv(g1.trailer), nm_root())->Some_0->Ref_0;
            let cat1 = find_id(s1, cid1)->Some_0->Dict_0;
            let pid1 = find_key(cat1, nm_pages())->Some_0->Ref_0;
            let pd1 = find_id(s1, pid1)->Some_0->Dict_0;
            let kids1 = find_key(pd1, nm_kids())->Some_0->Arr_0;
            // transport through the dense renumbering
            let cid2 = crate::graph::remap_id(ids1, 1, cid1);
            let pid2 = crate::graph::remap_id(ids1, 1, pid1);
            let cat2 = remap_entries(ids1, 1, cat1);
            let pd2 = remap_entries(ids1, 1, pd1);
            let kids2 = crate::graph::remap_objs(ids1, 1, kids1);
            crate::graph::lemma_remap_find_key(ids1, 1, dv(g1.trailer), nm_root());
            assert(find_key(dv(g2.trailer), nm_root()) == Some(ObjV::Ref(cid2)));
            assert(find_id(gv(g2), cid2) == Some(ObjV::Dict(cat2)));
            crate::graph::lemma_remap_find_key(ids1, 1, cat1, nm_pages());
            crate::graph::lemma_remap_find_key(ids1, 1, cat1, nm_outlines());
            assert(find_key(cat2, nm_pages()) == Some(ObjV::Ref(pid2)));
            assert(find_key(cat2, nm_outlines()) is None);
            assert(find_id(gv(g2), pid2) == Some(ObjV::Dict(pd2)));
            crate::graph::lemma_remap_find_key(ids1, 1, pd1, nm_count());
            crate::graph::lemma_remap_find_key(ids1, 1, pd1, nm_kids());
            assert(find_key(pd2, nm_count()) == Some(ObjV::Int(n)));
            assert(find_key(pd2, nm_kids()) == Some(ObjV::Arr(kids2)));
            crate::graph::lemma_remap_objs_props(ids1, 1, kids1);
            assert(kids2.len() == n);
            // through compression: these objects are dictionaries
            assert(find_id(gv(g3), cid2) == Some(ObjV::Dict(cat2)));
            assert(find_id(gv(g3), pid2) == Some(ObjV::Dict(pd2)));
            assert(dv(g3.trailer) == dv(g2.trailer));
            // reachability of the catalog, the page-tree root and the pages
            let seed3 = crate::graph::ents_refs(dv(g3.trailer));
            assert(obj_refs(ObjV::Ref(cid2)).contains(cid2)) by {
                assert(obj_refs(ObjV::Ref(cid2))[0] == cid2);
            }
            crate::graph::lemma_find_key_val_refs(dv(g3.trailer), nm_root(), cid2);
            assert(crate::graph::reach_fuel(gv(g3), seed3, cid2, 0));
            assert(crate::graph::reachable_from(gv(g3), seed3, cid2));
            assert(obj_refs(ObjV::Ref(pid2)).contains(pid2)) by {
                assert(obj_refs(ObjV::Ref(pid2))[0] == pid2);
            }
            crate::graph::lemma_find_key_val_refs(cat2, nm_pages(), pid2);
            assert(crate::graph::step_to(gv(g3), cid2, pid2));
            crate::graph::lemma_reach_step(gv(g3), seed3, cid2, pid2);
            // prune keeps them
            assert(find_id(gv(out), cid2) == Some(ObjV::Dict(cat2)));
            assert(find_id(gv(out), pid2) == Some(ObjV::Dict(pd2)));
            assert(dv(out.trailer) == dv(g3.trailer));
            // each selected page carries over
            assert forall|i: int| 0 <= i < n implies (#[trigger] kids2[i] matches ObjV::Ref(pgid)
                && (find_id(gv(out), pgid) matches Some(ObjV::Dict(pg)) && dict_type(pg) == Some(
                nm_page(),
            ) && find_key(pg, nm_parent()) == Some(ObjV::Ref(pid2)) && ((forall|j2: int|
                i < j2 < n ==> kids2[j2] != kids2[i]) ==> rotate_clause(
                pg,
                selectors@[i].rotation,
                src_page_dict(
                    srcs[selectors@[i].source_file_index as int],
                    selectors@[i].page_index as int,
                ),
            )))) by {
                let pgid1 = sel_new_id(spp@, selectors@[i]);
                assert(kids1[i] == ObjV::Ref(pgid1));
                let pg1 = find_id(s1, pgid1)->Some_0->Dict_0;
                let pgid2 = crate::graph::remap_id(ids1, 1, pgid1);
                let pg2 = remap_entries(ids1, 1, pg1);
                assert(kids2[i] == ObjV::Ref(pgid2));
                assert(find_id(gv(g2), pgid2) == Some(ObjV::Dict(pg2)));
                crate::graph::lemma_remap_dict_type(ids1, 1, pg1);
                crate::graph::lemma_remap_find_key(ids1, 1, pg1, nm_parent());
                crate::graph::lemma_remap_find_key(ids1, 1, pg1, nm_rotate());
                assert(find_id(gv(g3), pgid2) == Some(ObjV::Dict(pg2)));
                // reachable, so kept by the prune
                assert(obj_refs(kids2[i]).contains(pgid2)) by {
                    assert(obj_refs(ObjV::Ref(pgid2))[0] == pgid2);
                }
                crate::graph::lemma_objs_refs_elem(kids2, i, pgid2);
                crate::graph::lemma_find_key_val_refs(pd2, nm_kids(), pgid2);
                assert(crate::graph::step_to(gv(g3), pid2, pgid2));
                crate::graph::lemma_reach_step(gv(g3), seed3, pid2, pgid2);
                assert(find_id(gv(out), pgid2) == Some(ObjV::Dict(pg2)));
                // the rotation clause carries over
                if forall|j2: int| i < j2 < n ==> kids2[j2] != kids2[i] {
                    assert forall|j2: int| i < j2 < n implies sel_new_id(
                        spp@,
                        #[trigger] selectors@[j2],
                    ) != sel_new_id(spp@, selectors@[i]) by {
                        assert(kids1[j2] == ObjV::Ref(sel_new_id(spp@, selectors@[j2])));
                        if sel_new_id(spp@, selectors@[j2]) == pgid1 {
                            assert(kids2[j2] == kids2[i]);
                        }
                    }
                    let se = src_page_dict(
                        srcs[selectors@[i].source_file_index as int],
                        selectors@[i].page_index as int,
                    );
                    assert(rotate_clause(pg1, selectors@[i].rotation, stored_dict(ps, pgid1)));
                    let pe = stored_dict(ps, pgid1);
                    assert(rot_match(pe, se));
                    assert(rotate_clause(pg1, selectors@[i].rotation, se)) by {
                        match selectors@[i].rotation {
                            Rotation::R0 => {
                                assert(rot_match(pg1, pe));
                            },
                            _ => {},
                        }
                    }
                    assert(rotate_clause(pg2, selectors@[i].rotation, se)) by {
                        match selectors@[i].rotation {
                            Rotation::R0 => {
                                if find_key(se, nm_rotate()) is None {
                                    assert(find_key(pg1, nm_rotate()) is None);
                                }
                                assert forall|v: int|
                                    find_key(se, nm_rotate()) == Some(ObjV::Int(v)) implies
                                    find_key(pg2, nm_rotate()) == Some(ObjV::Int(v)) by {
                                    assert(find_key(pg1, nm_rotate()) == Some(ObjV::Int(v)));
                                }
                            },
                            _ => {},
                        }
                    }
                }
            }
            // final shape and well-formedness
            assert(graph_wf(g3)) by {
                assert forall|k: int| 0 <= k < gv(g3).len() implies obj_wf(
                    (#[trigger] gv(g3)[k]).1,
                ) by {
                    assert(obj_wf(gv(g2)[k].1));
                }
            }
            assert(graph_wf(out)) by {
                assert forall|k: int| 0 <= k < gv(out).len() implies obj_wf(
                    (#[trigger] gv(out)[k]).1,
                ) by {
                    let j = choose|j: int|
                        0 <= j < gv(g3).len() && gv(g3)[j] == (#[trigger] gv(out)[k]);
                    assert(obj_wf(gv(g3)[j].1));
                }
            }
            assert(output_shape(out, selectors@, srcs));
            // the first-wins policy of the surviving page-tree root
            let src_ds = sources_pages_dicts(srcs);
            let pool_ds = pages_dicts_of(ps);
            let ms = choose|ms: Seq<(Seq<ObjectId>, int)>|
                #![trigger ms.len()]
                ms.len() == pool_ds.len() && (forall|j: int|
                    0 <= j < ms.len() ==> #[trigger] pool_ds[j] == remap_entries(
                        ms[j].0,
                        ms[j].1,
                        src_ds[j],
                    ));
            assert forall|k2: Seq<u8>| k2 != nm_count() && k2 != nm_kids() implies {
                let fw = first_wins_key(src_ds, k2);
                &&& ((#[trigger] find_key(pd2, k2)) is Some <==> fw is Some)
                &&& (forall|v: int|
                    fw == Some(ObjV::Int(v)) ==> find_key(pd2, k2) == Some(ObjV::Int(v)))
                &&& (forall|nm2: Seq<u8>|
                    fw == Some(ObjV::Name(nm2)) ==> find_key(pd2, k2) == Some(ObjV::Name(nm2)))
            } by {
                lemma_first_wins_remapped(src_ds, pool_ds, ms, k2);
                crate::graph::lemma_remap_find_key(ids1, 1, pd1, k2);
                assert(find_key(pd1, k2) == first_wins_key(pool_ds, k2));
                assert forall|v: int| first_wins_key(src_ds, k2) == Some(
                    ObjV::Int(v),
                ) implies find_key(pd2, k2) == Some(ObjV::Int(v)) by {
                    assert(first_wins_key(pool_ds, k2) == Some(ObjV::Int(v)));
                    assert(remap_obj(ids1, 1, ObjV::Int(v)) == ObjV::Int(v));
                }
                assert forall|nm2: Seq<u8>| first_wins_key(src_ds, k2) == Some(
                    ObjV::Name(nm2),
                ) implies find_key(pd2, k2) == Some(ObjV::Name(nm2)) by {
                    assert(first_wins_key(pool_ds, k2) == Some(ObjV::Name(nm2)));
                    assert(remap_obj(ids1, 1, ObjV::Name(nm2)) == ObjV::Name(nm2));
                }
            }
            assert(pages_merge_ok(out, srcs));
            assert forall|k: int| 0 <= k < gv(out).len() implies 1 <= (#[trigger] gv(
                out,
            )[k]).0.num <= total_objects(srcs) + 2 by {
                let j = choose|j: int| 0 <= j < gv(g3).len() && gv(g3)[j] == gv(out)[k];
                assert(gv(g3)[j].0 == gv(g2)[j].0);
                assert(gv(g2)[j].0 == (ObjectId { num: (1 + j) as u32, gen: gv(g1)[j].0.gen }));
                assert(gv(g1).len() <= ps.len());
            }
            // the page walk, when the budget suffices
            if n <= gv(out).len() {
                assert forall|i: int| 0 <= i < kids2.len() implies ((#[trigger] kids2[i])
                    matches ObjV::Ref(p) && (find_id(gv(out), p) matches Some(ObjV::Dict(e))
                    && dict_type(e) == Some(nm_page()))) by {}
                crate::graph::lemma_walk_all_pages(gv(out), kids2, gv(out).len() as nat);
                assert(crate::graph::kids_of(gv(out), pd2) == kids2);
                assert(page_ids(out) == crate::graph::walk_kids(
                    gv(out),
                    kids2,
                    gv(out).len() as nat,
                ).0);
            }
        }
        Ok(out)
    }


    /// Validates a preview request and hands back the named source's
    /// document together with the page index.  Rasterizing the page is a
    /// collaborator concern: the shell serializes the graph and renders
    /// it outside the engine.
    pub fn preview<'a>(&'a self, selector: &Selector) -> (r: Result<
        (&'a DocumentGraph, usize),
        Error,
    >)
        ensures
            (r is Ok) <==> sel_ok(*self, *selector),
            r matches Ok(p) ==> *p.0 == self.source_files@[selector.source_file_index as int].document
                && p.1 == selector.page_index,
            r matches Err(e) ==> e is SelectorOutOfRange,
    {
        if selector.source_file_index >= self.source_files.len() {
            return Err(Error::SelectorOutOfRange(0));
        }
        let sf = &self.source_files[selector.source_file_index];
        let pids = collect_page_ids(&sf.document);
        if selector.page_index >= pids.len() {
            return Err(Error::SelectorOutOfRange(0));
        }
        Ok((&sf.document, selector.page_index))
    }

    /// The position of the first selector that names a missing source or
    /// page, if any.
    fn first_bad_selector(&self, selectors: &Vec<Selector>) -> (r: Option<usize>)
        ensures
            match r {
                Some(i) => {
                    &&& 0 <= i < selectors@.len()
                    &&& !sel_ok(*self, selectors@[i as int])
                    &&& forall|j: int| 0 <= j < i ==> sel_ok(*self, #[trigger] selectors@[j])
                },
                None => forall|j: int|
                    0 <= j < selectors@.len() ==> sel_ok(*self, #[trigger] selectors@[j]),
            },
    {
        let ns: usize = self.source_files.len();
        let mut counts: Vec<usize> = Vec::new();
        let mut si: usize = 0;
        while si < ns
            invariant
                ns == self.source_files@.len(),
                0 <= si <= ns,
                counts@.len() == si,
                forall|j: int|
                    0 <= j < si ==> #[trigger] counts@[j] == page_ids(
                        self.source_files@[j].document,
                    ).len(),
            decreases ns - si,
        {
            let pids = collect_page_ids(&self.source_files[si].document);
            counts.push(pids.len());
            si += 1;
        }
        let n: usize = selectors.len();
        let mut i: usize = 0;
        while i < n
            invariant
                ns == self.source_files@.len(),
                counts@.len() == ns,
                forall|j: int|
                    0 <= j < ns ==> #[trigger] counts@[j] == page_ids(
                        self.source_files@[j].document,
                    ).len(),
                n == selectors@.len(),
                0 <= i <= n,
                forall|j: int| 0 <= j < i ==> sel_ok(*self, #[trigger] selectors@[j]),
            decreases n - i,
        {
            let s = &selectors[i];
            if s.source_file_index >= ns {
                return Some(i);
            }
            if s.page_index >= counts[s.source_file_index] {
                return Some(i);
            }
            i += 1;
        }
        None
    }
}

} // verus!
