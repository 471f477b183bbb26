//! Operations on whole object graphs: lookup, reference collection,
//! renumbering, the page-tree walk, pruning and stream compaction.

use vstd::prelude::*;

use crate::model::{
    bytes_eq, clone_bytes, clone_obj, dv, evs, find_id, find_key, graph_wf, gv, ids_unique, obj_wf,
    ov, ovs, Dict, DictEntry, DocumentGraph, GraphEntry, ObjV, ObjectId, PdfObject, Stream,
};
use crate::names::{
    key_filter, key_flate_decode, key_kids, key_length, key_page, key_pages, key_root, key_type,
    nm_filter, nm_flate_decode, nm_kids, nm_length, nm_page, nm_pages, nm_root, nm_type,
};

verus! {

broadcast use crate::model::lemma_ovs_props, crate::model::lemma_evs_props;

/// The identifiers of a graph view, in storage order.
pub open spec fn gids(gs: Seq<(ObjectId, ObjV)>) -> Seq<ObjectId> {
    Seq::new(gs.len(), |i: int| gs[i].0)
}

/// The position of the first occurrence of an identifier, or `-1`.
pub open spec fn idx_of(ids: Seq<ObjectId>, id: ObjectId) -> int
    decreases ids.len(),
{
    if ids.len() == 0 {
        -1
    } else if ids[0] == id {
        0
    } else {
        let r = idx_of(ids.drop_first(), id);
        if r < 0 {
            -1
        } else {
            r + 1
        }
    }
}

/// What `idx_of` returns: `-1` exactly when the identifier is absent,
/// otherwise its first position.
pub proof fn lemma_idx_of_props(ids: Seq<ObjectId>, id: ObjectId)
    ensures
        idx_of(ids, id) == -1 ==> forall|j: int| 0 <= j < ids.len() ==> ids[j] != id,
        idx_of(ids, id) != -1 ==> {
            &&& 0 <= idx_of(ids, id) < ids.len()
            &&& ids[idx_of(ids, id)] == id
            &&& forall|j: int| 0 <= j < idx_of(ids, id) ==> ids[j] != id
        },
    decreases ids.len(),
{
    if ids.len() > 0 && ids[0] != id {
        lemma_idx_of_props(ids.drop_first(), id);
        let r = idx_of(ids.drop_first(), id);
        if r == -1 {
            assert forall|j: int| 0 <= j < ids.len() implies ids[j] != id by {
                if j > 0 {
                    assert(ids.drop_first()[j - 1] == ids[j]);
                }
            }
        } else {
            assert(ids[r + 1] == ids.drop_first()[r]);
            assert forall|j: int| 0 <= j < r + 1 implies ids[j] != id by {
                if j > 0 {
                    assert(ids.drop_first()[j - 1] == ids[j]);
                }
            }
        }
    }
}

/// Where an identifier of the old graph moves when the graph is
/// renumbered from `start`: its position, offset by `start`, with the
/// generation kept.  Identifiers not in the graph stay as they are.
pub open spec fn remap_id(ids: Seq<ObjectId>, start: int, id: ObjectId) -> ObjectId {
    if idx_of(ids, id) >= 0 {
        ObjectId { num: (start + idx_of(ids, id)) as u32, gen: id.gen }
    } else {
        id
    }
}

/// An object view with every reference sent through `remap_id`.
pub open spec fn remap_obj(ids: Seq<ObjectId>, start: int, v: ObjV) -> ObjV
    decreases v,
{
    match v {
        ObjV::Ref(id) => ObjV::Ref(remap_id(ids, start, id)),
        ObjV::Arr(items) => ObjV::Arr(remap_objs(ids, start, items)),
        ObjV::Dict(entries) => ObjV::Dict(remap_entries(ids, start, entries)),
        ObjV::Stream(entries, c, a) => ObjV::Stream(remap_entries(ids, start, entries), c, a),
        _ => v,
    }
}

/// `remap_obj` over each element of a sequence.
pub open spec fn remap_objs(ids: Seq<ObjectId>, start: int, items: Seq<ObjV>) -> Seq<ObjV>
    decreases items,
{
    if items.len() == 0 {
        Seq::empty()
    } else {
        seq![remap_obj(ids, start, items[0])] + remap_objs(ids, start, items.drop_first())
    }
}

/// `remap_obj` over each value of a dictionary; keys stay.
pub open spec fn remap_entries(ids: Seq<ObjectId>, start: int, entries: Seq<(Seq<u8>, ObjV)>) -> Seq<
    (Seq<u8>, ObjV),
>
    decreases entries,
{
    if entries.len() == 0 {
        Seq::empty()
    } else {
        seq![(entries[0].0, remap_obj(ids, start, entries[0].1))] + remap_entries(
            ids,
            start,
            entries.drop_first(),
        )
    }
}

/// `remap_objs` maps element by element.
pub broadcast proof fn lemma_remap_objs_props(ids: Seq<ObjectId>, start: int, items: Seq<ObjV>)
    ensures
        (#[trigger] remap_objs(ids, start, items)).len() == items.len(),
        forall|i: int|
            0 <= i < items.len() ==> remap_objs(ids, start, items)[i] == remap_obj(
                ids,
                start,
                items[i],
            ),
    decreases items.len(),
{
    if items.len() > 0 {
        lemma_remap_objs_props(ids, start, items.drop_first());
    }
}

/// `remap_entries` maps element by element and keeps keys.
pub broadcast proof fn lemma_remap_entries_props(
    ids: Seq<ObjectId>,
    start: int,
    entries: Seq<(Seq<u8>, ObjV)>,
)
    ensures
        (#[trigger] remap_entries(ids, start, entries)).len() == entries.len(),
        forall|i: int|
            0 <= i < entries.len() ==> remap_entries(ids, start, entries)[i] == (
                entries[i].0,
                remap_obj(ids, start, entries[i].1),
            ),
    decreases entries.len(),
{
    if entries.len() > 0 {
        lemma_remap_entries_props(ids, start, entries.drop_first());
    }
}

/// Remapping keeps keys, so a lookup in a remapped dictionary returns the
/// remapped value of what the lookup returned before.
pub proof fn lemma_remap_find_key(
    ids: Seq<ObjectId>,
    start: int,
    entries: Seq<(Seq<u8>, ObjV)>,
    k: Seq<u8>,
)
    ensures
        find_key(remap_entries(ids, start, entries), k) == match find_key(entries, k) {
            Option::None => None::<ObjV>,
            Option::Some(v) => Some(remap_obj(ids, start, v)),
        },
    decreases entries.len(),
{
    broadcast use lemma_remap_entries_props;

    if entries.len() > 0 {
        if entries[0].0 == k {
        } else {
            assert(remap_entries(ids, start, entries).drop_first() =~= remap_entries(
                ids,
                start,
                entries.drop_first(),
            ));
            lemma_remap_find_key(ids, start, entries.drop_first(), k);
        }
    }
}

/// Remapping preserves deep well-formedness.
pub proof fn lemma_remap_wf(ids: Seq<ObjectId>, start: int, v: ObjV)
    requires
        obj_wf(v),
    ensures
        obj_wf(remap_obj(ids, start, v)),
    decreases v,
{
    broadcast use lemma_remap_objs_props, lemma_remap_entries_props;

    match v {
        ObjV::Arr(items) => {
            let ritems = remap_objs(ids, start, items);
            assert forall|i: int| 0 <= i < ritems.len() implies obj_wf(#[trigger] ritems[i]) by {
                lemma_remap_wf(ids, start, items[i]);
            }
            assert(obj_wf(ObjV::Arr(ritems)));
        },
        ObjV::Dict(entries) => {
            let rentries = remap_entries(ids, start, entries);
            assert forall|i: int| 0 <= i < rentries.len() implies obj_wf(
                #[trigger] rentries[i].1,
            ) by {
                lemma_remap_wf(ids, start, entries[i].1);
            }
            assert forall|i: int, j: int| 0 <= i < j < rentries.len() implies rentries[i].0
                != rentries[j].0 by {
                assert(rentries[i].0 == entries[i].0);
                assert(rentries[j].0 == entries[j].0);
            }
            assert(obj_wf(ObjV::Dict(rentries)));
        },
        ObjV::Stream(entries, _, _) => {
            let rentries = remap_entries(ids, start, entries);
            assert forall|i: int| 0 <= i < rentries.len() implies obj_wf(
                #[trigger] rentries[i].1,
            ) by {
                lemma_remap_wf(ids, start, entries[i].1);
            }
            assert forall|i: int, j: int| 0 <= i < j < rentries.len() implies rentries[i].0
                != rentries[j].0 by {
                assert(rentries[i].0 == entries[i].0);
                assert(rentries[j].0 == entries[j].0);
            }
        },
        _ => {},
    }
}

/// Finds the position of an identifier in a vector, if present.
pub fn find_id_pos(ids: &Vec<ObjectId>, id: ObjectId) -> (r: Option<usize>)
    ensures
        match r {
            Some(p) => idx_of(ids@, id) == p as int,
            None => idx_of(ids@, id) == -1,
        },
{
    proof {
        lemma_idx_of_props(ids@, id);
    }
    let n: usize = ids.len();
    let mut i: usize = 0;
    while i < n
        invariant
            n == ids@.len(),
            0 <= i <= n,
            forall|j: int| 0 <= j < i ==> ids@[j] != id,
        decreases n - i,
    {
        if ids[i].num == id.num && ids[i].gen == id.gen {
            proof {
                lemma_idx_of_props(ids@, id);
            }
            return Some(i);
        }
        i += 1;
    }
    proof {
        lemma_idx_of_props(ids@, id);
    }
    None
}

/// Rebuilds an object with every reference remapped, as `remap_obj` says.
#[verifier::loop_isolation(false)]
pub fn remap_obj_x(ids: &Vec<ObjectId>, start: u32, o: &PdfObject) -> (r: PdfObject)
    requires
        start as int + ids@.len() <= u32::MAX as int + 1,
    ensures
        ov(r) == remap_obj(ids@, start as int, ov(*o)),
    decreases *o,
{
    proof {
        broadcast use lemma_remap_objs_props, lemma_remap_entries_props;

    }
    match o {
        PdfObject::Null => PdfObject::Null,
        PdfObject::Boolean(b) => PdfObject::Boolean(*b),
        PdfObject::Integer(i) => PdfObject::Integer(*i),
        PdfObject::Real(r) => PdfObject::Real(*r),
        PdfObject::Text(s, hex) => PdfObject::Text(clone_bytes(s), *hex),
        PdfObject::Name(n) => PdfObject::Name(clone_bytes(n)),
        PdfObject::Array(items) => {
            let n: usize = items.len();
            let mut out: Vec<PdfObject> = Vec::new();
            let mut i: usize = 0;
            while i < n
                invariant
                    out@.len() == i,
                    0 <= i <= n,
                    forall|j: int|
                        0 <= j < i ==> ov(#[trigger] out@[j]) == remap_obj(
                            ids@,
                            start as int,
                            ov(items@[j]),
                        ),
                decreases n - i,
            {
                let c = remap_obj_x(ids, start, &items[i]);
                out.push(c);
                i += 1;
            }
            proof {
                assert(ovs(out@) =~= remap_objs(ids@, start as int, ovs(items@)));
            }
            PdfObject::Array(out)
        },
        PdfObject::Dictionary(d) => PdfObject::Dictionary(remap_dict_x(ids, start, d)),
        PdfObject::Stream(s) => PdfObject::Stream(
            Stream {
                dict: remap_dict_x(ids, start, &s.dict),
                content: clone_bytes(&s.content),
                allows_compression: s.allows_compression,
            },
        ),
        PdfObject::Reference(id) => {
            match find_id_pos(ids, *id) {
                Some(p) => {
                    proof {
                        lemma_idx_of_props(ids@, *id);
                    }
                    PdfObject::Reference(ObjectId { num: start + p as u32, gen: id.gen })
                },
                None => PdfObject::Reference(*id),
            }
        },
    }
}

/// Rebuilds a dictionary with every reference remapped.
#[verifier::loop_isolation(false)]
pub fn remap_dict_x(ids: &Vec<ObjectId>, start: u32, d: &Dict) -> (r: Dict)
    requires
        start as int + ids@.len() <= u32::MAX as int + 1,
    ensures
        dv(r) == remap_entries(ids@, start as int, dv(*d)),
    decreases *d,
{
    proof {
        broadcast use lemma_remap_entries_props;

    }
    let n: usize = d.entries.len();
    let mut out: Vec<DictEntry> = Vec::new();
    let mut i: usize = 0;
    while i < n
        invariant
            out@.len() == i,
            0 <= i <= n,
            forall|j: int|
                0 <= j < i ==> (#[trigger] out@[j]).key@ == d.entries@[j].key@ && ov(out@[j].value)
                    == remap_obj(ids@, start as int, ov(d.entries@[j].value)),
        decreases n - i,
    {
        let e = DictEntry {
            key: clone_bytes(&d.entries[i].key),
            value: remap_obj_x(ids, start, &d.entries[i].value),
        };
        out.push(e);
        i += 1;
    }
    proof {
        assert(evs(out@) =~= remap_entries(ids@, start as int, dv(*d)));
    }
    Dict { entries: out }
}

/// Looks an identifier up in a graph; returns the stored object if present.
pub fn graph_get<'a>(g: &'a DocumentGraph, id: ObjectId) -> (r: Option<&'a PdfObject>)
    ensures
        match r {
            Some(o) => find_id(gv(*g), id) == Some(ov(*o)),
            None => find_id(gv(*g), id) is None,
        },
{
    let n: usize = g.objects.len();
    let mut i: usize = 0;
    while i < n
        invariant
            n == g.objects@.len(),
            0 <= i <= n,
            forall|j: int| 0 <= j < i ==> gv(*g)[j].0 != id,
        decreases n - i,
    {
        if g.objects[i].id.num == id.num && g.objects[i].id.gen == id.gen {
            proof {
                crate::model::lemma_find_id_at(gv(*g), id, i as int);
            }
            return Some(&g.objects[i].obj);
        }
        i += 1;
    }
    proof {
        crate::model::lemma_find_id_skip(gv(*g), id, n as int);
    }
    None
}

/// The references a single object holds, at any depth, in reading order.
pub open spec fn obj_refs(v: ObjV) -> Seq<ObjectId>
    decreases v,
{
    match v {
        ObjV::Ref(id) => seq![id],
        ObjV::Arr(items) => objs_refs(items),
        ObjV::Dict(entries) => ents_refs(entries),
        ObjV::Stream(entries, _, _) => ents_refs(entries),
        _ => Seq::empty(),
    }
}

/// The references of a sequence of objects, concatenated.
pub open spec fn objs_refs(items: Seq<ObjV>) -> Seq<ObjectId>
    decreases items,
{
    if items.len() == 0 {
        Seq::empty()
    } else {
        obj_refs(items[0]) + objs_refs(items.drop_first())
    }
}

/// The references of a dictionary's values, concatenated.
pub open spec fn ents_refs(entries: Seq<(Seq<u8>, ObjV)>) -> Seq<ObjectId>
    decreases entries,
{
    if entries.len() == 0 {
        Seq::empty()
    } else {
        obj_refs(entries[0].1) + ents_refs(entries.drop_first())
    }
}

/// Appending one object extends the concatenated references at the end.
pub proof fn lemma_objs_refs_push(items: Seq<ObjV>, x: ObjV)
    ensures
        objs_refs(items.push(x)) == objs_refs(items) + obj_refs(x),
    decreases items.len(),
{
    if items.len() == 0 {
        assert(items.push(x).len() == 1);
        assert(items.push(x)[0] == x);
        assert(items.push(x).drop_first() =~= Seq::<ObjV>::empty());
        assert(objs_refs(items.push(x)) == obj_refs(x) + objs_refs(Seq::<ObjV>::empty()));
        assert(obj_refs(x) + Seq::<ObjectId>::empty() =~= Seq::<ObjectId>::empty() + obj_refs(x));
    } else {
        assert(items.push(x)[0] == items[0]);
        assert(items.push(x).drop_first() =~= items.drop_first().push(x));
        lemma_objs_refs_push(items.drop_first(), x);
        assert(obj_refs(items[0]) + (objs_refs(items.drop_first()) + obj_refs(x)) =~= (obj_refs(
            items[0],
        ) + objs_refs(items.drop_first())) + obj_refs(x));
    }
}

/// Appending one entry extends the concatenated references at the end.
pub proof fn lemma_ents_refs_push(entries: Seq<(Seq<u8>, ObjV)>, e: (Seq<u8>, ObjV))
    ensures
        ents_refs(entries.push(e)) == ents_refs(entries) + obj_refs(e.1),
    decreases entries.len(),
{
    if entries.len() == 0 {
        assert(entries.push(e).len() == 1);
        assert(entries.push(e)[0] == e);
        assert(entries.push(e).drop_first() =~= Seq::<(Seq<u8>, ObjV)>::empty());
        assert(ents_refs(entries.push(e)) == obj_refs(e.1) + ents_refs(
            Seq::<(Seq<u8>, ObjV)>::empty(),
        ));
        assert(obj_refs(e.1) + Seq::<ObjectId>::empty() =~= Seq::<ObjectId>::empty() + obj_refs(
            e.1,
        ));
    } else {
        assert(entries.push(e)[0] == entries[0]);
        assert(entries.push(e).drop_first() =~= entries.drop_first().push(e));
        lemma_ents_refs_push(entries.drop_first(), e);
        assert(obj_refs(entries[0].1) + (ents_refs(entries.drop_first()) + obj_refs(e.1)) =~= (
        obj_refs(entries[0].1) + ents_refs(entries.drop_first())) + obj_refs(e.1));
    }
}

/// Appends every reference held by an object to `out`.
#[verifier::loop_isolation(false)]
pub fn push_obj_refs(o: &PdfObject, out: &mut Vec<ObjectId>)
    ensures
        final(out)@ == old(out)@ + obj_refs(ov(*o)),
    decreases *o,
{
    match o {
        PdfObject::Array(items) => {
            let n: usize = items.len();
            let mut i: usize = 0;
            proof {
                assert(ovs(items@).take(0) =~= Seq::<ObjV>::empty());
                assert(out@ =~= out@ + objs_refs(ovs(items@).take(0)));
            }
            while i < n
                invariant
                    0 <= i <= n,
                    out@ == old(out)@ + objs_refs(ovs(items@).take(i as int)),
                decreases n - i,
            {
                push_obj_refs(&items[i], out);
                proof {
                    assert(ovs(items@).take(i + 1) =~= ovs(items@).take(i as int).push(
                        ov(items@[i as int]),
                    ));
                    lemma_objs_refs_push(ovs(items@).take(i as int), ov(items@[i as int]));
                    assert(out@ =~= old(out)@ + objs_refs(ovs(items@).take(i + 1)));
                }
                i += 1;
            }
            proof {
                assert(ovs(items@).take(n as int) =~= ovs(items@));
            }
        },
        PdfObject::Dictionary(d) => {
            push_dict_refs(d, out);
        },
        PdfObject::Stream(s) => {
            push_dict_refs(&s.dict, out);
        },
        PdfObject::Reference(id) => {
            out.push(*id);
            proof {
                assert(out@ =~= old(out)@ + obj_refs(ov(*o)));
            }
        },
        _ => {
            proof {
                assert(out@ =~= old(out)@ + obj_refs(ov(*o)));
            }
        },
    }
}

/// Appends every reference held by a dictionary's values to `out`.
#[verifier::loop_isolation(false)]
pub fn push_dict_refs(d: &Dict, out: &mut Vec<ObjectId>)
    ensures
        final(out)@ == old(out)@ + ents_refs(dv(*d)),
    decreases *d,
{
    let n: usize = d.entries.len();
    let mut i: usize = 0;
    proof {
        assert(dv(*d).take(0) =~= Seq::<(Seq<u8>, ObjV)>::empty());
        assert(out@ =~= out@ + ents_refs(dv(*d).take(0)));
    }
    while i < n
        invariant
            0 <= i <= n,
            out@ == old(out)@ + ents_refs(dv(*d).take(i as int)),
        decreases n - i,
    {
        push_obj_refs(&d.entries[i].value, out);
        proof {
            assert(dv(*d).take(i + 1) =~= dv(*d).take(i as int).push(dv(*d)[i as int]));
            lemma_ents_refs_push(dv(*d).take(i as int), dv(*d)[i as int]);
            assert(out@ =~= old(out)@ + ents_refs(dv(*d).take(i + 1)));
        }
        i += 1;
    }
    proof {
        assert(dv(*d).take(n as int) =~= dv(*d));
    }
}

/// A reference of any element is a reference of the sequence.
pub proof fn lemma_objs_refs_elem(items: Seq<ObjV>, i: int, x: ObjectId)
    requires
        0 <= i < items.len(),
        obj_refs(items[i]).contains(x),
    ensures
        objs_refs(items).contains(x),
    decreases items.len(),
{
    if i == 0 {
        let j = choose|j: int| 0 <= j < obj_refs(items[0]).len() && obj_refs(items[0])[j] == x;
        assert(objs_refs(items)[j] == x);
    } else {
        lemma_objs_refs_elem(items.drop_first(), i - 1, x);
        assert(items.drop_first()[i - 1] == items[i]);
        let j = choose|j: int|
            0 <= j < objs_refs(items.drop_first()).len() && objs_refs(items.drop_first())[j] == x;
        assert(objs_refs(items)[obj_refs(items[0]).len() + j] == x);
    }
}

/// A reference held by the value stored under some key is a reference of
/// the dictionary.
pub proof fn lemma_find_key_val_refs(entries: Seq<(Seq<u8>, ObjV)>, k: Seq<u8>, x: ObjectId)
    requires
        (find_key(entries, k) matches Some(v) && obj_refs(v).contains(x)),
    ensures
        ents_refs(entries).contains(x),
    decreases entries.len(),
{
    if entries[0].0 == k {
        let v = find_key(entries, k)->Some_0;
        let j = choose|j: int| 0 <= j < obj_refs(v).len() && obj_refs(v)[j] == x;
        assert(ents_refs(entries)[j] == x);
    } else {
        lemma_find_key_val_refs(entries.drop_first(), k, x);
        let j = choose|j: int|
            0 <= j < ents_refs(entries.drop_first()).len() && ents_refs(entries.drop_first())[j]
                == x;
        assert(ents_refs(entries)[obj_refs(entries[0].1).len() + j] == x);
    }
}

/// Whether an identifier has an object in the graph.
pub open spec fn id_in(gs: Seq<(ObjectId, ObjV)>, id: ObjectId) -> bool {
    find_id(gs, id) is Some
}

/// Whether following one reference out of the object stored at `p`
/// leads to `id`.
pub open spec fn step_to(gs: Seq<(ObjectId, ObjV)>, p: ObjectId, id: ObjectId) -> bool {
    find_id(gs, p) matches Some(w) && obj_refs(w).contains(id)
}

/// Whether `id` can be reached from the seed references in at most
/// `fuel` steps, each step following one reference out of a stored object.
pub open spec fn reach_fuel(
    gs: Seq<(ObjectId, ObjV)>,
    seed: Seq<ObjectId>,
    id: ObjectId,
    fuel: nat,
) -> bool
    decreases fuel,
{
    if seed.contains(id) {
        true
    } else if fuel == 0 {
        false
    } else {
        exists|p: ObjectId| #[trigger] step_to(gs, p, id) && reach_fuel(gs, seed, p, (fuel - 1) as nat)
    }
}

/// Whether `id` is reachable from the seed references at all.
pub open spec fn reachable_from(gs: Seq<(ObjectId, ObjV)>, seed: Seq<ObjectId>, id: ObjectId) -> bool {
    exists|fuel: nat| reach_fuel(gs, seed, id, fuel)
}

/// One more reference step keeps reachability.
pub proof fn lemma_reach_step(
    gs: Seq<(ObjectId, ObjV)>,
    seed: Seq<ObjectId>,
    p: ObjectId,
    id: ObjectId,
)
    requires
        reachable_from(gs, seed, p),
        step_to(gs, p, id),
    ensures
        reachable_from(gs, seed, id),
{
    let fuel = choose|fuel: nat| reach_fuel(gs, seed, p, fuel);
    if !seed.contains(id) {
        assert((fuel + 1 - 1) as nat == fuel);
        assert(step_to(gs, p, id) && reach_fuel(gs, seed, p, (fuel + 1 - 1) as nat));
        assert(reach_fuel(gs, seed, id, fuel + 1));
    } else {
        assert(reach_fuel(gs, seed, id, 0));
    }
}

/// A set of identifiers that contains every existing seed target and is
/// closed under following references to existing objects.
pub open spec fn covered(gs: Seq<(ObjectId, ObjV)>, seed: Seq<ObjectId>, vs: Seq<ObjectId>) -> bool {
    &&& (forall|j: int|
        0 <= j < seed.len() && id_in(gs, #[trigger] seed[j]) ==> vs.contains(seed[j]))
    &&& (forall|i: int, j: int|
        0 <= i < vs.len() && find_id(gs, #[trigger] vs[i]) is Some && 0 <= j < obj_refs(
            find_id(gs, vs[i])->Some_0,
        ).len() && id_in(gs, #[trigger] obj_refs(find_id(gs, vs[i])->Some_0)[j]) ==> vs.contains(
            obj_refs(find_id(gs, vs[i])->Some_0)[j],
        ))
}

/// A covered set holds every reachable identifier that exists.
pub proof fn lemma_covered_reach(
    gs: Seq<(ObjectId, ObjV)>,
    seed: Seq<ObjectId>,
    vs: Seq<ObjectId>,
    id: ObjectId,
    fuel: nat,
)
    requires
        covered(gs, seed, vs),
        reach_fuel(gs, seed, id, fuel),
        id_in(gs, id),
    ensures
        vs.contains(id),
    decreases fuel,
{
    if seed.contains(id) {
        let j = choose|j: int| 0 <= j < seed.len() && seed[j] == id;
        assert(vs.contains(seed[j]));
    } else {
        assert(fuel > 0);
        let p = choose|p: ObjectId|
            #[trigger] step_to(gs, p, id) && reach_fuel(gs, seed, p, (fuel - 1) as nat);
        lemma_covered_reach(gs, seed, vs, p, (fuel - 1) as nat);
        let i = choose|i: int| 0 <= i < vs.len() && vs[i] == p;
        let w = find_id(gs, p)->Some_0;
        let j = choose|j: int| 0 <= j < obj_refs(w).len() && obj_refs(w)[j] == id;
        assert(vs.contains(obj_refs(find_id(gs, vs[i])->Some_0)[j]));
    }
}

/// Reachability carries over to a second graph that agrees with the
/// first on every member of a covered set.
pub proof fn lemma_reach_transfer(
    gs: Seq<(ObjectId, ObjV)>,
    gs2: Seq<(ObjectId, ObjV)>,
    seed: Seq<ObjectId>,
    vs: Seq<ObjectId>,
    id: ObjectId,
    fuel: nat,
)
    requires
        covered(gs, seed, vs),
        forall|v: ObjectId| vs.contains(v) ==> find_id(gs2, v) == find_id(gs, v),
        reach_fuel(gs, seed, id, fuel),
    ensures
        reach_fuel(gs2, seed, id, fuel),
    decreases fuel,
{
    if !seed.contains(id) {
        assert(fuel > 0);
        let p = choose|p: ObjectId|
            #[trigger] step_to(gs, p, id) && reach_fuel(gs, seed, p, (fuel - 1) as nat);
        lemma_reach_transfer(gs, gs2, seed, vs, p, (fuel - 1) as nat);
        lemma_covered_reach(gs, seed, vs, p, (fuel - 1) as nat);
        assert(vs.contains(p));
        assert(find_id(gs2, p) == find_id(gs, p));
        assert(step_to(gs2, p, id) && reach_fuel(gs2, seed, p, (fuel - 1) as nat));
        assert(reach_fuel(gs2, seed, id, fuel));
    }
}

/// A found identifier occurs at some position.
pub proof fn lemma_find_id_pos_exists(gs: Seq<(ObjectId, ObjV)>, id: ObjectId)
    requires
        find_id(gs, id) is Some,
    ensures
        exists|j: int| 0 <= j < gs.len() && (#[trigger] gs[j]).0 == id,
    decreases gs.len(),
{
    if gs.len() > 0 && gs[0].0 != id {
        lemma_find_id_pos_exists(gs.drop_first(), id);
        let j = choose|j: int| 0 <= j < gs.drop_first().len() && (#[trigger] gs.drop_first()[j]).0
            == id;
        assert(gs[j + 1] == gs.drop_first()[j]);
    }
}

/// The entries whose identifiers are in `vs`, in their original order.
pub open spec fn keep(gs: Seq<(ObjectId, ObjV)>, vs: Seq<ObjectId>) -> Seq<(ObjectId, ObjV)>
    decreases gs.len(),
{
    if gs.len() == 0 {
        Seq::empty()
    } else {
        let rest = keep(gs.drop_first(), vs);
        if vs.contains(gs[0].0) {
            seq![gs[0]] + rest
        } else {
            rest
        }
    }
}

/// Appending one entry extends the kept entries at the end, when kept.
pub proof fn lemma_keep_push(gs: Seq<(ObjectId, ObjV)>, vs: Seq<ObjectId>, x: (ObjectId, ObjV))
    ensures
        keep(gs.push(x), vs) == keep(gs, vs) + (if vs.contains(x.0) {
            seq![x]
        } else {
            Seq::<(ObjectId, ObjV)>::empty()
        }),
    decreases gs.len(),
{
    let tail: Seq<(ObjectId, ObjV)> = if vs.contains(x.0) {
        seq![x]
    } else {
        Seq::empty()
    };
    if gs.len() == 0 {
        assert(gs.push(x).len() == 1);
        assert(gs.push(x)[0] == x);
        assert(gs.push(x).drop_first() =~= Seq::<(ObjectId, ObjV)>::empty());
        assert(keep(Seq::<(ObjectId, ObjV)>::empty(), vs) =~= Seq::<(ObjectId, ObjV)>::empty());
        if vs.contains(x.0) {
            assert(keep(gs.push(x), vs) == seq![x] + keep(
                Seq::<(ObjectId, ObjV)>::empty(),
                vs,
            ));
            assert(keep(gs.push(x), vs) =~= keep(gs, vs) + tail);
        } else {
            assert(keep(gs.push(x), vs) == keep(Seq::<(ObjectId, ObjV)>::empty(), vs));
            assert(keep(gs.push(x), vs) =~= keep(gs, vs) + tail);
        }
    } else {
        assert(gs.push(x)[0] == gs[0]);
        assert(gs.push(x).drop_first() =~= gs.drop_first().push(x));
        lemma_keep_push(gs.drop_first(), vs, x);
        if vs.contains(gs[0].0) {
            assert(seq![gs[0]] + (keep(gs.drop_first(), vs) + tail) =~= (seq![gs[0]] + keep(
                gs.drop_first(),
                vs,
            )) + tail);
        }
    }
}

/// Looking an identifier up among the kept entries: present with its old
/// object exactly when the identifier was kept and present before.
pub proof fn lemma_find_id_keep(gs: Seq<(ObjectId, ObjV)>, vs: Seq<ObjectId>, id: ObjectId)
    ensures
        find_id(keep(gs, vs), id) == if vs.contains(id) {
            find_id(gs, id)
        } else {
            None::<ObjV>
        },
    decreases gs.len(),
{
    if gs.len() > 0 {
        let rest = keep(gs.drop_first(), vs);
        lemma_find_id_keep(gs.drop_first(), vs, id);
        if vs.contains(gs[0].0) {
            let k = keep(gs, vs);
            assert(k[0] == gs[0]);
            assert(k.drop_first() =~= rest);
            if gs[0].0 == id {
            }
        } else {
            if gs[0].0 == id {
                assert(!vs.contains(id));
            }
        }
    }
}

/// Every kept entry is one of the original entries, and its identifier
/// is in `vs`.
pub proof fn lemma_keep_member(gs: Seq<(ObjectId, ObjV)>, vs: Seq<ObjectId>)
    ensures
        forall|k: int|
            0 <= k < keep(gs, vs).len() ==> vs.contains((#[trigger] keep(gs, vs)[k]).0) && exists|
                j: int,
            | 0 <= j < gs.len() && gs[j] == keep(gs, vs)[k],
    decreases gs.len(),
{
    if gs.len() > 0 {
        lemma_keep_member(gs.drop_first(), vs);
        let rest = keep(gs.drop_first(), vs);
        assert forall|k: int| 0 <= k < rest.len() implies vs.contains((#[trigger] rest[k]).0)
            && exists|j: int| 0 <= j < gs.len() && gs[j] == rest[k] by {
            let j0 = choose|j: int| 0 <= j < gs.drop_first().len() && gs.drop_first()[j] == rest[k];
            assert(gs[j0 + 1] == gs.drop_first()[j0]);
        }
        if vs.contains(gs[0].0) {
            let k = keep(gs, vs);
            assert(k[0] == gs[0]);
            assert forall|k2: int| 0 <= k2 < k.len() implies vs.contains((#[trigger] k[k2]).0)
                && exists|j: int| 0 <= j < gs.len() && gs[j] == k[k2] by {
                if k2 > 0 {
                    assert(k[k2] == rest[k2 - 1]);
                }
            }
        }
    }
}

/// Keeping entries preserves identifier uniqueness.
pub proof fn lemma_keep_unique(gs: Seq<(ObjectId, ObjV)>, vs: Seq<ObjectId>)
    requires
        ids_unique(gs),
    ensures
        ids_unique(keep(gs, vs)),
    decreases gs.len(),
{
    if gs.len() > 0 {
        assert forall|i: int, j: int|
            0 <= i < j < gs.drop_first().len() implies (#[trigger] gs.drop_first()[i]).0 != (
        #[trigger] gs.drop_first()[j]).0 by {
            assert(gs.drop_first()[i] == gs[i + 1]);
            assert(gs.drop_first()[j] == gs[j + 1]);
        }
        lemma_keep_unique(gs.drop_first(), vs);
        let rest = keep(gs.drop_first(), vs);
        if vs.contains(gs[0].0) {
            let k = keep(gs, vs);
            lemma_keep_member(gs.drop_first(), vs);
            assert forall|i: int, j: int| 0 <= i < j < k.len() implies (#[trigger] k[i]).0 != (
            #[trigger] k[j]).0 by {
                if i == 0 {
                    assert(k[j] == rest[j - 1]);
                    let j0 = choose|j0: int|
                        0 <= j0 < gs.drop_first().len() && gs.drop_first()[j0] == rest[j - 1];
                    assert(gs.drop_first()[j0] == gs[j0 + 1]);
                } else {
                    assert(k[i] == rest[i - 1]);
                    assert(k[j] == rest[j - 1]);
                }
            }
        }
    }
}

/// The type name of a dictionary: the value of its `Type` key, when that
/// value is a name.
pub open spec fn dict_type(entries: Seq<(Seq<u8>, ObjV)>) -> Option<Seq<u8>> {
    match find_key(entries, nm_type()) {
        Some(ObjV::Name(t)) => Some(t),
        _ => None,
    }
}

/// Whether a dictionary's `Type` key names `name`.
pub fn dict_has_type(d: &Dict, name: &[u8]) -> (r: bool)
    ensures
        r == (dict_type(dv(*d)) matches Some(t) && t == name@),
{
    let tkey = key_type();
    match d.get(tkey.as_slice()) {
        Some(PdfObject::Name(t)) => bytes_eq(t.as_slice(), name),
        _ => false,
    }
}

/// The kid array of a page-tree node: the value of its `Kids` key,
/// direct or behind one reference.  Anything else counts as no kids.
pub open spec fn kids_of(gs: Seq<(ObjectId, ObjV)>, entries: Seq<(Seq<u8>, ObjV)>) -> Seq<ObjV> {
    match find_key(entries, nm_kids()) {
        Some(ObjV::Arr(items)) => items,
        Some(ObjV::Ref(r)) => match find_id(gs, r) {
            Some(ObjV::Arr(items)) => items,
            _ => Seq::empty(),
        },
        _ => Seq::empty(),
    }
}

/// Resolves a node's kid array in the executable graph.
pub fn node_kids<'a>(g: &'a DocumentGraph, d: &'a Dict) -> (r: Option<&'a Vec<PdfObject>>)
    ensures
        match r {
            Some(v) => kids_of(gv(*g), dv(*d)) == ovs(v@),
            None => kids_of(gv(*g), dv(*d)) == Seq::<ObjV>::empty(),
        },
{
    let kkey = key_kids();
    match d.get(kkey.as_slice()) {
        Some(PdfObject::Array(items)) => Some(items),
        Some(PdfObject::Reference(r)) => {
            match graph_get(g, *r) {
                Some(PdfObject::Array(items)) => Some(items),
                _ => None,
            }
        },
        _ => None,
    }
}

/// The page identifiers below a kid list, in reading order, and the
/// budget left.  Each kid visited consumes one unit of budget; a `Pages`
/// kid is descended into, a `Page` kid is collected, anything else is
/// passed over.  An exhausted budget ends the walk, which bounds it on
/// graphs whose page tree has a cycle.
pub open spec fn walk_kids(gs: Seq<(ObjectId, ObjV)>, kids: Seq<ObjV>, budget: nat) -> (
    Seq<ObjectId>,
    nat,
)
    decreases budget, kids.len(),
{
    if kids.len() == 0 {
        (Seq::empty(), budget)
    } else if budget == 0 {
        (Seq::empty(), 0)
    } else {
        let b1 = (budget - 1) as nat;
        match kids[0] {
            ObjV::Ref(id) => match find_id(gs, id) {
                Some(ObjV::Dict(entries)) => {
                    if dict_type(entries) == Some(nm_page()) {
                        let rest = walk_kids(gs, kids.drop_first(), b1);
                        (seq![id] + rest.0, rest.1)
                    } else if dict_type(entries) == Some(nm_pages()) {
                        let sub = walk_kids(gs, kids_of(gs, entries), b1);
                        let b2 = if sub.1 < b1 {
                            sub.1
                        } else {
                            b1
                        };
                        let rest = walk_kids(gs, kids.drop_first(), b2);
                        (sub.0 + rest.0, rest.1)
                    } else {
                        walk_kids(gs, kids.drop_first(), b1)
                    }
                },
                _ => walk_kids(gs, kids.drop_first(), b1),
            },
            _ => walk_kids(gs, kids.drop_first(), b1),
        }
    }
}

/// The ordered page identifiers of a graph: the walk of the page tree
/// below the catalog's `Pages` node, with one unit of budget per stored
/// object.
pub open spec fn page_ids(g: DocumentGraph) -> Seq<ObjectId> {
    match find_key(dv(g.trailer), nm_root()) {
        Some(ObjV::Ref(root)) => match find_id(gv(g), root) {
            Some(ObjV::Dict(cat)) => match find_key(cat, nm_pages()) {
                Some(ObjV::Ref(pid)) => match find_id(gv(g), pid) {
                    Some(ObjV::Dict(pents)) => walk_kids(
                        gv(g),
                        kids_of(gv(g), pents),
                        gv(g).len(),
                    ).0,
                    _ => Seq::empty(),
                },
                _ => Seq::empty(),
            },
            _ => Seq::empty(),
        },
        _ => Seq::empty(),
    }
}

/// Walks one kid list, appending found pages to `out`; returns the
/// budget left.
#[verifier::loop_isolation(false)]
pub fn walk_kids_x(g: &DocumentGraph, kids: &Vec<PdfObject>, budget: usize, out: &mut Vec<
    ObjectId,
>) -> (rb: usize)
    ensures
        final(out)@ == old(out)@ + walk_kids(gv(*g), ovs(kids@), budget as nat).0,
        rb as nat == walk_kids(gv(*g), ovs(kids@), budget as nat).1,
    decreases budget,
{
    let ghost gs: Seq<(ObjectId, ObjV)> = gv(*g);
    let ghost full: Seq<ObjV> = ovs(kids@);
    let mut b: usize = budget;
    let mut i: usize = 0;
    let n: usize = kids.len();
    let ghost mut acc: Seq<ObjectId> = Seq::empty();
    proof {
        assert(full.skip(0) =~= full);
        assert(out@ =~= out@ + acc);
    }
    while i < n && b > 0
        invariant
            0 <= i <= n,
            b <= budget,
            out@ == old(out)@ + acc,
            walk_kids(gs, full, budget as nat).0 == acc + walk_kids(
                gs,
                full.skip(i as int),
                b as nat,
            ).0,
            walk_kids(gs, full, budget as nat).1 == walk_kids(
                gs,
                full.skip(i as int),
                b as nat,
            ).1,
        decreases n - i,
    {
        let ghost suffix: Seq<ObjV> = full.skip(i as int);
        let ghost b_in: nat = b as nat;
        proof {
            assert(suffix[0] == full[i as int]);
            assert(full[i as int] == ov(kids@[i as int]));
            assert(suffix.drop_first() =~= full.skip(i + 1));
        }
        let kid = &kids[i];
        let mut handled: bool = false;
        match kid {
            PdfObject::Reference(id) => {
                match graph_get(g, *id) {
                    Some(o) => match o {
                        PdfObject::Dictionary(d) => {
                            let pkey = key_page();
                            let pskey = key_pages();
                            if dict_has_type(d, pkey.as_slice()) {
                                out.push(*id);
                                b = b - 1;
                                handled = true;
                                proof {
                                    let acc0 = acc;
                                    acc = acc.push(*id);
                                    assert(out@ =~= old(out)@ + acc);
                                    let rest = walk_kids(gs, full.skip(i + 1), b as nat).0;
                                    assert(walk_kids(gs, suffix, b_in).0 == seq![*id] + rest);
                                    assert(acc0 + (seq![*id] + rest) =~= acc + rest);
                                }
                            } else if dict_has_type(d, pskey.as_slice()) {
                                b = b - 1;
                                let sub_rb: usize = match node_kids(g, d) {
                                    Some(sub_kids) => walk_kids_x(g, sub_kids, b, out),
                                    None => b,
                                };
                                let b2: usize = if sub_rb < b {
                                    sub_rb
                                } else {
                                    b
                                };
                                handled = true;
                                proof {
                                    let sub = walk_kids(gs, kids_of(gs, dv(*d)), b as nat);
                                    assert(sub_rb as nat == sub.1);
                                    let acc0 = acc;
                                    acc = acc + sub.0;
                                    assert(out@ =~= old(out)@ + acc);
                                    let rest = walk_kids(gs, full.skip(i + 1), b2 as nat).0;
                                    assert(walk_kids(gs, suffix, b_in).0 == sub.0 + rest);
                                    assert(walk_kids(gs, suffix, b_in).1 == walk_kids(
                                        gs,
                                        full.skip(i + 1),
                                        b2 as nat,
                                    ).1);
                                    assert(acc0 + (sub.0 + rest) =~= acc + rest);
                                }
                                b = b2;
                            }
                        },
                        _ => {},
                    },
                    None => {},
                }
            },
            _ => {},
        }
        if !handled {
            b = b - 1;
            proof {
                assert(walk_kids(gs, suffix, b_in).0 == walk_kids(gs, full.skip(i + 1), b as nat).0);
            }
        }
        i += 1;
    }
    proof {
        if i == n {
            assert(full.skip(n as int) =~= Seq::<ObjV>::empty());
        }
        assert(walk_kids(gs, full.skip(i as int), b as nat).0 =~= Seq::<ObjectId>::empty());
        assert(acc + Seq::<ObjectId>::empty() =~= acc);
    }
    b
}

/// The ordered page identifiers of a graph, as `page_ids` says.
pub fn collect_page_ids(g: &DocumentGraph) -> (out: Vec<ObjectId>)
    ensures
        out@ == page_ids(*g),
{
    let mut out: Vec<ObjectId> = Vec::new();
    let rkey = key_root();
    let root_id: ObjectId = match g.trailer.get(rkey.as_slice()) {
        Some(PdfObject::Reference(r)) => *r,
        _ => {
            return out;
        },
    };
    let pkey = key_pages();
    let pages_id: ObjectId = match graph_get(g, root_id) {
        Some(PdfObject::Dictionary(cat)) => match cat.get(pkey.as_slice()) {
            Some(PdfObject::Reference(r)) => *r,
            _ => {
                return out;
            },
        },
        _ => {
            return out;
        },
    };
    match graph_get(g, pages_id) {
        Some(PdfObject::Dictionary(pents)) => {
            match node_kids(g, pents) {
                Some(kids) => {
                    let budget = g.objects.len();
                    walk_kids_x(g, kids, budget, &mut out);
                },
                None => {},
            }
        },
        _ => {},
    }
    out
}

/// Whether a vector holds an identifier.
pub fn id_in_vec(v: &Vec<ObjectId>, id: ObjectId) -> (r: bool)
    ensures
        r == v@.contains(id),
{
    let n: usize = v.len();
    let mut i: usize = 0;
    while i < n
        invariant
            n == v@.len(),
            0 <= i <= n,
            forall|j: int| 0 <= j < i ==> v@[j] != id,
        decreases n - i,
    {
        if v[i].num == id.num && v[i].gen == id.gen {
            return true;
        }
        i += 1;
    }
    false
}

/// Removes every object that is not reachable from the trailer's
/// references.  Everything reachable survives with its object unchanged,
/// and every survivor is reachable within the pruned graph itself.
#[verifier::loop_isolation(false)]
pub fn prune_graph(g: &DocumentGraph) -> (out: DocumentGraph)
    requires
        ids_unique(gv(*g)),
    ensures
        dv(out.trailer) == dv(g.trailer),
        out.version@ == g.version@,
        out.max_id == g.max_id,
        ids_unique(gv(out)),
        forall|k: int|
            0 <= k < gv(out).len() ==> exists|j: int|
                0 <= j < gv(*g).len() && gv(*g)[j] == (#[trigger] gv(out)[k]),
        forall|id: ObjectId|
            (#[trigger] find_id(gv(out), id)) is Some ==> find_id(gv(out), id) == find_id(
                gv(*g),
                id,
            ),
        forall|id: ObjectId|
            reachable_from(gv(*g), ents_refs(dv(g.trailer)), id) && (#[trigger] find_id(
                gv(*g),
                id,
            )) is Some ==> find_id(gv(out), id) == find_id(gv(*g), id),
        forall|k: int|
            0 <= k < gv(out).len() ==> reachable_from(
                gv(out),
                ents_refs(dv(out.trailer)),
                (#[trigger] gv(out)[k]).0,
            ),
{
    let ghost gs: Seq<(ObjectId, ObjV)> = gv(*g);
    let ghost seed: Seq<ObjectId> = ents_refs(dv(g.trailer));
    let mut stack: Vec<ObjectId> = Vec::new();
    push_dict_refs(&g.trailer, &mut stack);
    proof {
        assert(stack@ =~= seed);
        assert forall|j: int| 0 <= j < stack@.len() implies reachable_from(
            gs,
            seed,
            #[trigger] stack@[j],
        ) by {
            assert(seed.contains(seed[j]));
            assert(reach_fuel(gs, seed, stack@[j], 0));
        }
    }
    let mut visited: Vec<ObjectId> = Vec::new();
    while stack.len() > 0
        invariant
            forall|j: int| 0 <= j < stack@.len() ==> reachable_from(gs, seed, #[trigger] stack@[j]),
            forall|j: int|
                0 <= j < visited@.len() ==> reachable_from(gs, seed, #[trigger] visited@[j])
                    && id_in(gs, visited@[j]),
            visited@.no_duplicates(),
            visited@.len() <= gs.len(),
            forall|j: int|
                0 <= j < seed.len() && id_in(gs, #[trigger] seed[j]) ==> visited@.contains(seed[j])
                    || stack@.contains(seed[j]),
            forall|i: int, j: int|
                0 <= i < visited@.len() && 0 <= j < obj_refs(
                    find_id(gs, #[trigger] visited@[i])->Some_0,
                ).len() && id_in(
                    gs,
                    #[trigger] obj_refs(find_id(gs, visited@[i])->Some_0)[j],
                ) ==> visited@.contains(obj_refs(find_id(gs, visited@[i])->Some_0)[j])
                    || stack@.contains(obj_refs(find_id(gs, visited@[i])->Some_0)[j]),
        decreases gs.len() - visited@.len(), stack@.len(),
    {
        let ghost stack0: Seq<ObjectId> = stack@;
        let ghost visited0: Seq<ObjectId> = visited@;
        let id = stack.pop().unwrap();
        proof {
            assert(stack0[stack0.len() - 1] == id);
            assert(stack@ =~= stack0.drop_last());
            assert(reachable_from(gs, seed, id)) by {
                assert(stack0.contains(stack0[stack0.len() - 1]));
            }
        }
        if !id_in_vec(&visited, id) {
            match graph_get(g, id) {
                Some(o) => {
                    push_obj_refs(o, &mut stack);
                    proof {
                        assert(obj_refs(ov(*o)) == obj_refs(find_id(gs, id)->Some_0));
                    }
                    visited.push(id);
                    proof {
                        assert(visited@ =~= visited0.push(id));
                        assert(visited@.no_duplicates());
                        assert(visited@.len() <= gs.len()) by {
                            assert forall|j: int| 0 <= j < visited@.len() implies gids(
                                gs,
                            ).contains(#[trigger] visited@[j]) by {
                                lemma_find_id_pos_exists(gs, visited@[j]);
                                let p = choose|p: int|
                                    0 <= p < gs.len() && (#[trigger] gs[p]).0 == visited@[j];
                                assert(gids(gs)[p] == visited@[j]);
                            }
                            assert(visited@.to_set().subset_of(gids(gs).to_set())) by {
                                assert forall|x: ObjectId|
                                    visited@.to_set().contains(x) implies gids(
                                    gs,
                                ).to_set().contains(x) by {
                                    assert(visited@.contains(x));
                                    assert(gids(gs).contains(x));
                                }
                            }
                            visited@.unique_seq_to_set();
                            gids(gs).lemma_cardinality_of_set();
                            vstd::set_lib::lemma_len_subset(
                                visited@.to_set(),
                                gids(gs).to_set(),
                            );
                        }
                        assert forall|i: int, j: int|
                            0 <= i < visited@.len() && 0 <= j < obj_refs(
                                find_id(gs, #[trigger] visited@[i])->Some_0,
                            ).len() && id_in(
                                gs,
                                #[trigger] obj_refs(find_id(gs, visited@[i])->Some_0)[j],
                            ) implies visited@.contains(
                            obj_refs(find_id(gs, visited@[i])->Some_0)[j],
                        ) || stack@.contains(obj_refs(find_id(gs, visited@[i])->Some_0)[j]) by {
                            let r = obj_refs(find_id(gs, visited@[i])->Some_0)[j];
                            if i < visited0.len() {
                                assert(visited@[i] == visited0[i]);
                                assert(visited0.contains(r) || stack0.contains(r));
                                if visited0.contains(r) {
                                    let p = choose|p: int|
                                        0 <= p < visited0.len() && visited0[p] == r;
                                    assert(visited@[p] == r);
                                } else {
                                    let p = choose|p: int|
                                        0 <= p < stack0.len() && stack0[p] == r;
                                    if p < stack0.len() - 1 {
                                        assert(stack@[p] == r);
                                    } else {
                                        assert(r == id);
                                        assert(visited@[visited0.len() as int] == id);
                                    }
                                }
                            } else {
                                assert(visited@[i] == id);
                                assert(stack@.contains(r)) by {
                                    assert(stack@[stack0.len() - 1 + j] == r);
                                }
                            }
                        }
                        assert forall|j: int|
                            0 <= j < seed.len() && id_in(gs, #[trigger] seed[j]) implies visited@
                            .contains(seed[j]) || stack@.contains(seed[j]) by {
                            if visited0.contains(seed[j]) {
                                assert(visited@.contains(seed[j])) by {
                                    let p = choose|p: int|
                                        0 <= p < visited0.len() && visited0[p] == seed[j];
                                    assert(visited@[p] == seed[j]);
                                }
                            } else {
                                assert(stack0.contains(seed[j]));
                                let p = choose|p: int| 0 <= p < stack0.len() && stack0[p] == seed[j];
                                if p < stack0.len() - 1 {
                                    assert(stack@[p] == seed[j]);
                                } else {
                                    assert(seed[j] == id);
                                    assert(visited@[visited0.len() as int] == id);
                                    assert(visited@.contains(id));
                                }
                            }
                        }
                        assert forall|j: int| 0 <= j < stack@.len() implies reachable_from(
                            gs,
                            seed,
                            #[trigger] stack@[j],
                        ) by {
                            if j < stack0.len() - 1 {
                                assert(stack@[j] == stack0[j]);
                            } else {
                                let r = stack@[j];
                                assert(obj_refs(find_id(gs, id)->Some_0).contains(r)) by {
                                    assert(stack@[stack0.len() - 1 + (j - (stack0.len() - 1))]
                                        == r);
                                }
                                assert(step_to(gs, id, r));
                                lemma_reach_step(gs, seed, id, r);
                            }
                        }
                    }
                },
                None => {
                    proof {
                        assert forall|j: int|
                            0 <= j < seed.len() && id_in(gs, #[trigger] seed[j]) implies visited@
                            .contains(seed[j]) || stack@.contains(seed[j]) by {
                            if stack0.contains(seed[j]) && !visited0.contains(seed[j]) {
                                let p = choose|p: int| 0 <= p < stack0.len() && stack0[p] == seed[j];
                                if p == stack0.len() - 1 {
                                    assert(seed[j] == id);
                                    assert(!id_in(gs, id));
                                } else {
                                    assert(stack@[p] == seed[j]);
                                }
                            }
                        }
                        assert forall|i: int, j: int|
                            0 <= i < visited@.len() && 0 <= j < obj_refs(
                                find_id(gs, #[trigger] visited@[i])->Some_0,
                            ).len() && id_in(
                                gs,
                                #[trigger] obj_refs(find_id(gs, visited@[i])->Some_0)[j],
                            ) implies visited@.contains(
                            obj_refs(find_id(gs, visited@[i])->Some_0)[j],
                        ) || stack@.contains(obj_refs(find_id(gs, visited@[i])->Some_0)[j]) by {
                            let r = obj_refs(find_id(gs, visited@[i])->Some_0)[j];
                            assert(visited0.contains(r) || stack0.contains(r));
                            if stack0.contains(r) && !visited0.contains(r) {
                                let p = choose|p: int| 0 <= p < stack0.len() && stack0[p] == r;
                                if p == stack0.len() - 1 {
                                    assert(r == id);
                                    assert(!id_in(gs, id));
                                    assert(id_in(gs, r));
                                } else {
                                    assert(stack@[p] == r);
                                }
                            }
                        }
                    }
                },
            }
        } else {
            proof {
                assert forall|j: int|
                    0 <= j < seed.len() && id_in(gs, #[trigger] seed[j]) implies visited@.contains(
                    seed[j],
                ) || stack@.contains(seed[j]) by {
                    if stack0.contains(seed[j]) && !visited0.contains(seed[j]) {
                        let p = choose|p: int| 0 <= p < stack0.len() && stack0[p] == seed[j];
                        if p == stack0.len() - 1 {
                            assert(visited@.contains(id));
                        } else {
                            assert(stack@[p] == seed[j]);
                        }
                    }
                }
                assert forall|i: int, j: int|
                    0 <= i < visited@.len() && 0 <= j < obj_refs(
                        find_id(gs, #[trigger] visited@[i])->Some_0,
                    ).len() && id_in(
                        gs,
                        #[trigger] obj_refs(find_id(gs, visited@[i])->Some_0)[j],
                    ) implies visited@.contains(
                    obj_refs(find_id(gs, visited@[i])->Some_0)[j],
                ) || stack@.contains(obj_refs(find_id(gs, visited@[i])->Some_0)[j]) by {
                    let r = obj_refs(find_id(gs, visited@[i])->Some_0)[j];
                    assert(visited0.contains(r) || stack0.contains(r));
                    if stack0.contains(r) && !visited0.contains(r) {
                        let p = choose|p: int| 0 <= p < stack0.len() && stack0[p] == r;
                        if p == stack0.len() - 1 {
                            assert(r == id);
                            assert(visited@.contains(id));
                        } else {
                            assert(stack@[p] == r);
                        }
                    }
                }
            }
        }
    }
    proof {
        assert(covered(gs, seed, visited@));
    }
    let n: usize = g.objects.len();
    let mut out_objects: Vec<GraphEntry> = Vec::new();
    let mut k: usize = 0;
    proof {
        assert(gs.take(0) =~= Seq::<(ObjectId, ObjV)>::empty());
    }
    while k < n
        invariant
            0 <= k <= n,
            out_objects@.len() == keep(gs.take(k as int), visited@).len(),
            forall|j: int|
                0 <= j < out_objects@.len() ==> ((#[trigger] out_objects@[j]).id, ov(
                    out_objects@[j].obj,
                )) == keep(gs.take(k as int), visited@)[j],
        decreases n - k,
    {
        proof {
            assert(gs.take(k + 1) =~= gs.take(k as int).push(gs[k as int]));
            lemma_keep_push(gs.take(k as int), visited@, gs[k as int]);
        }
        if id_in_vec(&visited, g.objects[k].id) {
            let e = GraphEntry { id: g.objects[k].id, obj: clone_obj(&g.objects[k].obj) };
            out_objects.push(e);
        }
        k += 1;
    }
    let out = DocumentGraph {
        objects: out_objects,
        trailer: crate::model::clone_dict(&g.trailer),
        max_id: g.max_id,
        version: clone_bytes(&g.version),
    };
    proof {
        assert(gs.take(n as int) =~= gs);
        assert(gv(out) =~= keep(gs, visited@));
        assert(dv(out.trailer) == dv(g.trailer));
        lemma_keep_unique(gs, visited@);
        lemma_keep_member(gs, visited@);
        assert forall|id: ObjectId| (#[trigger] find_id(gv(out), id)) is Some implies find_id(
            gv(out),
            id,
        ) == find_id(gs, id) by {
            lemma_find_id_keep(gs, visited@, id);
        }
        assert forall|id: ObjectId|
            reachable_from(gs, seed, id) && (#[trigger] find_id(gs, id)) is Some implies find_id(
            gv(out),
            id,
        ) == find_id(gs, id) by {
            let fuel = choose|fuel: nat| reach_fuel(gs, seed, id, fuel);
            lemma_covered_reach(gs, seed, visited@, id, fuel);
            lemma_find_id_keep(gs, visited@, id);
        }
        assert forall|k2: int| 0 <= k2 < gv(out).len() implies reachable_from(
            gv(out),
            ents_refs(dv(out.trailer)),
            (#[trigger] gv(out)[k2]).0,
        ) by {
            let id = gv(out)[k2].0;
            assert(visited@.contains(id));
            let vi = choose|vi: int| 0 <= vi < visited@.len() && visited@[vi] == id;
            assert(reachable_from(gs, seed, visited@[vi]));
            let fuel = choose|fuel: nat| reach_fuel(gs, seed, id, fuel);
            assert forall|v: ObjectId| visited@.contains(v) implies find_id(gv(out), v)
                == find_id(gs, v) by {
                lemma_find_id_keep(gs, visited@, v);
            }
            lemma_reach_transfer(gs, gv(out), seed, visited@, id, fuel);
        }
    }
    out
}

/// Whether the graph stores a dictionary whose `Type` key names `t`.
pub open spec fn has_dict_of_type(gs: Seq<(ObjectId, ObjV)>, t: Seq<u8>) -> bool {
    exists|k: int|
        0 <= k < gs.len() && ((#[trigger] gs[k]).1 matches ObjV::Dict(e) && dict_type(e) == Some(
            t,
        ))
}

/// Remapping keeps a dictionary's type.
pub proof fn lemma_remap_dict_type(ids: Seq<ObjectId>, start: int, entries: Seq<(Seq<u8>, ObjV)>)
    ensures
        dict_type(remap_entries(ids, start, entries)) == dict_type(entries),
{
    lemma_remap_find_key(ids, start, entries, nm_type());
}

/// Remapping keeps an object's shape: a dictionary stays a dictionary
/// of the same type, and nothing else becomes one.
pub proof fn lemma_remap_shape(ids: Seq<ObjectId>, start: int, v: ObjV)
    ensures
        v is Dict ==> remap_obj(ids, start, v) == ObjV::Dict(
            remap_entries(ids, start, v->Dict_0),
        ) && dict_type(remap_entries(ids, start, v->Dict_0)) == dict_type(v->Dict_0),
        !(v is Dict) ==> !(remap_obj(ids, start, v) is Dict),
{
    match v {
        ObjV::Dict(e) => {
            lemma_remap_dict_type(ids, start, e);
        },
        _ => {},
    }
}

/// Looking an identifier up in a concatenation: the left part wins when
/// it holds the identifier, the right part answers otherwise.
pub proof fn lemma_find_id_concat(a: Seq<(ObjectId, ObjV)>, b: Seq<(ObjectId, ObjV)>, id: ObjectId)
    ensures
        find_id(a + b, id) == if find_id(a, id) is Some {
            find_id(a, id)
        } else {
            find_id(b, id)
        },
    decreases a.len(),
{
    if a.len() == 0 {
        assert(a + b =~= b);
    } else {
        assert((a + b)[0] == a[0]);
        if a[0].0 != id {
            assert((a + b).drop_first() =~= a.drop_first() + b);
            lemma_find_id_concat(a.drop_first(), b, id);
        }
    }
}

/// Every page the walk yields is stored as a dictionary typed `Page`.
pub proof fn lemma_walk_pages_exist(gs: Seq<(ObjectId, ObjV)>, kids: Seq<ObjV>, budget: nat)
    ensures
        forall|k: int|
            0 <= k < walk_kids(gs, kids, budget).0.len() ==> (find_id(
                gs,
                #[trigger] walk_kids(gs, kids, budget).0[k],
            ) matches Some(ObjV::Dict(e)) && dict_type(e) == Some(nm_page())),
    decreases budget, kids.len(),
{
    if kids.len() == 0 || budget == 0 {
    } else {
        let b1 = (budget - 1) as nat;
        match kids[0] {
            ObjV::Ref(id) => match find_id(gs, id) {
                Some(ObjV::Dict(entries)) => {
                    if dict_type(entries) == Some(nm_page()) {
                        lemma_walk_pages_exist(gs, kids.drop_first(), b1);
                        let rest = walk_kids(gs, kids.drop_first(), b1);
                        assert forall|k: int|
                            0 <= k < walk_kids(gs, kids, budget).0.len() implies (find_id(
                            gs,
                            #[trigger] walk_kids(gs, kids, budget).0[k],
                        ) matches Some(ObjV::Dict(e)) && dict_type(e) == Some(nm_page())) by {
                            if k > 0 {
                                assert(walk_kids(gs, kids, budget).0[k] == rest.0[k - 1]);
                            }
                        }
                    } else if dict_type(entries) == Some(nm_pages()) {
                        let sub = walk_kids(gs, kids_of(gs, entries), b1);
                        let b2: nat = if sub.1 < b1 {
                            sub.1
                        } else {
                            b1
                        };
                        lemma_walk_pages_exist(gs, kids_of(gs, entries), b1);
                        lemma_walk_pages_exist(gs, kids.drop_first(), b2);
                        let rest = walk_kids(gs, kids.drop_first(), b2);
                        assert forall|k: int|
                            0 <= k < walk_kids(gs, kids, budget).0.len() implies (find_id(
                            gs,
                            #[trigger] walk_kids(gs, kids, budget).0[k],
                        ) matches Some(ObjV::Dict(e)) && dict_type(e) == Some(nm_page())) by {
                            if k < sub.0.len() {
                                assert(walk_kids(gs, kids, budget).0[k] == sub.0[k]);
                            } else {
                                assert(walk_kids(gs, kids, budget).0[k] == rest.0[
                                k - sub.0.len()]);
                            }
                        }
                    } else {
                        lemma_walk_pages_exist(gs, kids.drop_first(), b1);
                    }
                },
                _ => {
                    lemma_walk_pages_exist(gs, kids.drop_first(), b1);
                },
            },
            _ => {
                lemma_walk_pages_exist(gs, kids.drop_first(), b1);
            },
        }
    }
}

/// Every page of a graph's page list is stored as a dictionary typed
/// `Page`.
pub proof fn lemma_page_ids_exist(g: DocumentGraph)
    ensures
        forall|j: int|
            0 <= j < page_ids(g).len() ==> (find_id(gv(g), #[trigger] page_ids(g)[j]) matches Some(
                ObjV::Dict(e),
            ) && dict_type(e) == Some(nm_page())),
{
    match find_key(dv(g.trailer), nm_root()) {
        Some(ObjV::Ref(root)) => match find_id(gv(g), root) {
            Some(ObjV::Dict(cat)) => match find_key(cat, nm_pages()) {
                Some(ObjV::Ref(pid)) => match find_id(gv(g), pid) {
                    Some(ObjV::Dict(pents)) => {
                        lemma_walk_pages_exist(gv(g), kids_of(gv(g), pents), gv(g).len());
                    },
                    _ => {},
                },
                _ => {},
            },
            _ => {},
        },
        _ => {},
    }
}

/// A walk over kids that all refer to stored `Page` dictionaries, with
/// enough budget, yields exactly those references in order.
pub proof fn lemma_walk_all_pages(gs: Seq<(ObjectId, ObjV)>, kids: Seq<ObjV>, budget: nat)
    requires
        forall|i: int|
            0 <= i < kids.len() ==> ((#[trigger] kids[i]) matches ObjV::Ref(p) && (find_id(
                gs,
                p,
            ) matches Some(ObjV::Dict(e)) && dict_type(e) == Some(nm_page()))),
        budget >= kids.len(),
    ensures
        walk_kids(gs, kids, budget).0.len() == kids.len(),
        forall|i: int|
            0 <= i < kids.len() ==> ObjV::Ref(#[trigger] walk_kids(gs, kids, budget).0[i]) == kids[
                i],
        walk_kids(gs, kids, budget).1 == budget - kids.len(),
    decreases kids.len(),
{
    if kids.len() > 0 {
        let b1 = (budget - 1) as nat;
        assert(kids[0] matches ObjV::Ref(p));
        assert forall|i: int| 0 <= i < kids.drop_first().len() implies ((#[trigger] kids.drop_first()[i]) matches ObjV::Ref(p)
            && (find_id(gs, p) matches Some(ObjV::Dict(e)) && dict_type(e) == Some(
            nm_page(),
        ))) by {
            assert(kids.drop_first()[i] == kids[i + 1]);
        }
        lemma_walk_all_pages(gs, kids.drop_first(), b1);
        let rest = walk_kids(gs, kids.drop_first(), b1);
        assert forall|i: int| 0 <= i < kids.len() implies ObjV::Ref(
            #[trigger] walk_kids(gs, kids, budget).0[i],
        ) == kids[i] by {
            if i > 0 {
                assert(walk_kids(gs, kids, budget).0[i] == rest.0[i - 1]);
                assert(kids.drop_first()[i - 1] == kids[i]);
            }
        }
    }
}

/// What deflate compression of a byte sequence yields.  The encoding is
/// an outside algorithm; only that it is a function of the bytes alone
/// is stated, under this name.
pub uninterp spec fn deflate_of(b: Seq<u8>) -> Seq<u8>;

/// Relies on flate2's `ZlibEncoder` at its best compression level: the
/// result depends on the input bytes alone.  Writing into a vector
/// cannot fail, so the encoder's `Result`s are always `Ok`.
#[verifier::external_body]
fn deflate_bytes(b: &Vec<u8>) -> (r: Vec<u8>)
    ensures
        r@ == deflate_of(b@),
{
    let mut encoder = flate2::write::ZlibEncoder::new(Vec::new(), flate2::Compression::best());
    std::io::Write::write_all(&mut encoder, b.as_slice()).unwrap();
    encoder.finish().unwrap()
}

/// Whether the compaction pass rewrites a stream: it must allow
/// compression, carry no filter yet, and the deflated bytes must be
/// smaller by a margin that pays for the added keys.
pub open spec fn compressible(entries: Seq<(Seq<u8>, ObjV)>, content: Seq<u8>, allows: bool) -> bool {
    &&& allows
    &&& find_key(entries, nm_filter()) is None
    &&& deflate_of(content).len() + 19 < content.len()
    &&& deflate_of(content).len() <= i64::MAX
}

/// Compresses every eligible stream: its content is deflated, and its
/// dictionary receives the `FlateDecode` filter and the new length.
/// Everything else — identifiers, other objects, every other key of a
/// rewritten stream's dictionary, and the trailer — stays as it was.
#[verifier::loop_isolation(false)]
pub fn compress_graph(g: &DocumentGraph) -> (out: DocumentGraph)
    ensures
        gv(out).len() == gv(*g).len(),
        forall|k: int| 0 <= k < gv(out).len() ==> (#[trigger] gv(out)[k]).0 == gv(*g)[k].0,
        forall|k: int|
            0 <= k < gv(out).len() ==> match gv(*g)[k].1 {
                ObjV::Stream(e1, c1, a1) => {
                    if compressible(e1, c1, a1) {
                        &&& (#[trigger] gv(out)[k]).1 matches ObjV::Stream(e2, c2, a2) && c2
                            == deflate_of(c1) && a2 == a1 && find_key(e2, nm_filter()) == Some(
                            ObjV::Name(nm_flate_decode()),
                        ) && find_key(e2, nm_length()) == Some(
                            ObjV::Int(deflate_of(c1).len() as int),
                        ) && (forall|k2: Seq<u8>|
                            k2 != nm_filter() && k2 != nm_length() ==> #[trigger] find_key(e2, k2)
                                == find_key(e1, k2)) && (obj_wf(gv(*g)[k].1) ==> obj_wf(
                            gv(out)[k].1,
                        ))
                    } else {
                        (#[trigger] gv(out)[k]).1 == gv(*g)[k].1
                    }
                },
                _ => (#[trigger] gv(out)[k]).1 == gv(*g)[k].1,
            },
        dv(out.trailer) == dv(g.trailer),
        out.version@ == g.version@,
        out.max_id == g.max_id,
        forall|id: ObjectId|
            ids_unique(gv(*g)) && (#[trigger] find_id(gv(*g), id)) is Some && !(find_id(
                gv(*g),
                id,
            )->Some_0 is Stream) ==> find_id(gv(out), id) == find_id(gv(*g), id),
        ids_unique(gv(*g)) ==> ids_unique(gv(out)),
{
    let n: usize = g.objects.len();
    let mut out_objects: Vec<GraphEntry> = Vec::new();
    let mut k: usize = 0;
    while k < n
        invariant
            0 <= k <= n,
            out_objects@.len() == k,
            forall|j: int|
                0 <= j < k ==> (#[trigger] out_objects@[j]).id == gv(*g)[j].0 && match gv(
                    *g,
                )[j].1 {
                    ObjV::Stream(e1, c1, a1) => {
                        if compressible(e1, c1, a1) {
                            &&& ov(out_objects@[j].obj) matches ObjV::Stream(e2, c2, a2) && c2
                                == deflate_of(c1) && a2 == a1 && find_key(e2, nm_filter()) == Some(
                                ObjV::Name(nm_flate_decode()),
                            ) && find_key(e2, nm_length()) == Some(
                                ObjV::Int(deflate_of(c1).len() as int),
                            ) && (forall|k2: Seq<u8>|
                                k2 != nm_filter() && k2 != nm_length() ==> #[trigger] find_key(
                                    e2,
                                    k2,
                                ) == find_key(e1, k2)) && (obj_wf(gv(*g)[j].1) ==> obj_wf(
                                ov(out_objects@[j].obj),
                            ))
                        } else {
                            ov(out_objects@[j].obj) == gv(*g)[j].1
                        }
                    },
                    _ => ov(out_objects@[j].obj) == gv(*g)[j].1,
                },
        decreases n - k,
    {
        let entry = &g.objects[k];
        let new_obj: PdfObject = match &entry.obj {
            PdfObject::Stream(st) => {
                let fkey = key_filter();
                if st.allows_compression && !st.dict.has(fkey.as_slice()) {
                    let compressed = deflate_bytes(&st.content);
                    if st.content.len() > 19 && compressed.len() < st.content.len() - 19
                        && compressed.len() as u64 <= i64::MAX as u64 {
                        let mut d2 = crate::model::clone_dict(&st.dict);
                        d2.set(key_filter(), PdfObject::Name(key_flate_decode()));
                        d2.set(
                            key_length(),
                            PdfObject::Integer(compressed.len() as i64),
                        );
                        PdfObject::Stream(
                            Stream {
                                dict: d2,
                                content: compressed,
                                allows_compression: st.allows_compression,
                            },
                        )
                    } else {
                        clone_obj(&entry.obj)
                    }
                } else {
                    clone_obj(&entry.obj)
                }
            },
            _ => clone_obj(&entry.obj),
        };
        out_objects.push(GraphEntry { id: entry.id, obj: new_obj });
        k += 1;
    }
    let out = DocumentGraph {
        objects: out_objects,
        trailer: crate::model::clone_dict(&g.trailer),
        max_id: g.max_id,
        version: clone_bytes(&g.version),
    };
    proof {
        assert forall|id: ObjectId|
            ids_unique(gv(*g)) && (#[trigger] find_id(gv(*g), id)) is Some && !(find_id(
                gv(*g),
                id,
            )->Some_0 is Stream) implies find_id(gv(out), id) == find_id(gv(*g), id) by {
            let gs = gv(*g);
            lemma_find_id_pos_exists(gs, id);
            lemma_idx_of_props(gids(gs), id);
            let q = choose|q: int| 0 <= q < gs.len() && (#[trigger] gs[q]).0 == id;
            assert(gids(gs)[q] == id);
            let p = idx_of(gids(gs), id);
            assert(p != -1);
            assert(gs[p].0 == id);
            assert forall|q2: int| 0 <= q2 < p implies (#[trigger] gs[q2]).0 != id by {
                assert(gids(gs)[q2] == gs[q2].0);
            }
            crate::model::lemma_find_id_at(gs, id, p);
            assert forall|q2: int| 0 <= q2 < p implies (#[trigger] gv(out)[q2]).0 != id by {
                assert(gv(out)[q2].0 == gs[q2].0);
            }
            assert(gv(out)[p].0 == id);
            assert(gv(out)[p].1 == gs[p].1);
            crate::model::lemma_find_id_at(gv(out), id, p);
        }
    }
    out
}

/// Renumbers a graph: the object at position `k` receives number
/// `start + k` (its generation kept), and every reference to an old
/// identifier is redirected to the new one.  The result's identifiers
/// are unique by construction.
#[verifier::loop_isolation(false)]
pub fn renumber_graph(g: &DocumentGraph, start: u32) -> (out: DocumentGraph)
    requires
        1 <= start,
        start as int + g.objects@.len() <= u32::MAX as int + 1,
    ensures
        gv(out).len() == gv(*g).len(),
        forall|k: int|
            0 <= k < gv(out).len() ==> (#[trigger] gv(out)[k]).0 == (ObjectId {
                num: (start + k) as u32,
                gen: gv(*g)[k].0.gen,
            }),
        forall|k: int|
            0 <= k < gv(out).len() ==> (#[trigger] gv(out)[k]).1 == remap_obj(
                gids(gv(*g)),
                start as int,
                gv(*g)[k].1,
            ),
        dv(out.trailer) == remap_entries(gids(gv(*g)), start as int, dv(g.trailer)),
        out.max_id as int == start as int + gv(*g).len() - 1,
        out.version@ == g.version@,
        ids_unique(gv(out)),
        graph_wf(*g) ==> graph_wf(out),
        forall|id: ObjectId|
            ids_unique(gv(*g)) && (#[trigger] find_id(gv(*g), id)) is Some ==> find_id(
                gv(out),
                remap_id(gids(gv(*g)), start as int, id),
            ) == Some(remap_obj(gids(gv(*g)), start as int, find_id(gv(*g), id)->Some_0)),
{
    let n: usize = g.objects.len();
    let mut ids: Vec<ObjectId> = Vec::new();
    let mut i: usize = 0;
    while i < n
        invariant
            ids@.len() == i,
            0 <= i <= n,
            forall|j: int| 0 <= j < i ==> ids@[j] == gv(*g)[j].0,
        decreases n - i,
    {
        ids.push(g.objects[i].id);
        i += 1;
    }
    proof {
        assert(ids@ =~= gids(gv(*g)));
    }
    let mut out_objects: Vec<GraphEntry> = Vec::new();
    let mut k: usize = 0;
    while k < n
        invariant
            ids@ == gids(gv(*g)),
            out_objects@.len() == k,
            0 <= k <= n,
            forall|j: int|
                0 <= j < k ==> (#[trigger] out_objects@[j]).id == (ObjectId {
                    num: (start + j) as u32,
                    gen: gv(*g)[j].0.gen,
                }),
            forall|j: int|
                0 <= j < k ==> ov((#[trigger] out_objects@[j]).obj) == remap_obj(
                    gids(gv(*g)),
                    start as int,
                    gv(*g)[j].1,
                ),
        decreases n - k,
    {
        let new_obj = remap_obj_x(&ids, start, &g.objects[k].obj);
        out_objects.push(
            GraphEntry {
                id: ObjectId { num: start + k as u32, gen: g.objects[k].id.gen },
                obj: new_obj,
            },
        );
        k += 1;
    }
    let new_trailer = remap_dict_x(&ids, start, &g.trailer);
    let new_max: u32 = if n == 0 {
        start - 1
    } else {
        start + (n - 1) as u32
    };
    let out = DocumentGraph {
        objects: out_objects,
        trailer: new_trailer,
        max_id: new_max,
        version: clone_bytes(&g.version),
    };
    proof {
        assert forall|k2: int| 0 <= k2 < gv(out).len() implies (#[trigger] gv(out)[k2]).0
            == ObjectId { num: (start + k2) as u32, gen: gv(*g)[k2].0.gen } && gv(out)[k2].1
            == remap_obj(gids(gv(*g)), start as int, gv(*g)[k2].1) by {}
        assert(ids_unique(gv(out)));
        if graph_wf(*g) {
            assert forall|k2: int| 0 <= k2 < gv(out).len() implies obj_wf(
                #[trigger] gv(out)[k2].1,
            ) by {
                lemma_remap_wf(gids(gv(*g)), start as int, gv(*g)[k2].1);
            }
            broadcast use lemma_remap_entries_props;

            assert(obj_wf(ObjV::Dict(dv(out.trailer)))) by {
                lemma_remap_wf(gids(gv(*g)), start as int, ObjV::Dict(dv(g.trailer)));
            }
        }
        assert forall|id: ObjectId|
            ids_unique(gv(*g)) && (#[trigger] find_id(gv(*g), id)) is Some implies find_id(
            gv(out),
            remap_id(gids(gv(*g)), start as int, id),
        ) == Some(remap_obj(gids(gv(*g)), start as int, find_id(gv(*g), id)->Some_0)) by {
            let gs = gv(*g);
            lemma_find_id_pos_exists(gs, id);
            lemma_idx_of_props(gids(gs), id);
            let q = choose|q: int| 0 <= q < gs.len() && (#[trigger] gs[q]).0 == id;
            assert(gids(gs)[q] == id);
            let p = idx_of(gids(gs), id);
            assert(p != -1);
            assert(gids(gs)[p] == id);
            assert(gs[p].0 == id);
            assert forall|q2: int| 0 <= q2 < p implies (#[trigger] gs[q2]).0 != id by {
                assert(gids(gs)[q2] == gs[q2].0);
            }
            crate::model::lemma_find_id_at(gs, id, p);
            let rid = remap_id(gids(gs), start as int, id);
            assert(gv(out)[p].0 == rid);
            assert forall|q2: int| 0 <= q2 < p implies (#[trigger] gv(out)[q2]).0 != rid by {
                assert(gv(out)[q2].0.num == start + q2);
                assert(rid.num == start + p);
            }
            crate::model::lemma_find_id_at(gv(out), rid, p);
        }
    }
    out
}

} // verus!
