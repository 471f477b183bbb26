//! The document graph model: tagged PDF objects, dictionaries with unique
//! keys, and a whole object space with its trailer.
//!
//! Every type here has a mathematical view: `ObjV` mirrors `PdfObject`
//! with sequences in place of vectors, and a graph is viewed as a sequence
//! of `(identifier, view)` pairs in the order the graph stores them.

use vstd::prelude::*;

verus! {

/// A document-local object handle: an object number and a generation.
///
/// Identifiers are unique only within one graph; pooling graphs requires
/// renumbering first.
#[derive(Clone, Copy, Debug, PartialEq, Eq, Structural, Hash)]
pub struct ObjectId {
    pub num: u32,
    pub gen: u16,
}

/// One node of a PDF object graph.
///
/// A `Real` carries the 32-bit encoding of the number it stands for and is
/// treated as opaque: the engine never computes with reals, it only moves
/// them between graphs.  A `Text` carries its bytes and whether it is
/// written in hexadecimal form.
#[derive(Debug)]
pub enum PdfObject {
    Null,
    Boolean(bool),
    Integer(i64),
    Real(u32),
    Text(Vec<u8>, bool),
    Name(Vec<u8>),
    Array(Vec<PdfObject>),
    Dictionary(Dict),
    Stream(Stream),
    Reference(ObjectId),
}

/// One key/value pair of a dictionary.
#[derive(Debug)]
pub struct DictEntry {
    pub key: Vec<u8>,
    pub value: PdfObject,
}

/// A PDF dictionary: an ordered list of entries whose keys are unique.
#[derive(Debug)]
pub struct Dict {
    pub entries: Vec<DictEntry>,
}

/// A PDF stream: its dictionary, its raw bytes, and whether the
/// compaction pass may compress it.
#[derive(Debug)]
pub struct Stream {
    pub dict: Dict,
    pub content: Vec<u8>,
    pub allows_compression: bool,
}

/// One object of a graph together with its identifier.
#[derive(Debug)]
pub struct GraphEntry {
    pub id: ObjectId,
    pub obj: PdfObject,
}

/// A complete PDF object space: the objects in storage order, the trailer
/// dictionary, the largest object number in use, and the version label
/// the document is saved under.
#[derive(Debug)]
pub struct DocumentGraph {
    pub objects: Vec<GraphEntry>,
    pub trailer: Dict,
    pub max_id: u32,
    pub version: Vec<u8>,
}

/// The mathematical mirror of `PdfObject`.
pub enum ObjV {
    Null,
    Bool(bool),
    Int(int),
    Real(u32),
    Text(Seq<u8>, bool),
    Name(Seq<u8>),
    Arr(Seq<ObjV>),
    Dict(Seq<(Seq<u8>, ObjV)>),
    Stream(Seq<(Seq<u8>, ObjV)>, Seq<u8>, bool),
    Ref(ObjectId),
}

/// The view of an object: vectors become sequences, recursively.
pub open spec fn ov(o: PdfObject) -> ObjV
    decreases o,
{
    match o {
        PdfObject::Null => ObjV::Null,
        PdfObject::Boolean(b) => ObjV::Bool(b),
        PdfObject::Integer(i) => ObjV::Int(i as int),
        PdfObject::Real(r) => ObjV::Real(r),
        PdfObject::Text(s, hex) => ObjV::Text(s@, hex),
        PdfObject::Name(n) => ObjV::Name(n@),
        PdfObject::Array(items) => ObjV::Arr(ovs(items@)),
        PdfObject::Dictionary(d) => ObjV::Dict(evs(d.entries@)),
        PdfObject::Stream(s) => ObjV::Stream(evs(s.dict.entries@), s.content@, s.allows_compression),
        PdfObject::Reference(id) => ObjV::Ref(id),
    }
}

/// The views of a sequence of objects, element by element.
pub open spec fn ovs(items: Seq<PdfObject>) -> Seq<ObjV>
    decreases items,
{
    if items.len() == 0 {
        Seq::empty()
    } else {
        seq![ov(items[0])] + ovs(items.drop_first())
    }
}

/// The views of a sequence of dictionary entries, as `(key, value)` pairs.
pub open spec fn evs(entries: Seq<DictEntry>) -> Seq<(Seq<u8>, ObjV)>
    decreases entries,
{
    if entries.len() == 0 {
        Seq::empty()
    } else {
        seq![(entries[0].key@, ov(entries[0].value))] + evs(entries.drop_first())
    }
}

/// The view of a dictionary: its entries as `(key, value view)` pairs.
pub open spec fn dv(d: Dict) -> Seq<(Seq<u8>, ObjV)> {
    evs(d.entries@)
}

/// `ovs` maps element by element.
pub broadcast proof fn lemma_ovs_props(items: Seq<PdfObject>)
    ensures
        (#[trigger] ovs(items)).len() == items.len(),
        forall|i: int| 0 <= i < items.len() ==> ovs(items)[i] == ov(items[i]),
    decreases items.len(),
{
    if items.len() > 0 {
        lemma_ovs_props(items.drop_first());
    }
}

/// `evs` maps element by element.
pub broadcast proof fn lemma_evs_props(entries: Seq<DictEntry>)
    ensures
        (#[trigger] evs(entries)).len() == entries.len(),
        forall|i: int|
            0 <= i < entries.len() ==> evs(entries)[i] == (entries[i].key@, ov(entries[i].value)),
    decreases entries.len(),
{
    if entries.len() > 0 {
        lemma_evs_props(entries.drop_first());
    }
}

/// The view of a sequence of graph entries.
pub open spec fn evv(objs: Seq<GraphEntry>) -> Seq<(ObjectId, ObjV)> {
    Seq::new(objs.len(), |i: int| (objs[i].id, ov(objs[i].obj)))
}

/// The view of a whole graph: its entries as `(identifier, view)` pairs.
pub open spec fn gv(g: DocumentGraph) -> Seq<(ObjectId, ObjV)> {
    evv(g.objects@)
}

/// Whether a key sequence holds no key twice.
pub open spec fn keys_unique(s: Seq<(Seq<u8>, ObjV)>) -> bool {
    forall|i: int, j: int| 0 <= i < j < s.len() ==> s[i].0 != s[j].0
}

/// Deep well-formedness of an object view: every dictionary in it, at any
/// depth, holds each key at most once.
pub open spec fn obj_wf(v: ObjV) -> bool
    decreases v,
{
    match v {
        ObjV::Arr(items) => forall|i: int| 0 <= i < items.len() ==> obj_wf(#[trigger] items[i]),
        ObjV::Dict(entries) => keys_unique(entries) && forall|i: int|
            0 <= i < entries.len() ==> obj_wf(#[trigger] entries[i].1),
        ObjV::Stream(entries, _, _) => keys_unique(entries) && forall|i: int|
            0 <= i < entries.len() ==> obj_wf(#[trigger] entries[i].1),
        _ => true,
    }
}

/// Whether an identifier sequence holds no identifier twice.
pub open spec fn ids_unique(s: Seq<(ObjectId, ObjV)>) -> bool {
    forall|i: int, j: int| 0 <= i < j < s.len() ==> s[i].0 != s[j].0
}

/// Well-formedness of a graph: identifiers are unique and every stored
/// object, as well as the trailer, is deeply well formed.
pub open spec fn graph_wf(g: DocumentGraph) -> bool {
    &&& ids_unique(gv(g))
    &&& forall|i: int| 0 <= i < gv(g).len() ==> obj_wf(#[trigger] gv(g)[i].1)
    &&& obj_wf(ObjV::Dict(dv(g.trailer)))
}

/// The value stored under a key, if any: the first match in entry order.
pub open spec fn find_key(s: Seq<(Seq<u8>, ObjV)>, k: Seq<u8>) -> Option<ObjV>
    decreases s.len(),
{
    if s.len() == 0 {
        None
    } else if s[0].0 == k {
        Some(s[0].1)
    } else {
        find_key(s.drop_first(), k)
    }
}

/// The object stored under an identifier, if any: the first match in
/// storage order.
pub open spec fn find_id(s: Seq<(ObjectId, ObjV)>, id: ObjectId) -> Option<ObjV>
    decreases s.len(),
{
    if s.len() == 0 {
        None
    } else if s[0].0 == id {
        Some(s[0].1)
    } else {
        find_id(s.drop_first(), id)
    }
}

/// Unfolding `find_key` over a prefix of keys that all differ from `k`.
pub proof fn lemma_find_key_skip(s: Seq<(Seq<u8>, ObjV)>, k: Seq<u8>, n: int)
    requires
        0 <= n <= s.len(),
        forall|i: int| 0 <= i < n ==> s[i].0 != k,
    ensures
        find_key(s, k) == find_key(s.skip(n), k),
    decreases n,
{
    if n > 0 {
        assert(s.skip(1).skip(n - 1) =~= s.skip(n));
        lemma_find_key_skip(s.skip(1), k, n - 1);
        assert(s.drop_first() =~= s.skip(1));
    } else {
        assert(s.skip(0) =~= s);
    }
}

/// Unfolding `find_id` over a prefix of identifiers that all differ from `id`.
pub proof fn lemma_find_id_skip(s: Seq<(ObjectId, ObjV)>, id: ObjectId, n: int)
    requires
        0 <= n <= s.len(),
        forall|i: int| 0 <= i < n ==> s[i].0 != id,
    ensures
        find_id(s, id) == find_id(s.skip(n), id),
    decreases n,
{
    if n > 0 {
        assert(s.skip(1).skip(n - 1) =~= s.skip(n));
        lemma_find_id_skip(s.skip(1), id, n - 1);
        assert(s.drop_first() =~= s.skip(1));
    } else {
        assert(s.skip(0) =~= s);
    }
}

/// If some position holds `k`, `find_key` returns a value; under unique
/// keys it is exactly the value at that position.
pub proof fn lemma_find_key_at(s: Seq<(Seq<u8>, ObjV)>, k: Seq<u8>, n: int)
    requires
        0 <= n < s.len(),
        s[n].0 == k,
        forall|i: int| 0 <= i < n ==> s[i].0 != k,
    ensures
        find_key(s, k) == Some(s[n].1),
{
    lemma_find_key_skip(s, k, n);
    assert(s.skip(n)[0] == s[n]);
}

/// If some position holds `id` and no earlier one does, `find_id` returns
/// the value at that position.
pub proof fn lemma_find_id_at(s: Seq<(ObjectId, ObjV)>, id: ObjectId, n: int)
    requires
        0 <= n < s.len(),
        s[n].0 == id,
        forall|i: int| 0 <= i < n ==> s[i].0 != id,
    ensures
        find_id(s, id) == Some(s[n].1),
{
    lemma_find_id_skip(s, id, n);
    assert(s.skip(n)[0] == s[n]);
}

/// Decides whether each key of a dictionary entry list occurs once.
#[verifier::loop_isolation(false)]
pub fn check_keys_unique(entries: &Vec<DictEntry>) -> (r: bool)
    ensures
        r == keys_unique(evs(entries@)),
{
    proof {
        lemma_evs_props(entries@);
    }
    let n: usize = entries.len();
    let mut i: usize = 0;
    while i < n
        invariant
            0 <= i <= n,
            forall|a: int, b: int|
                0 <= a < b < n && a < i ==> evs(entries@)[a].0 != evs(entries@)[b].0,
        decreases n - i,
    {
        let mut j: usize = i + 1;
        while j < n
            invariant
                i < j <= n,
                forall|b: int| i < b < j ==> evs(entries@)[i as int].0 != evs(entries@)[b].0,
            decreases n - j,
        {
            if bytes_eq(entries[i].key.as_slice(), entries[j].key.as_slice()) {
                proof {
                    assert(evs(entries@)[i as int].0 == evs(entries@)[j as int].0);
                }
                return false;
            }
            j += 1;
        }
        i += 1;
    }
    true
}

/// Decides deep well-formedness of an object.
#[verifier::loop_isolation(false)]
pub fn check_obj_wf(o: &PdfObject) -> (r: bool)
    ensures
        r == obj_wf(ov(*o)),
    decreases *o,
{
    proof {
        lemma_ovs_props(Seq::<PdfObject>::empty());
    }
    match o {
        PdfObject::Array(items) => {
            let n: usize = items.len();
            let mut i: usize = 0;
            while i < n
                invariant
                    0 <= i <= n,
                    forall|j: int| 0 <= j < i ==> obj_wf(#[trigger] ovs(items@)[j]),
                decreases n - i,
            {
                proof {
                    lemma_ovs_props(items@);
                }
                if !check_obj_wf(&items[i]) {
                    proof {
                        assert(0 <= i < ovs(items@).len());
                        assert(!obj_wf(ovs(items@)[i as int]));
                        assert(!obj_wf(ov(*o)));
                    }
                    return false;
                }
                i += 1;
            }
            proof {
                lemma_ovs_props(items@);
                assert(obj_wf(ov(*o)));
            }
            true
        },
        PdfObject::Dictionary(d) => check_dict_wf(d),
        PdfObject::Stream(s) => {
            let r = check_dict_wf(&s.dict);
            proof {
                assert(obj_wf(ObjV::Dict(dv(s.dict))) == obj_wf(
                    ObjV::Stream(dv(s.dict), s.content@, s.allows_compression),
                ));
            }
            r
        },
        _ => true,
    }
}

/// Decides deep well-formedness of a dictionary.
#[verifier::loop_isolation(false)]
pub fn check_dict_wf(d: &Dict) -> (r: bool)
    ensures
        r == obj_wf(ObjV::Dict(dv(*d))),
    decreases *d,
{
    if !check_keys_unique(&d.entries) {
        return false;
    }
    proof {
        lemma_evs_props(d.entries@);
    }
    let n: usize = d.entries.len();
    let mut i: usize = 0;
    while i < n
        invariant
            0 <= i <= n,
            keys_unique(dv(*d)),
            forall|j: int| 0 <= j < i ==> obj_wf(#[trigger] dv(*d)[j].1),
        decreases n - i,
    {
        if !check_obj_wf(&d.entries[i].value) {
            proof {
                assert(dv(*d)[i as int].1 == ov(d.entries@[i as int].value));
                assert(!obj_wf(dv(*d)[i as int].1));
                assert(!obj_wf(ObjV::Dict(dv(*d))));
            }
            return false;
        }
        i += 1;
    }
    proof {
        assert(obj_wf(ObjV::Dict(dv(*d))));
    }
    true
}

/// Decides well-formedness of a whole graph: identifiers unique, every
/// object and the trailer deeply well formed.  A shell that received a
/// graph from outside the engine can test the engine's preconditions
/// with this before composing.
#[verifier::loop_isolation(false)]
pub fn check_graph_wf(g: &DocumentGraph) -> (r: bool)
    ensures
        r == graph_wf(*g),
{
    let n: usize = g.objects.len();
    let mut i: usize = 0;
    while i < n
        invariant
            0 <= i <= n,
            forall|a: int, b: int| 0 <= a < b < n && a < i ==> gv(*g)[a].0 != gv(*g)[b].0,
        decreases n - i,
    {
        let mut j: usize = i + 1;
        while j < n
            invariant
                i < j <= n,
                forall|b: int| i < b < j ==> gv(*g)[i as int].0 != gv(*g)[b].0,
            decreases n - j,
        {
            if g.objects[i].id.num == g.objects[j].id.num && g.objects[i].id.gen
                == g.objects[j].id.gen {
                proof {
                    assert(gv(*g)[i as int].0 == gv(*g)[j as int].0);
                    assert(!ids_unique(gv(*g)));
                }
                return false;
            }
            j += 1;
        }
        i += 1;
    }
    let mut k: usize = 0;
    while k < n
        invariant
            0 <= k <= n,
            ids_unique(gv(*g)),
            forall|j: int| 0 <= j < k ==> obj_wf(#[trigger] gv(*g)[j].1),
        decreases n - k,
    {
        if !check_obj_wf(&g.objects[k].obj) {
            proof {
                assert(gv(*g)[k as int].1 == ov(g.objects@[k as int].obj));
                assert(!obj_wf(gv(*g)[k as int].1));
            }
            return false;
        }
        k += 1;
    }
    check_dict_wf(&g.trailer)
}

/// Byte-slice equality, decided by scanning.
pub fn bytes_eq(a: &[u8], b: &[u8]) -> (r: bool)
    ensures
        r == (a@ == b@),
{
    if a.len() != b.len() {
        assert(a@ != b@) by {
            assert(a@.len() != b@.len());
        }
        return false;
    }
    let n: usize = a.len();
    let mut i: usize = 0;
    while i < n
        invariant
            n == a@.len() == b@.len(),
            0 <= i <= n,
            forall|j: int| 0 <= j < i ==> a@[j] == b@[j],
        decreases n - i,
    {
        if a[i] != b[i] {
            return false;
        }
        i += 1;
    }
    assert(a@ =~= b@);
    true
}

impl Dict {
    /// The empty dictionary.
    pub fn new() -> (d: Dict)
        ensures
            dv(d) =~= Seq::<(Seq<u8>, ObjV)>::empty(),
    {
        Dict { entries: Vec::new() }
    }

    /// Looks a key up; returns the stored value if the key is present.
    pub fn get(&self, key: &[u8]) -> (r: Option<&PdfObject>)
        ensures
            match r {
                Some(o) => find_key(dv(*self), key@) == Some(ov(*o)),
                None => find_key(dv(*self), key@) is None,
            },
    {
        let n: usize = self.entries.len();
        let mut i: usize = 0;
        while i < n
            invariant
                n == self.entries@.len(),
                0 <= i <= n,
                forall|j: int| 0 <= j < i ==> self.entries@[j].key@ != key@,
            decreases n - i,
        {
            if bytes_eq(self.entries[i].key.as_slice(), key) {
                proof {
                    lemma_evs_props(self.entries@);
                    lemma_find_key_at(dv(*self), key@, i as int);
                }
                return Some(&self.entries[i].value);
            }
            i += 1;
        }
        proof {
            lemma_evs_props(self.entries@);
            lemma_find_key_skip(dv(*self), key@, n as int);
        }
        None
    }

    /// Whether the key is present.
    pub fn has(&self, key: &[u8]) -> (r: bool)
        ensures
            r == (find_key(dv(*self), key@) is Some),
    {
        self.get(key).is_some()
    }

    /// Stores a value under a key: the entry is replaced in place if the
    /// key is present, appended otherwise.  Every other key keeps its
    /// value, and deep well-formedness is preserved.
    pub fn set(&mut self, key: Vec<u8>, value: PdfObject)
        ensures
            find_key(dv(*final(self)), key@) == Some(ov(value)),
            forall|k2: Seq<u8>|
                k2 != key@ ==> #[trigger] find_key(dv(*final(self)), k2) == find_key(
                    dv(*old(self)),
                    k2,
                ),
            obj_wf(ObjV::Dict(dv(*old(self)))) && obj_wf(ov(value)) ==> obj_wf(
                ObjV::Dict(dv(*final(self))),
            ),
            dv(*final(self)).len() <= dv(*old(self)).len() + 1,
    {
        let ghost s0: Seq<(Seq<u8>, ObjV)> = dv(*self);
        let ghost k0: Seq<u8> = key@;
        let ghost v0: ObjV = ov(value);
        proof {
            lemma_evs_props(self.entries@);
        }
        let n: usize = self.entries.len();
        let mut i: usize = 0;
        while i < n
            invariant
                self.entries@ == old(self).entries@,
                s0 == dv(*self),
                k0 == key@,
                v0 == ov(value),
                n == self.entries@.len(),
                0 <= i <= n,
                forall|j: int| 0 <= j < i ==> self.entries@[j].key@ != k0,
            decreases n - i,
        {
            if bytes_eq(self.entries[i].key.as_slice(), key.as_slice()) {
                proof {
                    lemma_evs_props(self.entries@);
                    assert(s0[i as int].0 == k0);
                    assert(forall|j: int| 0 <= j < i ==> s0[j].0 != k0);
                }
                self.entries.set(i, DictEntry { key, value });
                proof {
                    lemma_evs_props(self.entries@);
                    assert(dv(*self) =~= s0.update(i as int, (s0[i as int].0, v0)));
                    assert forall|k2: Seq<u8>| true implies #[trigger] find_key(dv(*self), k2)
                        == if k2 == k0 {
                        Some(v0)
                    } else {
                        find_key(s0, k2)
                    } by {
                        lemma_find_key_update(s0, i as int, v0, k2);
                    }
                    assert(obj_wf(ObjV::Dict(s0)) && obj_wf(v0) ==> obj_wf(
                        ObjV::Dict(dv(*self)),
                    ));
                }
                return ;
            }
            i += 1;
        }
        proof {
            lemma_evs_props(self.entries@);
            assert(forall|j: int| 0 <= j < n ==> s0[j].0 != k0);
        }
        self.entries.push(DictEntry { key, value });
        proof {
            lemma_evs_props(self.entries@);
            assert(dv(*self) =~= s0.push((k0, v0)));
            assert forall|k2: Seq<u8>| true implies #[trigger] find_key(dv(*self), k2) == if k2
                == k0 {
                Some(v0)
            } else {
                find_key(s0, k2)
            } by {
                lemma_find_key_push(s0, k0, v0, k2);
            }
        }
    }

    /// Removes a key if it is present; every other key keeps its value.
    /// The dictionary must be well formed, so the key occurs at most once.
    pub fn remove(&mut self, key: &[u8])
        requires
            obj_wf(ObjV::Dict(dv(*old(self)))),
        ensures
            find_key(dv(*final(self)), key@) is None,
            forall|k2: Seq<u8>|
                k2 != key@ ==> #[trigger] find_key(dv(*final(self)), k2) == find_key(
                    dv(*old(self)),
                    k2,
                ),
            obj_wf(ObjV::Dict(dv(*final(self)))),
            dv(*final(self)).len() <= dv(*old(self)).len(),
    {
        let ghost s0: Seq<(Seq<u8>, ObjV)> = dv(*self);
        let ghost k0: Seq<u8> = key@;
        proof {
            lemma_evs_props(self.entries@);
        }
        let n: usize = self.entries.len();
        let mut i: usize = 0;
        while i < n
            invariant
                self.entries@ == old(self).entries@,
                s0 == dv(*self),
                k0 == key@,
                obj_wf(ObjV::Dict(s0)),
                n == self.entries@.len(),
                0 <= i <= n,
                forall|j: int| 0 <= j < i ==> self.entries@[j].key@ != k0,
            decreases n - i,
        {
            if bytes_eq(self.entries[i].key.as_slice(), key) {
                proof {
                    lemma_evs_props(self.entries@);
                    assert(s0[i as int].0 == k0);
                    assert(forall|j: int| 0 <= j < s0.len() && j != i ==> s0[j].0 != s0[
                        i as int].0);
                }
                self.entries.remove(i);
                proof {
                    lemma_evs_props(self.entries@);
                    assert(dv(*self) =~= s0.remove(i as int));
                    assert forall|k2: Seq<u8>| true implies #[trigger] find_key(dv(*self), k2)
                        == if k2 == k0 {
                        None::<ObjV>
                    } else {
                        find_key(s0, k2)
                    } by {
                        lemma_find_key_remove(s0, i as int, k2);
                    }
                }
                return ;
            }
            i += 1;
        }
        proof {
            lemma_evs_props(self.entries@);
            assert(forall|j: int| 0 <= j < n ==> s0[j].0 != k0);
            lemma_find_key_skip(s0, k0, n as int);
        }
    }
}

/// `find_key` after replacing the entry at a position that holds the key
/// being replaced and no earlier occurrence of it.
pub proof fn lemma_find_key_update(s: Seq<(Seq<u8>, ObjV)>, i: int, v: ObjV, k2: Seq<u8>)
    requires
        0 <= i < s.len(),
        forall|j: int| 0 <= j < i ==> s[j].0 != s[i].0,
    ensures
        find_key(s.update(i, (s[i].0, v)), k2) == if k2 == s[i].0 {
            Some(v)
        } else {
            find_key(s, k2)
        },
    decreases i,
{
    let t = s.update(i, (s[i].0, v));
    if i == 0 {
        if k2 != s[0].0 {
            assert(t.drop_first() =~= s.drop_first());
        }
    } else {
        if k2 == s[0].0 {
        } else {
            assert(t.drop_first() =~= s.drop_first().update(i - 1, (s[i].0, v)));
            assert(s.drop_first()[i - 1] == s[i]);
            lemma_find_key_update(s.drop_first(), i - 1, v, k2);
        }
    }
}

/// `find_key` after appending a key that was absent.
pub proof fn lemma_find_key_push(s: Seq<(Seq<u8>, ObjV)>, k: Seq<u8>, v: ObjV, k2: Seq<u8>)
    requires
        forall|j: int| 0 <= j < s.len() ==> s[j].0 != k,
    ensures
        find_key(s.push((k, v)), k2) == if k2 == k {
            Some(v)
        } else {
            find_key(s, k2)
        },
    decreases s.len(),
{
    let t = s.push((k, v));
    assert(t.len() == s.len() + 1);
    if s.len() == 0 {
        assert(t[0] == (k, v));
        if k2 == k {
            assert(find_key(t, k2) == Some(v));
        } else {
            assert(t.drop_first() =~= Seq::<(Seq<u8>, ObjV)>::empty());
            assert(find_key(t, k2) == find_key(t.drop_first(), k2));
            assert(find_key(t, k2) is None);
        }
    } else {
        assert(t[0] == s[0]);
        if k2 == s[0].0 {
            assert(find_key(t, k2) == Some(t[0].1));
            assert(find_key(s, k2) == Some(s[0].1));
        } else {
            assert(t.drop_first() =~= s.drop_first().push((k, v)));
            assert(forall|j: int|
                0 <= j < s.drop_first().len() ==> #[trigger] s.drop_first()[j].0 == s[j + 1].0);
            lemma_find_key_push(s.drop_first(), k, v, k2);
            assert(find_key(t, k2) == find_key(t.drop_first(), k2));
            assert(find_key(s, k2) == find_key(s.drop_first(), k2));
        }
    }
}

/// `find_key` after removing the only occurrence of a key.
pub proof fn lemma_find_key_remove(s: Seq<(Seq<u8>, ObjV)>, i: int, k2: Seq<u8>)
    requires
        0 <= i < s.len(),
        forall|j: int| 0 <= j < s.len() && j != i ==> s[j].0 != s[i].0,
    ensures
        find_key(s.remove(i), k2) == if k2 == s[i].0 {
            None::<ObjV>
        } else {
            find_key(s, k2)
        },
    decreases i,
{
    let t = s.remove(i);
    if i == 0 {
        assert(t =~= s.drop_first());
        if k2 == s[0].0 {
            lemma_find_key_none(s.drop_first(), s[0].0);
        }
    } else {
        assert(t[0] == s[0]);
        if k2 == s[0].0 {
        } else {
            assert(t.drop_first() =~= s.drop_first().remove(i - 1));
            assert(s.drop_first()[i - 1] == s[i]);
            lemma_find_key_remove(s.drop_first(), i - 1, k2);
        }
    }
}

/// An exact copy of a byte vector.
pub fn clone_bytes(v: &Vec<u8>) -> (r: Vec<u8>)
    ensures
        r@ == v@,
{
    let r = v.clone();
    assert(r@ =~= v@);
    r
}

/// A deep copy of an object: the copy has the same view.
#[verifier::loop_isolation(false)]
pub fn clone_obj(o: &PdfObject) -> (r: PdfObject)
    ensures
        ov(r) == ov(*o),
    decreases *o,
{
    match o {
        PdfObject::Null => PdfObject::Null,
        PdfObject::Boolean(b) => PdfObject::Boolean(*b),
        PdfObject::Integer(i) => PdfObject::Integer(*i),
        PdfObject::Real(r) => PdfObject::Real(*r),
        PdfObject::Text(s, hex) => PdfObject::Text(clone_bytes(s), *hex),
        PdfObject::Name(n) => PdfObject::Name(clone_bytes(n)),
        PdfObject::Array(items) => {
            let n: usize = items.len();
            let mut out: Vec<PdfObject> = Vec::new();
            let mut i: usize = 0;
            while i < n
                invariant
                    n == items@.len(),
                    0 <= i <= n,
                    out@.len() == i,
                    forall|j: int| 0 <= j < i ==> ov(#[trigger] out@[j]) == ov(items@[j]),
                decreases n - i,
            {
                let c = clone_obj(&items[i]);
                out.push(c);
                i += 1;
            }
            proof {
                lemma_ovs_props(out@);
                lemma_ovs_props(items@);
                assert(ovs(out@) =~= ovs(items@));
            }
            PdfObject::Array(out)
        },
        PdfObject::Dictionary(d) => PdfObject::Dictionary(clone_dict(d)),
        PdfObject::Stream(s) => PdfObject::Stream(
            Stream {
                dict: clone_dict(&s.dict),
                content: clone_bytes(&s.content),
                allows_compression: s.allows_compression,
            },
        ),
        PdfObject::Reference(id) => PdfObject::Reference(*id),
    }
}

/// A deep copy of a dictionary: the copy has the same view.
#[verifier::loop_isolation(false)]
pub fn clone_dict(d: &Dict) -> (r: Dict)
    ensures
        dv(r) == dv(*d),
    decreases *d,
{
    let n: usize = d.entries.len();
    let mut out: Vec<DictEntry> = Vec::new();
    let mut i: usize = 0;
    while i < n
        invariant
            n == d.entries@.len(),
            0 <= i <= n,
            out@.len() == i,
            forall|j: int|
                0 <= j < i ==> (#[trigger] out@[j]).key@ == d.entries@[j].key@ && ov(
                    out@[j].value,
                ) == ov(d.entries@[j].value),
        decreases n - i,
    {
        let e = DictEntry { key: clone_bytes(&d.entries[i].key), value: clone_obj(
            &d.entries[i].value,
        ) };
        out.push(e);
        i += 1;
    }
    proof {
        lemma_evs_props(out@);
        lemma_evs_props(d.entries@);
        assert(evs(out@) =~= evs(d.entries@));
    }
    Dict { entries: out }
}

/// `find_key` after appending an entry, with no assumption on the keys.
pub proof fn lemma_find_key_push_gen(s: Seq<(Seq<u8>, ObjV)>, e: (Seq<u8>, ObjV), k2: Seq<u8>)
    ensures
        find_key(s.push(e), k2) == if find_key(s, k2) is Some {
            find_key(s, k2)
        } else if k2 == e.0 {
            Some(e.1)
        } else {
            None::<ObjV>
        },
    decreases s.len(),
{
    if s.len() == 0 {
        assert(s.push(e).len() == 1);
        assert(s.push(e)[0] == e);
        assert(s.push(e).drop_first() =~= Seq::<(Seq<u8>, ObjV)>::empty());
        if k2 == e.0 {
            assert(find_key(s.push(e), k2) == Some(e.1));
        } else {
            assert(find_key(s.push(e), k2) == find_key(s.push(e).drop_first(), k2));
            assert(find_key(s.push(e), k2) is None);
        }
        assert(find_key(s, k2) is None);
    } else {
        assert(s.push(e)[0] == s[0]);
        if s[0].0 != k2 {
            assert(s.push(e).drop_first() =~= s.drop_first().push(e));
            lemma_find_key_push_gen(s.drop_first(), e, k2);
        } else {
            assert(find_key(s.push(e), k2) == Some(s[0].1));
            assert(find_key(s, k2) == Some(s[0].1));
        }
    }
}

/// A key that occurs nowhere is not found.
pub proof fn lemma_find_key_none(s: Seq<(Seq<u8>, ObjV)>, k: Seq<u8>)
    requires
        forall|j: int| 0 <= j < s.len() ==> s[j].0 != k,
    ensures
        find_key(s, k) is None,
    decreases s.len(),
{
    if s.len() > 0 {
        lemma_find_key_none(s.drop_first(), k);
    }
}

} // verus!
