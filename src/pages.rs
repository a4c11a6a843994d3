//! Page extraction: building a standalone document around pages copied from sources.

use std::collections::BTreeMap;
use vstd::prelude::*;

use crate::errors::Error;
use crate::object::{
    entries_view, find_key, lemma_entries_view_pointwise, lemma_find_key, lemma_objects_view_pointwise, objects_view, parent_key, parent_name, set_entry, lookup,
    Dictionary, Document, Object, ObjectId, Value,
};
use crate::tree::{lemma_unfold_bound, link, unfold, values_of, Node, PDFTree};

verus! {

/// The name `Type`.
pub open spec fn type_key() -> Seq<u8> {
    seq![84u8, 121u8, 112u8, 101u8]
}

/// The name `Pages`.
pub open spec fn pages_key() -> Seq<u8> {
    seq![80u8, 97u8, 103u8, 101u8, 115u8]
}

/// The name `Kids`.
pub open spec fn kids_key() -> Seq<u8> {
    seq![75u8, 105u8, 100u8, 115u8]
}

/// The name `Count`.
pub open spec fn count_key() -> Seq<u8> {
    seq![67u8, 111u8, 117u8, 110u8, 116u8]
}

/// The name `MediaBox`.
pub open spec fn media_box_key() -> Seq<u8> {
    seq![77u8, 101u8, 100u8, 105u8, 97u8, 66u8, 111u8, 120u8]
}

/// The name `Catalog`.
pub open spec fn catalog_key() -> Seq<u8> {
    seq![67u8, 97u8, 116u8, 97u8, 108u8, 111u8, 103u8]
}

/// The name `Root`.
pub open spec fn root_key() -> Seq<u8> {
    seq![82u8, 111u8, 111u8, 116u8]
}

fn type_entry_name() -> (r: Vec<u8>)
    ensures
        r@ == type_key(),
{
    let r: Vec<u8> = vec![84u8, 121u8, 112u8, 101u8];
    assert(r@ =~= type_key());
    r
}

fn pages_name() -> (r: Vec<u8>)
    ensures
        r@ == pages_key(),
{
    let r: Vec<u8> = vec![80u8, 97u8, 103u8, 101u8, 115u8];
    assert(r@ =~= pages_key());
    r
}

fn kids_name() -> (r: Vec<u8>)
    ensures
        r@ == kids_key(),
{
    let r: Vec<u8> = vec![75u8, 105u8, 100u8, 115u8];
    assert(r@ =~= kids_key());
    r
}

fn count_name() -> (r: Vec<u8>)
    ensures
        r@ == count_key(),
{
    let r: Vec<u8> = vec![67u8, 111u8, 117u8, 110u8, 116u8];
    assert(r@ =~= count_key());
    r
}

fn media_box_name() -> (r: Vec<u8>)
    ensures
        r@ == media_box_key(),
{
    let r: Vec<u8> = vec![77u8, 101u8, 100u8, 105u8, 97u8, 66u8, 111u8, 120u8];
    assert(r@ =~= media_box_key());
    r
}

fn catalog_name() -> (r: Vec<u8>)
    ensures
        r@ == catalog_key(),
{
    let r: Vec<u8> = vec![67u8, 97u8, 116u8, 97u8, 108u8, 111u8, 103u8];
    assert(r@ =~= catalog_key());
    r
}

fn root_name() -> (r: Vec<u8>)
    ensures
        r@ == root_key(),
{
    let r: Vec<u8> = vec![82u8, 111u8, 111u8, 116u8];
    assert(r@ =~= root_key());
    r
}

/// The contents of a document as values.
pub struct DocValue {
    pub objects: Map<ObjectId, Value>,
    pub max_id: int,
    pub trailer: Seq<(Seq<u8>, Value)>,
}

/// The value of `doc`.
pub open spec fn doc_value(doc: &Document) -> DocValue {
    DocValue { objects: values_of(doc), max_id: doc.max_id as int, trailer: entries_view(doc.trailer.entries@) }
}

/// The entries of the page object `oid` of `src`, where it is a dictionary.
pub open spec fn page_entries(src: &Document, oid: ObjectId) -> Option<Seq<(Seq<u8>, Value)>> {
    if src.objects@.contains_key(oid) && src.objects@[oid]@ is Dictionary {
        Some(src.objects@[oid]@->Dictionary_0)
    } else {
        None
    }
}

/// The tree that the walk makes of the page object `oid` of `src`.
pub open spec fn page_tree(src: &Document, oid: ObjectId) -> Node {
    Node::SubTree(
        oid,
        Box::new(unfold(src.objects@, src.objects@.dom().remove(oid), src.objects@[oid]).0),
    )
}

/// `v` with its entry `Parent` pointing at `pages`, where `v` is a dictionary.
pub open spec fn with_parent(v: Value, pages: ObjectId) -> Value {
    match v {
        Value::Dictionary(es) => Value::Dictionary(set_entry(es, parent_key(), Value::Reference(pages))),
        _ => v,
    }
}

/// The references to `kids`, in order.
pub open spec fn kid_refs(kids: Seq<ObjectId>) -> Seq<Value> {
    kids.map_values(|k: ObjectId| Value::Reference(k))
}

/// The Pages node over `kids`.
pub open spec fn pages_node(kids: Seq<ObjectId>, media_box: Value) -> Value {
    Value::Dictionary(
        seq![
            (type_key(), Value::Name(pages_key())),
            (kids_key(), Value::Array(kid_refs(kids))),
            (count_key(), Value::Integer(kids.len() as i64)),
            (media_box_key(), media_box),
        ],
    )
}

/// The Catalog node over the Pages node `pages`.
pub open spec fn catalog_node(pages: ObjectId) -> Value {
    Value::Dictionary(
        seq![(type_key(), Value::Name(catalog_key())), (pages_key(), Value::Reference(pages))],
    )
}

/// Copies page `oid` of `src` into `dv` below the Pages node `pages`: the new identity
/// of the page, the page's own `MediaBox`, and the document after it.
pub open spec fn appended(dv: DocValue, pages: ObjectId, src: &Document, oid: ObjectId) -> Result<
    (DocValue, ObjectId, Value),
    Error,
> {
    match page_entries(src, oid) {
        None => Err(Error::MissingPage),
        Some(es) => match lookup(es, media_box_key()) {
            None => Err(Error::MissingMediaBox),
            Some(mb) => {
                if dv.max_id + src.objects@.len() >= u32::MAX {
                    Err(Error::TooManyObjects)
                } else {
                    let st = crate::tree::Store {
                        objects: dv.objects,
                        max_id: dv.max_id,
                        renamed: Map::empty(),
                    };
                    let (pid, s) = link(page_tree(src, oid), st);
                    Ok(
                        (
                            DocValue {
                                objects: s.objects.insert(pid, with_parent(s.objects[pid], pages)),
                                max_id: s.max_id,
                                trailer: dv.trailer,
                            },
                            pid,
                            mb,
                        ),
                    )
                }
            },
        },
    }
}

/// Stores the Pages node over `kids` under `pages`, adds a Catalog over it under a fresh
/// identity, and makes the Catalog the trailer's `Root`.
pub open spec fn finished(dv: DocValue, pages: ObjectId, kids: Seq<ObjectId>, media_box: Value) -> Result<DocValue, Error> {
    if dv.max_id >= u32::MAX {
        Err(Error::TooManyObjects)
    } else {
        let cat: ObjectId = ((dv.max_id + 1) as u32, 0u16);
        Ok(
            DocValue {
                objects: dv.objects.insert(pages, pages_node(kids, media_box)).insert(
                    cat,
                    catalog_node(pages),
                ),
                max_id: dv.max_id + 1,
                trailer: set_entry(dv.trailer, root_key(), Value::Reference(cat)),
            },
        )
    }
}

/// The empty document with one identity reserved for its Pages node.
pub open spec fn reserved() -> DocValue {
    DocValue { objects: Map::empty(), max_id: 1, trailer: Seq::empty() }
}

/// The identity reserved for the Pages node of a new document.
pub open spec fn pages_id() -> ObjectId {
    (1u32, 0u16)
}

/// The standalone one-page document made of page `no` of `src`.
pub open spec fn extracted(src: &Document, pages: Map<u32, ObjectId>, no: u32) -> Result<DocValue, Error> {
    if !pages.contains_key(no) {
        Err(Error::MissingPage)
    } else {
        match appended(reserved(), pages_id(), src, pages[no]) {
            Err(e) => Err(e),
            Ok((dv, pid, mb)) => finished(dv, pages_id(), seq![pid], mb),
        }
    }
}

} // verus!

verus! {

/// Copies page `oid` of `src` into `dest` below the Pages node `pages`, and returns the
/// page's new identity with a copy of its own `MediaBox`. On failure `dest` is unchanged.
pub fn append_page(dest: &mut Document, pages: ObjectId, src: &Document, oid: ObjectId) -> (r: Result<(ObjectId, Object), Error>)
    requires
        old(dest).wf(),
    ensures
        final(dest).wf(),
        final(dest).trailer == old(dest).trailer,
        final(dest).max_id >= old(dest).max_id,
        match r {
            Ok((pid, mb)) => appended(doc_value(old(dest)), pages, src, oid) == Ok::<
                (DocValue, ObjectId, Value),
                Error,
            >(
                (doc_value(final(dest)), pid, mb@),
            ),
            Err(e) => appended(doc_value(old(dest)), pages, src, oid) == Err::<
                (DocValue, ObjectId, Value),
                Error,
            >(e) && *final(dest) == *old(dest),
        },
{
    let page = match src.get_object(oid) {
        Some(Object::Dictionary(d)) => d,
        _ => {
            return Err(Error::MissingPage);
        },
    };
    let mb_name = media_box_name();
    let mb = match page.get(mb_name.as_slice()) {
        Some(m) => m.deep_copy(),
        None => {
            return Err(Error::MissingMediaBox);
        },
    };
    let n = src.objects.len();
    if n as u64 >= u32::MAX as u64 || dest.max_id as u64 + n as u64 >= u32::MAX as u64 {
        return Err(Error::TooManyObjects);
    }
    let tree = match PDFTree::new(oid, src) {
        Ok(t) => t,
        Err(e) => {
            return Err(e);
        },
    };
    proof {
        let objs = src.objects@;
        lemma_unfold_bound(objs, objs.dom().remove(oid), objs[oid]);
        assert(objs.dom().remove(oid).len() == objs.dom().len() - 1);
    }
    let ghost before = *dest;
    let pid = tree.link_reference(dest);
    let ghost linked = values_of(dest);
    let ghost pages_v = Value::Reference(pages);
    match dest.objects.remove(&pid) {
        Some(Object::Dictionary(d)) => {
            assert(linked[pid] == Value::Dictionary(entries_view(d.entries@)));
            let mut d = d;
            d.set(parent_name(), Object::Reference(pages));
            dest.objects.insert(pid, Object::Dictionary(d));
            assert(values_of(dest)[pid] == with_parent(linked[pid], pages));
        },
        Some(other) => {
            dest.objects.insert(pid, other);
        },
        None => {
            assert(linked.contains_key(pid));
        },
    }
    assert(values_of(dest) =~= linked.insert(pid, with_parent(linked[pid], pages)));
    Ok((pid, mb))
}

/// Stores the Pages node over `kids` under `pages`, adds a Catalog over it, and makes the
/// Catalog the trailer's `Root`. On failure `dest` is unchanged.
pub fn finish(dest: &mut Document, pages: ObjectId, kids: &Vec<ObjectId>, media_box: Object) -> (r: Result<(), Error>)
    requires
        old(dest).wf(),
        pages.0 <= old(dest).max_id,
    ensures
        final(dest).wf(),
        match r {
            Ok(()) => finished(doc_value(old(dest)), pages, kids@, media_box@) == Ok::<DocValue, Error>(
                doc_value(final(dest)),
            ),
            Err(e) => finished(doc_value(old(dest)), pages, kids@, media_box@) == Err::<DocValue, Error>(
                e,
            ) && *final(dest) == *old(dest),
        },
{
    if dest.max_id == u32::MAX {
        return Err(Error::TooManyObjects);
    }
    let ghost mbv = media_box@;
    let mut refs: Vec<Object> = Vec::with_capacity(kids.len());
    let mut i: usize = 0;
    while i < kids.len()
        invariant
            0 <= i <= kids@.len(),
            refs@.len() == i,
            forall|j: int| 0 <= j < i ==> #[trigger] refs@[j] == Object::Reference(kids@[j]),
        decreases kids@.len() - i,
    {
        refs.push(Object::Reference(kids[i]));
        i = i + 1;
    }
    proof {
        lemma_objects_view_pointwise(refs@);
        assert(objects_view(refs@) =~= kid_refs(kids@));
    }
    let count = kids.len() as i64;
    let node = Dictionary {
        entries: vec![
            (type_entry_name(), Object::Name(pages_name())),
            (kids_name(), Object::Array(refs)),
            (count_name(), Object::Integer(count)),
            (media_box_name(), media_box),
        ],
    };
    proof {
        lemma_entries_view_pointwise(node.entries@);
        assert(entries_view(node.entries@) =~= pages_node(kids@, mbv)->Dictionary_0);
    }
    let ghost before = values_of(dest);
    let ghost node_v = Object::Dictionary(node)@;
    dest.objects.insert(pages, Object::Dictionary(node));
    let catalog = Dictionary {
        entries: vec![
            (type_entry_name(), Object::Name(catalog_name())),
            (pages_name(), Object::Reference(pages)),
        ],
    };
    proof {
        lemma_entries_view_pointwise(catalog.entries@);
        assert(entries_view(catalog.entries@) =~= catalog_node(pages)->Dictionary_0);
    }
    let ghost cat_v = Object::Dictionary(catalog)@;
    let cat = dest.add_object(Object::Dictionary(catalog));
    dest.trailer.set(root_name(), Object::Reference(cat));
    assert(values_of(dest) =~= before.insert(pages, node_v).insert(cat, cat_v));
    Ok(())
}

/// The standalone one-page document made of page `no` of `src`, whose page index is
/// `pages`.
///
/// The page and everything reachable from it are copied under fresh identities; the
/// copy's `Parent` points at a new Pages node that holds the page's own `MediaBox`, and a
/// new Catalog over that node is the trailer's `Root`.
pub fn extract_page(src: &Document, pages: &BTreeMap<u32, ObjectId>, no: u32) -> (r: Result<Document, Error>)
    ensures
        match r {
            Ok(d) => extracted(src, pages@, no) == Ok::<DocValue, Error>(doc_value(&d)) && d.wf(),
            Err(e) => extracted(src, pages@, no) == Err::<DocValue, Error>(e),
        },
{
    let oid = match pages.get(&no) {
        Some(o) => *o,
        None => {
            return Err(Error::MissingPage);
        },
    };
    let mut dest = Document::new();
    let pages_node_id = dest.new_object_id();
    proof {
        assert(values_of(&dest) =~= Map::<ObjectId, Value>::empty());
        assert(entries_view(dest.trailer.entries@) =~= Seq::<(Seq<u8>, Value)>::empty());
        assert(doc_value(&dest) == reserved());
    }
    let (pid, mb) = match append_page(&mut dest, pages_node_id, src, oid) {
        Ok(x) => x,
        Err(e) => {
            return Err(e);
        },
    };
    let mut kids: Vec<ObjectId> = Vec::new();
    kids.push(pid);
    assert(kids@ =~= seq![pid]);
    match finish(&mut dest, pages_node_id, &kids, mb) {
        Ok(()) => Ok(dest),
        Err(e) => Err(e),
    }
}

} // verus!

verus! {

/// After `set_entry`, the first entry with the name holds the new value.
pub proof fn lemma_lookup_set(es: Seq<(Seq<u8>, Value)>, k: Seq<u8>, v: Value)
    ensures
        lookup(set_entry(es, k, v), k) == Some(v),
{
    let n = set_entry(es, k, v);
    lemma_find_key(es, k);
    lemma_find_key(n, k);
    let j = find_key(es, k);
    if j >= 0 {
        assert(n[j] == (k, v));
        assert(forall|i: int| 0 <= i < j ==> n[i] == es[i]);
    } else {
        assert(n[es.len() as int] == (k, v));
        assert(forall|i: int| 0 <= i < es.len() ==> n[i] == es[i]);
    }
}

/// In a one-page document made by the page extractor, the copied page's `Parent` is the
/// new Pages node, whose only kid is that page, and the trailer's `Root` is a Catalog
/// over that node.
pub proof fn lemma_extracted_parent(src: &Document, pages: Map<u32, ObjectId>, no: u32)
    requires
        extracted(src, pages, no) is Ok,
    ensures
        ({
            let dv = extracted(src, pages, no)->Ok_0;
            exists|pid: ObjectId, mb: Value, cat: ObjectId|
                #![all_triggers]
                {
                    &&& dv.objects[pages_id()] == pages_node(seq![pid], mb)
                    &&& dv.objects[pid] matches Value::Dictionary(es) && lookup(
                        es,
                        parent_key(),
                    ) == Some(Value::Reference(pages_id()))
                    &&& lookup(dv.trailer, root_key()) == Some(Value::Reference(cat))
                    &&& dv.objects[cat] == catalog_node(pages_id())
                }
        }),
{
    let oid = pages[no];
    let objs = src.objects@;
    let (dv1, pid, mb) = appended(reserved(), pages_id(), src, oid)->Ok_0;
    let page = objs[oid];
    assert(page is Dictionary);
    let b = unfold(objs, objs.dom().remove(oid), page).0;
    assert(b is Dictionary);
    let st0 = crate::tree::Store {
        objects: reserved().objects,
        max_id: reserved().max_id,
        renamed: Map::empty(),
    };
    let id: ObjectId = ((st0.max_id + 1) as u32, 0u16);
    let res = crate::tree::Store {
        objects: st0.objects,
        max_id: st0.max_id + 1,
        renamed: st0.renamed.insert(oid, id),
    };
    let (v, s) = crate::tree::fold(b, res);
    crate::tree::lemma_fold_max_id(b, res);
    assert(v is Dictionary);
    let es0 = v->Dictionary_0;
    assert(pid == id);
    lemma_lookup_set(es0, parent_key(), Value::Reference(pages_id()));
    let cat: ObjectId = ((dv1.max_id + 1) as u32, 0u16);
    let dv = extracted(src, pages, no)->Ok_0;
    assert(dv1.objects[pid] == with_parent(v, pages_id()));
    assert(dv.objects[pid] == dv1.objects[pid]);
    lemma_lookup_set(Seq::empty(), root_key(), Value::Reference(cat));
    assert(dv.objects[pages_id()] == pages_node(seq![pid], mb));
    assert(dv.objects[cat] == catalog_node(pages_id()));
}

} // verus!

verus! {

/// The name `Info`.
pub open spec fn info_key() -> Seq<u8> {
    seq![73u8, 110u8, 102u8, 111u8]
}

fn info_name() -> (r: Vec<u8>)
    ensures
        r@ == info_key(),
{
    let r: Vec<u8> = vec![73u8, 110u8, 102u8, 111u8];
    assert(r@ =~= info_key());
    r
}

/// The identity of the information dictionary that the trailer's `Info` refers to, where
/// it refers to a stored dictionary.
pub open spec fn trail_info_id(doc: &Document) -> Option<ObjectId> {
    match lookup(entries_view(doc.trailer.entries@), info_key()) {
        Some(Value::Reference(id)) => if doc.objects@.contains_key(id) && doc.objects@[id]@ is Dictionary {
            Some(id)
        } else {
            None
        },
        _ => None,
    }
}

/// The information dictionary of `doc`, or [`Error::MissingInfo`] where the trailer has
/// none.
pub fn get_trail_info(doc: &Document) -> (r: Result<&Dictionary, Error>)
    ensures
        r is Ok <==> trail_info_id(doc) is Some,
        r matches Ok(d) ==> Object::Dictionary(*d) == doc.objects@[trail_info_id(doc)->0],
        r matches Err(e) ==> e == Error::MissingInfo,
{
    let key = info_name();
    match doc.trailer.get(key.as_slice()) {
        Some(Object::Reference(id)) => match doc.get_object(*id) {
            Some(Object::Dictionary(d)) => Ok(d),
            _ => Err(Error::MissingInfo),
        },
        _ => Err(Error::MissingInfo),
    }
}

} // verus!
