//! A detached tree copy of the part of a document reachable from one object.
//!
//! [`PDFTree::new`] unfolds the object graph of a source document into a tree: the first
//! time the walk meets an object it embeds a copy of it, every later meeting becomes a
//! back reference, so shared objects are expanded once and cycles end. The name `Parent`
//! never leads upward: its value becomes `Null`. [`PDFTree::link_reference`] folds a tree
//! into a destination document, storing each embedded object under a fresh identity.
//!
//! A back reference names an identity of the source, which means nothing in the
//! destination. Folding therefore records, for each embedded subtree, the destination
//! identity given to its source identity before folding its contents, and a back
//! reference becomes a reference to that copy ([`lemma_back_references_resolve`] shows
//! that for a tree made by [`PDFTree::new`] the copy is always recorded in time). Streams
//! are copied verbatim, their dictionaries included.

use std::collections::{BTreeMap, BTreeSet};
use vstd::prelude::*;

use crate::errors::{Error, ErrorChainable};
use crate::object::{
    bytes_equal, copy_bytes, entries_view, objects_view, parent_key, parent_name, Dictionary, Document, Object,
    ObjectId, Stream, StringFormat, Value,
};

verus! {

/// The tree copy of an object graph.
#[derive(Debug)]
pub enum PDFTree {
    Null,
    Boolean(bool),
    Integer(i64),
    Real(u32),
    Name(Vec<u8>),
    String(Vec<u8>, StringFormat),
    Array(Vec<PDFTree>),
    Dictionary(PDFDictionary),
    /// A stream, copied verbatim.
    Stream(Stream),
    /// An object of the source met earlier in the same walk; it is not expanded again.
    Reference(ObjectId),
    /// An exclusively owned copy of the object of the source with the given identity,
    /// met here for the first time.
    SubTree(ObjectId, Box<PDFTree>),
}

/// The entries of a dictionary in a [`PDFTree`], in the order of the source.
#[derive(Debug)]
pub struct PDFDictionary {
    pub entries: Vec<(Vec<u8>, PDFTree)>,
}

/// The mathematical value of a [`PDFTree`].
pub enum Node {
    Null,
    Boolean(bool),
    Integer(i64),
    Real(u32),
    Name(Seq<u8>),
    String(Seq<u8>, StringFormat),
    Array(Seq<Node>),
    Dictionary(Seq<(Seq<u8>, Node)>),
    Stream(Seq<(Seq<u8>, Value)>, Seq<u8>, bool),
    Reference(ObjectId),
    SubTree(ObjectId, Box<Node>),
}

impl PDFTree {
    pub open spec fn view(&self) -> Node
        decreases self,
    {
        match self {
            PDFTree::Null => Node::Null,
            PDFTree::Boolean(b) => Node::Boolean(*b),
            PDFTree::Integer(i) => Node::Integer(*i),
            PDFTree::Real(r) => Node::Real(*r),
            PDFTree::Name(n) => Node::Name(n@),
            PDFTree::String(s, f) => Node::String(s@, *f),
            PDFTree::Array(v) => Node::Array(trees_view(v@)),
            PDFTree::Dictionary(d) => Node::Dictionary(tree_entries_view(d.entries@)),
            PDFTree::Stream(s) => Node::Stream(
                entries_view(s.dict.entries@),
                s.content@,
                s.allows_compression,
            ),
            PDFTree::Reference(id) => Node::Reference(*id),
            PDFTree::SubTree(id, t) => Node::SubTree(*id, Box::new(t.view())),
        }
    }
}

/// The values of a sequence of trees, element by element.
pub open spec fn trees_view(s: Seq<PDFTree>) -> Seq<Node>
    decreases s,
{
    if s.len() == 0 {
        Seq::empty()
    } else {
        trees_view(s.subrange(0, s.len() - 1)).push(s[s.len() - 1].view())
    }
}

/// The values of a sequence of tree dictionary entries, entry by entry.
pub open spec fn tree_entries_view(s: Seq<(Vec<u8>, PDFTree)>) -> Seq<(Seq<u8>, Node)>
    decreases s,
{
    if s.len() == 0 {
        Seq::empty()
    } else {
        tree_entries_view(s.subrange(0, s.len() - 1)).push(
            (s[s.len() - 1].0@, s[s.len() - 1].1.view()),
        )
    }
}

// ---------------------------------------------------------------------------------------
// Unfolding: the model.
//
// The walk is described over `avail`, the identities of the source that are stored and
// not yet expanded. Each function returns the tree and what is left of `avail`.
// ---------------------------------------------------------------------------------------

/// The tree that the walk makes of `o`, and the identities still unexpanded after it.
pub open spec fn unfold(objs: Map<ObjectId, Object>, avail: Set<ObjectId>, o: Object) -> (Node, Set<ObjectId>)
    decreases avail.len(), o, 0nat,
{
    match o {
        Object::Null => (Node::Null, avail),
        Object::Boolean(b) => (Node::Boolean(b), avail),
        Object::Integer(i) => (Node::Integer(i), avail),
        Object::Real(r) => (Node::Real(r), avail),
        Object::Name(n) => (Node::Name(n@), avail),
        Object::String(s, f) => (Node::String(s@, f), avail),
        Object::Array(v) => {
            let (ts, a) = unfold_all(objs, avail, v@);
            (Node::Array(ts), a)
        },
        Object::Dictionary(d) => {
            let (es, a) = unfold_entries(objs, avail, d.entries@);
            (Node::Dictionary(es), a)
        },
        Object::Stream(s) => (
            Node::Stream(entries_view(s.dict.entries@), s.content@, s.allows_compression),
            avail,
        ),
        Object::Reference(id) => {
            if avail.finite() && avail.contains(id) && objs.contains_key(id) {
                let (t, a) = unfold(objs, avail.remove(id), objs[id]);
                (Node::SubTree(id, Box::new(t)), a)
            } else if objs.contains_key(id) {
                (Node::Reference(id), avail)
            } else {
                (Node::Null, avail)
            }
        },
    }
}

/// `avail` after an earlier step, where that step left at most as many identities.
pub open spec fn shrunk(before: Set<ObjectId>, after: Set<ObjectId>) -> Set<ObjectId> {
    if after.finite() && after.len() <= before.len() {
        after
    } else {
        before
    }
}

/// The walk over a sequence of objects, from first to last.
pub open spec fn unfold_all(objs: Map<ObjectId, Object>, avail: Set<ObjectId>, vs: Seq<Object>) -> (Seq<Node>, Set<ObjectId>)
    decreases avail.len(), vs, 0nat,
{
    if vs.len() == 0 {
        (Seq::empty(), avail)
    } else {
        let (ts, a) = unfold_all(objs, avail, vs.subrange(0, vs.len() - 1));
        let (t, b) = unfold(objs, shrunk(avail, a), vs[vs.len() - 1]);
        (ts.push(t), b)
    }
}

/// The walk over the entries of a dictionary, from first to last; `Parent` becomes `Null`.
pub open spec fn unfold_entries(objs: Map<ObjectId, Object>, avail: Set<ObjectId>, es: Seq<(Vec<u8>, Object)>) -> (Seq<(Seq<u8>, Node)>, Set<ObjectId>)
    decreases avail.len(), es, 0nat,
{
    if es.len() == 0 {
        (Seq::empty(), avail)
    } else {
        let (ts, a) = unfold_entries(objs, avail, es.subrange(0, es.len() - 1));
        let e = es[es.len() - 1];
        if e.0@ == parent_key() {
            (ts.push((e.0@, Node::Null)), a)
        } else {
            let (t, b) = unfold(objs, shrunk(avail, a), e.1);
            (ts.push((e.0@, t)), b)
        }
    }
}

} // verus!

verus! {

/// The identities of the source that are stored and not in `seen`.
pub open spec fn unexpanded(doc: &Document, seen: Set<ObjectId>) -> Set<ObjectId> {
    doc.objects@.dom().difference(seen)
}

impl PDFTree {
    /// The tree of everything reachable from the object `oid` of `doc`.
    ///
    /// Fails with [`Error::MissingPage`] exactly when `doc` holds no object `oid`.
    pub fn new(oid: ObjectId, doc: &Document) -> (r: Result<PDFTree, Error>)
        ensures
            r is Err <==> !doc.objects@.contains_key(oid),
            r is Err ==> r->Err_0 == Error::MissingPage,
            r is Ok ==> r->Ok_0@ == Node::SubTree(
                oid,
                Box::new(unfold(doc.objects@, doc.objects@.dom().remove(oid), doc.objects@[oid]).0),
            ),
    {
        let o = doc.get_object(oid).error(Error::MissingPage)?;
        let mut seen: BTreeSet<ObjectId> = BTreeSet::new();
        seen.insert(oid);
        assert(unexpanded(doc, seen@) =~= doc.objects@.dom().remove(oid));
        let t = PDFTree::unfold(doc, &mut seen, o);
        Ok(PDFTree::SubTree(oid, Box::new(t)))
    }

    /// Unfolds `o`. Each referenced identity not yet in `seen` is added there and, where
    /// it is stored, expanded; a reference to an identity that is not stored becomes `Null`.
    fn unfold(doc: &Document, seen: &mut BTreeSet<ObjectId>, o: &Object) -> (r: PDFTree)
        ensures
            old(seen)@.subset_of(final(seen)@),
            o matches Object::Reference(id) ==> final(seen)@.contains(*id),
            (r@, unexpanded(doc, final(seen)@)) == unfold(
                doc.objects@,
                unexpanded(doc, old(seen)@),
                *o,
            ),
        decreases unexpanded(doc, old(seen)@).len(), o,
    {
        let ghost objs = doc.objects@;
        let ghost avail0 = unexpanded(doc, seen@);
        match o {
            Object::Null => PDFTree::Null,
            Object::Boolean(b) => PDFTree::Boolean(*b),
            Object::Integer(i) => PDFTree::Integer(*i),
            Object::Real(x) => PDFTree::Real(*x),
            Object::Name(n) => PDFTree::Name(copy_bytes(n)),
            Object::String(t, f) => PDFTree::String(copy_bytes(t), *f),
            Object::Array(v) => {
                let ghost seen0 = seen@;
                let mut ts: Vec<PDFTree> = Vec::with_capacity(v.len());
                let mut i: usize = 0;
                while i < v.len()
                    invariant
                        0 <= i <= v@.len(),
                        *o == Object::Array(*v),
                        objs == doc.objects@,
                        avail0 == unexpanded(doc, seen0),
                        avail0 == unexpanded(doc, old(seen)@),
                        seen0.subset_of(seen@),
                        (trees_view(ts@), unexpanded(doc, seen@)) == unfold_all(
                            objs,
                            avail0,
                            v@.subrange(0, i as int),
                        ),
                    decreases v@.len() - i,
                {
                    let ghost a = unexpanded(doc, seen@);
                    proof {
                        vstd::set_lib::lemma_len_subset(a, avail0);
                        assert(v@.subrange(0, i + 1).subrange(0, i as int) =~= v@.subrange(0, i as int));
                        assert(decreases_to!(o => o->Array_0));
                        assert(decreases_to!(v => v@));
                    }
                    let t = PDFTree::unfold(doc, seen, &v[i]);
                    let ghost before = ts@;
                    ts.push(t);
                    assert(ts@.subrange(0, ts@.len() - 1) =~= before);
                    i = i + 1;
                }
                assert(v@.subrange(0, v@.len() as int) =~= v@);
                PDFTree::Array(ts)
            },
            Object::Dictionary(d) => PDFTree::Dictionary(PDFDictionary::new(doc, seen, d)),
            Object::Stream(s) => PDFTree::Stream(
                Stream {
                    dict: s.dict.deep_copy(),
                    content: copy_bytes(&s.content),
                    allows_compression: s.allows_compression,
                },
            ),
            Object::Reference(id) => {
                if seen.contains(id) {
                    if doc.objects.contains_key(id) {
                        PDFTree::Reference(*id)
                    } else {
                        PDFTree::Null
                    }
                } else {
                    seen.insert(*id);
                    match doc.get_object(*id) {
                        Some(x) => {
                            assert(unexpanded(doc, seen@) =~= avail0.remove(*id));
                            let t = PDFTree::unfold(doc, seen, x);
                            PDFTree::SubTree(*id, Box::new(t))
                        },
                        None => {
                            assert(unexpanded(doc, seen@) =~= avail0);
                            PDFTree::Null
                        },
                    }
                }
            },
        }
    }
}

impl PDFDictionary {
    /// Unfolds the entries of `d` in order; the value under `Parent` becomes `Null`.
    fn new(doc: &Document, seen: &mut BTreeSet<ObjectId>, d: &Dictionary) -> (r: PDFDictionary)
        ensures
            old(seen)@.subset_of(final(seen)@),
            (tree_entries_view(r.entries@), unexpanded(doc, final(seen)@)) == unfold_entries(
                doc.objects@,
                unexpanded(doc, old(seen)@),
                d.entries@,
            ),
        decreases unexpanded(doc, old(seen)@).len(), d.entries@, 1nat,
    {
        let ghost objs = doc.objects@;
        let ghost seen0 = seen@;
        let ghost avail0 = unexpanded(doc, seen@);
        let parent = parent_name();
        let mut es: Vec<(Vec<u8>, PDFTree)> = Vec::with_capacity(d.entries.len());
        let mut i: usize = 0;
        while i < d.entries.len()
            invariant
                0 <= i <= d.entries@.len(),
                parent@ == parent_key(),
                objs == doc.objects@,
                avail0 == unexpanded(doc, seen0),
                avail0 == unexpanded(doc, old(seen)@),
                seen0.subset_of(seen@),
                (tree_entries_view(es@), unexpanded(doc, seen@)) == unfold_entries(
                    objs,
                    avail0,
                    d.entries@.subrange(0, i as int),
                ),
            decreases d.entries@.len() - i,
        {
            let ghost a = unexpanded(doc, seen@);
            proof {
                vstd::set_lib::lemma_len_subset(a, avail0);
                assert(d.entries@.subrange(0, i + 1).subrange(0, i as int) =~= d.entries@.subrange(
                    0,
                    i as int,
                ));
                assert(decreases_to!(d.entries => d.entries@));
                assert(decreases_to!(d.entries@ => d.entries@[i as int]));
                assert(decreases_to!(d.entries@[i as int] => d.entries@[i as int].1));
            }
            let key = copy_bytes(&d.entries[i].0);
            let is_parent = bytes_equal(key.as_slice(), parent.as_slice());
            assert(is_parent == (d.entries@.subrange(0, i + 1)[i as int].0@ == parent_key()));
            let value = if is_parent {
                PDFTree::Null
            } else {
                PDFTree::unfold(doc, seen, &d.entries[i].1)
            };
            let ghost before = es@;
            es.push((key, value));
            assert(es@.subrange(0, es@.len() - 1) =~= before);
            i = i + 1;
        }
        assert(d.entries@.subrange(0, d.entries@.len() as int) =~= d.entries@);
        PDFDictionary { entries: es }
    }
}

} // verus!

verus! {

// ---------------------------------------------------------------------------------------
// Folding: the model.
//
// Identities are allocated in the order the walk meets embedded subtrees, before their
// contents are folded, and each is recorded against the source identity it copies, so
// that a back reference met later resolves to the copy in the destination.
// ---------------------------------------------------------------------------------------

/// The state of a fold: the destination's objects as values, its highest object number,
/// and the destination identity given to each source identity embedded so far.
pub struct Store {
    pub objects: Map<ObjectId, Value>,
    pub max_id: int,
    pub renamed: Map<ObjectId, ObjectId>,
}

/// The objects of `doc` as values.
pub open spec fn values_of(doc: &Document) -> Map<ObjectId, Value> {
    doc.objects@.map_values(|o: Object| o@)
}

/// The state made of `doc` and the renaming `ren`.
pub open spec fn store_of(doc: &Document, ren: Map<ObjectId, ObjectId>) -> Store {
    Store { objects: values_of(doc), max_id: doc.max_id as int, renamed: ren }
}

/// The number of embedded subtrees of `t`: how many objects folding it stores.
pub open spec fn subtrees(t: Node) -> nat
    decreases t, 0nat,
{
    match t {
        Node::Array(ts) => subtrees_all(ts),
        Node::Dictionary(es) => subtrees_entries(es),
        Node::SubTree(_, b) => 1 + subtrees(*b),
        _ => 0,
    }
}

/// The number of embedded subtrees of a sequence of trees.
pub open spec fn subtrees_all(ts: Seq<Node>) -> nat
    decreases ts, 0nat,
{
    if ts.len() == 0 {
        0
    } else {
        subtrees_all(ts.subrange(0, ts.len() - 1)) + subtrees(ts[ts.len() - 1])
    }
}

/// The number of embedded subtrees of a sequence of tree dictionary entries.
pub open spec fn subtrees_entries(es: Seq<(Seq<u8>, Node)>) -> nat
    decreases es, 0nat,
{
    if es.len() == 0 {
        0
    } else {
        subtrees_entries(es.subrange(0, es.len() - 1)) + subtrees(es[es.len() - 1].1)
    }
}

/// The value that folding `t` into `st` yields, and the state after it.
///
/// Scalars and streams stay as they are. An embedded subtree is stored under the next
/// fresh identity and replaced by a reference to it. A back reference becomes a reference
/// to the copy of its target, or `Null` where no copy of the target has been made.
pub open spec fn fold(t: Node, st: Store) -> (Value, Store)
    decreases t, 0nat,
{
    match t {
        Node::Null => (Value::Null, st),
        Node::Boolean(b) => (Value::Boolean(b), st),
        Node::Integer(i) => (Value::Integer(i), st),
        Node::Real(r) => (Value::Real(r), st),
        Node::Name(n) => (Value::Name(n), st),
        Node::String(s, f) => (Value::String(s, f), st),
        Node::Array(ts) => {
            let (vs, s) = fold_all(ts, st);
            (Value::Array(vs), s)
        },
        Node::Dictionary(es) => {
            let (vs, s) = fold_entries(es, st);
            (Value::Dictionary(vs), s)
        },
        Node::Stream(d, c, a) => (Value::Stream(d, c, a), st),
        Node::Reference(id) => {
            if st.renamed.contains_key(id) {
                (Value::Reference(st.renamed[id]), st)
            } else {
                (Value::Null, st)
            }
        },
        Node::SubTree(src, b) => {
            let (id, s) = link_as(Some(src), *b, st);
            (Value::Reference(id), s)
        },
    }
}

/// Reserves the next fresh identity, records it against `src` if there is one, folds `t`,
/// and stores the result under that identity.
pub open spec fn link_as(src: Option<ObjectId>, t: Node, st: Store) -> (ObjectId, Store)
    decreases t, 1nat,
{
    let id: ObjectId = ((st.max_id + 1) as u32, 0u16);
    let reserved = Store {
        objects: st.objects,
        max_id: st.max_id + 1,
        renamed: match src {
            Some(s) => st.renamed.insert(s, id),
            None => st.renamed,
        },
    };
    let (v, s) = fold(t, reserved);
    (id, Store { objects: s.objects.insert(id, v), max_id: s.max_id, renamed: s.renamed })
}

/// The identity of the root of `t` after it is folded into `st`, and the state after it.
pub open spec fn link(t: Node, st: Store) -> (ObjectId, Store) {
    match t {
        Node::SubTree(src, b) => link_as(Some(src), *b, st),
        _ => link_as(None, t, st),
    }
}

/// Folds a sequence of trees from first to last.
pub open spec fn fold_all(ts: Seq<Node>, st: Store) -> (Seq<Value>, Store)
    decreases ts, 0nat,
{
    if ts.len() == 0 {
        (Seq::empty(), st)
    } else {
        let (vs, s) = fold_all(ts.subrange(0, ts.len() - 1), st);
        let (v, s2) = fold(ts[ts.len() - 1], s);
        (vs.push(v), s2)
    }
}

/// Folds the values of a sequence of dictionary entries from first to last.
pub open spec fn fold_entries(es: Seq<(Seq<u8>, Node)>, st: Store) -> (Seq<(Seq<u8>, Value)>, Store)
    decreases es, 0nat,
{
    if es.len() == 0 {
        (Seq::empty(), st)
    } else {
        let (vs, s) = fold_entries(es.subrange(0, es.len() - 1), st);
        let e = es[es.len() - 1];
        let (v, s2) = fold(e.1, s);
        (vs.push((e.0, v)), s2)
    }
}

proof fn lemma_trees_view_len(s: Seq<PDFTree>)
    ensures
        trees_view(s).len() == s.len(),
    decreases s.len(),
{
    if s.len() > 0 {
        lemma_trees_view_len(s.subrange(0, s.len() - 1));
    }
}

proof fn lemma_trees_view_index(s: Seq<PDFTree>, i: int)
    requires
        0 <= i < s.len(),
    ensures
        trees_view(s)[i] == s[i]@,
    decreases s.len(),
{
    lemma_trees_view_len(s);
    if i < s.len() - 1 {
        let p = s.subrange(0, s.len() - 1);
        lemma_trees_view_len(p);
        lemma_trees_view_index(p, i);
    }
}

proof fn lemma_tree_entries_view_len(s: Seq<(Vec<u8>, PDFTree)>)
    ensures
        tree_entries_view(s).len() == s.len(),
    decreases s.len(),
{
    if s.len() > 0 {
        lemma_tree_entries_view_len(s.subrange(0, s.len() - 1));
    }
}

proof fn lemma_tree_entries_view_index(s: Seq<(Vec<u8>, PDFTree)>, i: int)
    requires
        0 <= i < s.len(),
    ensures
        tree_entries_view(s)[i] == (s[i].0@, s[i].1@),
    decreases s.len(),
{
    lemma_tree_entries_view_len(s);
    if i < s.len() - 1 {
        let p = s.subrange(0, s.len() - 1);
        lemma_tree_entries_view_len(p);
        lemma_tree_entries_view_index(p, i);
    }
}

proof fn lemma_subtrees_all_prefix(ts: Seq<Node>, i: int)
    requires
        0 <= i <= ts.len(),
    ensures
        subtrees_all(ts.subrange(0, i)) <= subtrees_all(ts),
    decreases ts.len() - i,
{
    if i < ts.len() {
        lemma_subtrees_all_prefix(ts, i + 1);
        assert(ts.subrange(0, i + 1).subrange(0, i) =~= ts.subrange(0, i));
    } else {
        assert(ts.subrange(0, i) =~= ts);
    }
}

proof fn lemma_subtrees_entries_prefix(es: Seq<(Seq<u8>, Node)>, i: int)
    requires
        0 <= i <= es.len(),
    ensures
        subtrees_entries(es.subrange(0, i)) <= subtrees_entries(es),
    decreases es.len() - i,
{
    if i < es.len() {
        lemma_subtrees_entries_prefix(es, i + 1);
        assert(es.subrange(0, i + 1).subrange(0, i) =~= es.subrange(0, i));
    } else {
        assert(es.subrange(0, i) =~= es);
    }
}

impl PDFTree {
    /// Folds this tree into `doc` and returns the identity under which its root is stored.
    ///
    /// Each embedded subtree, the root included when it is one, is stored under a fresh
    /// identity; back references resolve to the copies made of their targets.
    pub fn link_reference(&self, doc: &mut Document) -> (id: ObjectId)
        requires
            old(doc).wf(),
            old(doc).max_id + subtrees(self@) < u32::MAX,
        ensures
            final(doc).wf(),
            final(doc).trailer == old(doc).trailer,
            old(doc).max_id < final(doc).max_id <= old(doc).max_id + subtrees(self@) + 1,
            (id, store_of(final(doc), link(self@, store_of(old(doc), Map::empty())).1.renamed))
                == link(self@, store_of(old(doc), Map::empty())),
    {
        let mut ren: BTreeMap<ObjectId, ObjectId> = BTreeMap::new();
        assert(ren@ =~= Map::<ObjectId, ObjectId>::empty());
        match self {
            PDFTree::SubTree(src, t) => t.link_as(Some(*src), doc, &mut ren),
            _ => self.link_as(None, doc, &mut ren),
        }
    }

    /// Reserves a fresh identity for this tree, records it against `src`, folds the tree
    /// and stores the result there.
    fn link_as(
        &self,
        src: Option<ObjectId>,
        doc: &mut Document,
        ren: &mut BTreeMap<ObjectId, ObjectId>,
    ) -> (id: ObjectId)
        requires
            old(doc).wf(),
            old(doc).max_id + subtrees(self@) < u32::MAX,
        ensures
            final(doc).wf(),
            final(doc).trailer == old(doc).trailer,
            final(doc).max_id == old(doc).max_id + subtrees(self@) + 1,
            (id, store_of(final(doc), final(ren)@)) == link_as(
                src,
                self@,
                store_of(old(doc), old(ren)@),
            ),
        decreases self, 1nat,
    {
        let id = doc.new_object_id();
        match src {
            Some(s) => {
                ren.insert(s, id);
            },
            None => {},
        }
        let v = self.fold(doc, ren);
        let ghost before = doc.objects@;
        let ghost value = v@;
        doc.objects.insert(id, v);
        assert(values_of(doc) =~= before.map_values(|o: Object| o@).insert(id, value));
        id
    }

    /// Folds this tree into `doc`, returning the object that stands for its root.
    fn fold(&self, doc: &mut Document, ren: &mut BTreeMap<ObjectId, ObjectId>) -> (r: Object)
        requires
            old(doc).wf(),
            old(doc).max_id + subtrees(self@) <= u32::MAX,
        ensures
            final(doc).wf(),
            final(doc).trailer == old(doc).trailer,
            final(doc).max_id == old(doc).max_id + subtrees(self@),
            (r@, store_of(final(doc), final(ren)@)) == fold(self@, store_of(old(doc), old(ren)@)),
        decreases self, 0nat,
    {
        match self {
            PDFTree::Null => Object::Null,
            PDFTree::Boolean(b) => Object::Boolean(*b),
            PDFTree::Integer(i) => Object::Integer(*i),
            PDFTree::Real(x) => Object::Real(*x),
            PDFTree::Name(n) => Object::Name(copy_bytes(n)),
            PDFTree::String(t, f) => Object::String(copy_bytes(t), *f),
            PDFTree::Array(ts) => {
                let ghost st0 = store_of(doc, ren@);
                let ghost m0 = doc.max_id;
                proof {
                    lemma_trees_view_len(ts@);
                    assert(ts@.subrange(0, 0) =~= Seq::<PDFTree>::empty());
                    assert(trees_view(ts@).subrange(0, 0) =~= Seq::<Node>::empty());
                }
                let mut vs: Vec<Object> = Vec::with_capacity(ts.len());
                let mut i: usize = 0;
                while i < ts.len()
                    invariant
                        0 <= i <= ts@.len(),
                        *self == PDFTree::Array(*ts),
                        doc.wf(),
                        doc.trailer == old(doc).trailer,
                        st0 == store_of(old(doc), old(ren)@),
                        m0 == old(doc).max_id,
                        m0 + subtrees_all(trees_view(ts@)) <= u32::MAX,
                        trees_view(ts@).len() == ts@.len(),
                        doc.max_id == m0 + subtrees_all(trees_view(ts@).subrange(0, i as int)),
                        (objects_view(vs@), store_of(doc, ren@)) == fold_all(
                            trees_view(ts@).subrange(0, i as int),
                            st0,
                        ),
                    decreases ts@.len() - i,
                {
                    proof {
                        let tv = trees_view(ts@);
                        assert(tv.subrange(0, i + 1).subrange(0, i as int) =~= tv.subrange(0, i as int));
                        lemma_trees_view_index(ts@, i as int);
                        lemma_subtrees_all_prefix(tv, i + 1);
                        assert(decreases_to!(self => self->Array_0));
                        assert(decreases_to!(ts => ts@));
                    }
                    let v = ts[i].fold(doc, ren);
                    let ghost before = vs@;
                    vs.push(v);
                    assert(vs@.subrange(0, vs@.len() - 1) =~= before);
                    i = i + 1;
                }
                assert(trees_view(ts@).subrange(0, ts@.len() as int) =~= trees_view(ts@));
                Object::Array(vs)
            },
            PDFTree::Dictionary(d) => Object::Dictionary(d.fold(doc, ren)),
            PDFTree::Stream(s) => Object::Stream(
                Stream {
                    dict: s.dict.deep_copy(),
                    content: copy_bytes(&s.content),
                    allows_compression: s.allows_compression,
                },
            ),
            PDFTree::Reference(id) => {
                match ren.get(id) {
                    Some(target) => Object::Reference(*target),
                    None => Object::Null,
                }
            },
            PDFTree::SubTree(src, t) => {
                let id = t.link_as(Some(*src), doc, ren);
                Object::Reference(id)
            },
        }
    }
}

impl PDFDictionary {
    /// Folds the values of this dictionary into `doc`, keeping the order of the entries.
    fn fold(&self, doc: &mut Document, ren: &mut BTreeMap<ObjectId, ObjectId>) -> (r: Dictionary)
        requires
            old(doc).wf(),
            old(doc).max_id + subtrees_entries(tree_entries_view(self.entries@)) <= u32::MAX,
        ensures
            final(doc).wf(),
            final(doc).trailer == old(doc).trailer,
            final(doc).max_id == old(doc).max_id + subtrees_entries(tree_entries_view(self.entries@)),
            (entries_view(r.entries@), store_of(final(doc), final(ren)@)) == fold_entries(
                tree_entries_view(self.entries@),
                store_of(old(doc), old(ren)@),
            ),
        decreases self, 0nat,
    {
        let ghost st0 = store_of(doc, ren@);
        let ghost m0 = doc.max_id;
        let ghost tv = tree_entries_view(self.entries@);
        proof {
            lemma_tree_entries_view_len(self.entries@);
            assert(tv.subrange(0, 0) =~= Seq::<(Seq<u8>, Node)>::empty());
        }
        let mut es: Vec<(Vec<u8>, Object)> = Vec::with_capacity(self.entries.len());
        let mut i: usize = 0;
        while i < self.entries.len()
            invariant
                0 <= i <= self.entries@.len(),
                tv == tree_entries_view(self.entries@),
                tv.len() == self.entries@.len(),
                doc.wf(),
                doc.trailer == old(doc).trailer,
                st0 == store_of(old(doc), old(ren)@),
                m0 == old(doc).max_id,
                m0 + subtrees_entries(tv) <= u32::MAX,
                doc.max_id == m0 + subtrees_entries(tv.subrange(0, i as int)),
                (entries_view(es@), store_of(doc, ren@)) == fold_entries(
                    tv.subrange(0, i as int),
                    st0,
                ),
            decreases self.entries@.len() - i,
        {
            proof {
                assert(tv.subrange(0, i + 1).subrange(0, i as int) =~= tv.subrange(0, i as int));
                lemma_tree_entries_view_index(self.entries@, i as int);
                lemma_subtrees_entries_prefix(tv, i + 1);
                assert(decreases_to!(self => self.entries));
                assert(decreases_to!(self.entries => self.entries@));
                assert(decreases_to!(self.entries@ => self.entries@[i as int]));
                assert(decreases_to!(self.entries@[i as int] => self.entries@[i as int].1));
            }
            let k = copy_bytes(&self.entries[i].0);
            let v = self.entries[i].1.fold(doc, ren);
            let ghost before = es@;
            es.push((k, v));
            assert(es@.subrange(0, es@.len() - 1) =~= before);
            i = i + 1;
        }
        assert(tv.subrange(0, self.entries@.len() as int) =~= tv);
        Dictionary { entries: es }
    }
}

} // verus!

verus! {

/// The walk expands each identity at most once: what is left of `avail` shrinks, and the
/// tree embeds no more subtrees than `avail` lost.
pub proof fn lemma_unfold_bound(objs: Map<ObjectId, Object>, avail: Set<ObjectId>, o: Object)
    requires
        avail.finite(),
    ensures
        unfold(objs, avail, o).1.subset_of(avail),
        subtrees(unfold(objs, avail, o).0) + unfold(objs, avail, o).1.len() <= avail.len(),
    decreases avail.len(), o, 0nat,
{
    match o {
        Object::Array(v) => {
            lemma_unfold_all_bound(objs, avail, v@);
        },
        Object::Dictionary(d) => {
            lemma_unfold_entries_bound(objs, avail, d.entries@);
        },
        Object::Reference(id) => {
            if avail.contains(id) && objs.contains_key(id) {
                lemma_unfold_bound(objs, avail.remove(id), objs[id]);
            }
        },
        _ => {},
    }
}

proof fn lemma_unfold_all_bound(objs: Map<ObjectId, Object>, avail: Set<ObjectId>, vs: Seq<Object>)
    requires
        avail.finite(),
    ensures
        unfold_all(objs, avail, vs).1.subset_of(avail),
        subtrees_all(unfold_all(objs, avail, vs).0) + unfold_all(objs, avail, vs).1.len()
            <= avail.len(),
    decreases avail.len(), vs, 0nat,
{
    if vs.len() > 0 {
        let p = vs.subrange(0, vs.len() - 1);
        lemma_unfold_all_bound(objs, avail, p);
        let (ts, a) = unfold_all(objs, avail, p);
        vstd::set_lib::lemma_len_subset(a, avail);
        assert(shrunk(avail, a) == a);
        lemma_unfold_bound(objs, a, vs[vs.len() - 1]);
        let (t, b) = unfold(objs, a, vs[vs.len() - 1]);
        assert(ts.push(t).subrange(0, ts.len() as int) =~= ts);
    }
}

proof fn lemma_unfold_entries_bound(
    objs: Map<ObjectId, Object>,
    avail: Set<ObjectId>,
    es: Seq<(Vec<u8>, Object)>,
)
    requires
        avail.finite(),
    ensures
        unfold_entries(objs, avail, es).1.subset_of(avail),
        subtrees_entries(unfold_entries(objs, avail, es).0) + unfold_entries(objs, avail, es).1.len()
            <= avail.len(),
    decreases avail.len(), es, 0nat,
{
    if es.len() > 0 {
        let p = es.subrange(0, es.len() - 1);
        lemma_unfold_entries_bound(objs, avail, p);
        let (ts, a) = unfold_entries(objs, avail, p);
        vstd::set_lib::lemma_len_subset(a, avail);
        assert(shrunk(avail, a) == a);
        let e = es[es.len() - 1];
        if e.0@ == parent_key() {
            let q = ts.push((e.0@, Node::Null));
            assert(q.subrange(0, ts.len() as int) =~= ts);
            assert(subtrees_entries(q) == subtrees_entries(ts) + subtrees(q[ts.len() as int].1));
        } else {
            lemma_unfold_bound(objs, a, e.1);
            let (t, b) = unfold(objs, a, e.1);
            let q = ts.push((e.0@, t));
            assert(q.subrange(0, ts.len() as int) =~= ts);
            assert(subtrees_entries(q) == subtrees_entries(ts) + subtrees(q[ts.len() as int].1));
        }
    }
}

} // verus!

verus! {

/// The names of a sequence of entries, in order.
pub open spec fn keys<X>(es: Seq<(Seq<u8>, X)>) -> Seq<Seq<u8>> {
    es.map_values(|e: (Seq<u8>, X)| e.0)
}

/// The names of a sequence of dictionary entries of objects, in order.
pub open spec fn object_keys(es: Seq<(Vec<u8>, Object)>) -> Seq<Seq<u8>> {
    es.map_values(|e: (Vec<u8>, Object)| e.0@)
}

proof fn lemma_unfold_entries_keys(
    objs: Map<ObjectId, Object>,
    avail: Set<ObjectId>,
    es: Seq<(Vec<u8>, Object)>,
)
    ensures
        keys(unfold_entries(objs, avail, es).0) == object_keys(es),
    decreases es.len(),
{
    if es.len() > 0 {
        let p = es.subrange(0, es.len() - 1);
        lemma_unfold_entries_keys(objs, avail, p);
        let ts = unfold_entries(objs, avail, p).0;
        let r = unfold_entries(objs, avail, es).0;
        assert(r.subrange(0, ts.len() as int) =~= ts);
        assert(keys(ts).len() == object_keys(p).len());
        assert(r.len() == ts.len() + 1);
        assert(r[ts.len() as int].0 == es[es.len() - 1].0@);
        assert(keys(r) =~= object_keys(es)) by {
            assert forall|i: int| 0 <= i < r.len() implies #[trigger] keys(r)[i] == object_keys(es)[i] by {
                if i < ts.len() {
                    assert(keys(ts)[i] == object_keys(p)[i]);
                    assert(r[i] == ts[i]);
                    assert(es[i] == p[i]);
                }
            }
        }
    }
}

proof fn lemma_fold_entries_keys(ts: Seq<(Seq<u8>, Node)>, st: Store)
    ensures
        keys(fold_entries(ts, st).0) == keys(ts),
    decreases ts.len(),
{
    if ts.len() > 0 {
        let p = ts.subrange(0, ts.len() - 1);
        lemma_fold_entries_keys(p, st);
        let vs = fold_entries(p, st).0;
        let r = fold_entries(ts, st).0;
        assert(keys(vs).len() == keys(p).len());
        assert(r.len() == vs.len() + 1);
        assert(keys(r) =~= keys(ts)) by {
            assert forall|i: int| 0 <= i < r.len() implies #[trigger] keys(r)[i] == keys(ts)[i] by {
                if i < vs.len() {
                    assert(keys(vs)[i] == keys(p)[i]);
                    assert(r[i] == vs[i]);
                    assert(ts[i] == p[i]);
                }
            }
        }
    }
}

/// A dictionary copied into a tree and materialized again keeps its names, in their
/// source order.
pub proof fn lemma_dictionary_key_order(
    objs: Map<ObjectId, Object>,
    avail: Set<ObjectId>,
    es: Seq<(Vec<u8>, Object)>,
    st: Store,
)
    ensures
        keys(fold_entries(unfold_entries(objs, avail, es).0, st).0) == object_keys(es),
{
    lemma_unfold_entries_keys(objs, avail, es);
    lemma_fold_entries_keys(unfold_entries(objs, avail, es).0, st);
}

/// Folding a tree allocates one identity per embedded subtree.
pub proof fn lemma_fold_max_id(t: Node, st: Store)
    ensures
        fold(t, st).1.max_id == st.max_id + subtrees(t),
    decreases t, 0nat,
{
    match t {
        Node::Array(ts) => lemma_fold_all_max_id(ts, st),
        Node::Dictionary(es) => lemma_fold_entries_max_id(es, st),
        Node::SubTree(src, b) => {
            let id: ObjectId = ((st.max_id + 1) as u32, 0u16);
            let reserved = Store {
                objects: st.objects,
                max_id: st.max_id + 1,
                renamed: st.renamed.insert(src, id),
            };
            lemma_fold_max_id(*b, reserved);
        },
        _ => {},
    }
}

proof fn lemma_fold_all_max_id(ts: Seq<Node>, st: Store)
    ensures
        fold_all(ts, st).1.max_id == st.max_id + subtrees_all(ts),
    decreases ts, 0nat,
{
    if ts.len() > 0 {
        let p = ts.subrange(0, ts.len() - 1);
        lemma_fold_all_max_id(p, st);
        lemma_fold_max_id(ts[ts.len() - 1], fold_all(p, st).1);
    }
}

proof fn lemma_fold_entries_max_id(es: Seq<(Seq<u8>, Node)>, st: Store)
    ensures
        fold_entries(es, st).1.max_id == st.max_id + subtrees_entries(es),
    decreases es, 0nat,
{
    if es.len() > 0 {
        let p = es.subrange(0, es.len() - 1);
        lemma_fold_entries_max_id(p, st);
        lemma_fold_max_id(es[es.len() - 1].1, fold_entries(p, st).1);
    }
}

} // verus!

verus! {

/// A stream object met for the first time by the walk is stored in the destination under
/// the next fresh identity exactly as it is in the source: same dictionary, same bytes.
pub proof fn lemma_stream_copied_verbatim(
    objs: Map<ObjectId, Object>,
    avail: Set<ObjectId>,
    id: ObjectId,
    st: Store,
)
    requires
        avail.finite(),
        avail.contains(id),
        objs.contains_key(id),
        objs[id] is Stream,
    ensures
        ({
            let fresh: ObjectId = ((st.max_id + 1) as u32, 0u16);
            let (v, s) = fold(unfold(objs, avail, Object::Reference(id)).0, st);
            v == Value::Reference(fresh) && s.objects[fresh] == objs[id]@
        }),
{
    let o = objs[id];
    let inner = unfold(objs, avail.remove(id), o).0;
    assert(inner == Node::Stream(
        entries_view(o->Stream_0.dict.entries@),
        o->Stream_0.content@,
        o->Stream_0.allows_compression,
    ));
    assert(unfold(objs, avail, Object::Reference(id)).0 == Node::SubTree(id, Box::new(inner)));
    let fresh: ObjectId = ((st.max_id + 1) as u32, 0u16);
    let reserved = Store {
        objects: st.objects,
        max_id: st.max_id + 1,
        renamed: st.renamed.insert(id, fresh),
    };
    assert(fold(inner, reserved).0 == o@);
    assert(link_as(Some(id), inner, st).1.objects[fresh] == o@);
}

} // verus!

verus! {

/// Walks `t` in order, starting from the identities `known`, each embedded subtree making
/// its source identity known before its contents are walked: whether every back reference
/// names a known identity when it is met, and the identities known at the end.
pub open spec fn refs_known(t: Node, known: Set<ObjectId>) -> (bool, Set<ObjectId>)
    decreases t, 0nat,
{
    match t {
        Node::Array(ts) => refs_known_all(ts, known),
        Node::Dictionary(es) => refs_known_entries(es, known),
        Node::Reference(id) => (known.contains(id), known),
        Node::SubTree(src, b) => refs_known(*b, known.insert(src)),
        _ => (true, known),
    }
}

/// [`refs_known`] over a sequence of trees, from first to last.
pub open spec fn refs_known_all(ts: Seq<Node>, known: Set<ObjectId>) -> (bool, Set<ObjectId>)
    decreases ts, 0nat,
{
    if ts.len() == 0 {
        (true, known)
    } else {
        let (ok, k) = refs_known_all(ts.subrange(0, ts.len() - 1), known);
        let (ok2, k2) = refs_known(ts[ts.len() - 1], k);
        (ok && ok2, k2)
    }
}

/// [`refs_known`] over the values of a sequence of dictionary entries, from first to last.
pub open spec fn refs_known_entries(es: Seq<(Seq<u8>, Node)>, known: Set<ObjectId>) -> (bool, Set<ObjectId>)
    decreases es, 0nat,
{
    if es.len() == 0 {
        (true, known)
    } else {
        let (ok, k) = refs_known_entries(es.subrange(0, es.len() - 1), known);
        let (ok2, k2) = refs_known(es[es.len() - 1].1, k);
        (ok && ok2, k2)
    }
}

/// Every back reference that the walk emits names an identity expanded before it: one
/// that was already expanded at the start (in `known`) or one embedded earlier.
proof fn lemma_unfold_refs_known(
    objs: Map<ObjectId, Object>,
    avail: Set<ObjectId>,
    o: Object,
    known: Set<ObjectId>,
)
    requires
        avail.finite(),
        objs.dom().difference(avail).subset_of(known),
    ensures
        refs_known(unfold(objs, avail, o).0, known).0,
        objs.dom().difference(unfold(objs, avail, o).1).subset_of(
            refs_known(unfold(objs, avail, o).0, known).1,
        ),
    decreases avail.len(), o, 0nat,
{
    match o {
        Object::Array(v) => {
            lemma_unfold_all_refs_known(objs, avail, v@, known);
        },
        Object::Dictionary(d) => {
            lemma_unfold_entries_refs_known(objs, avail, d.entries@, known);
        },
        Object::Reference(id) => {
            if avail.contains(id) && objs.contains_key(id) {
                assert(objs.dom().difference(avail.remove(id)).subset_of(known.insert(id)));
                lemma_unfold_refs_known(objs, avail.remove(id), objs[id], known.insert(id));
            } else if objs.contains_key(id) {
                assert(objs.dom().difference(avail).contains(id));
            }
        },
        _ => {},
    }
}

proof fn lemma_unfold_all_refs_known(
    objs: Map<ObjectId, Object>,
    avail: Set<ObjectId>,
    vs: Seq<Object>,
    known: Set<ObjectId>,
)
    requires
        avail.finite(),
        objs.dom().difference(avail).subset_of(known),
    ensures
        refs_known_all(unfold_all(objs, avail, vs).0, known).0,
        objs.dom().difference(unfold_all(objs, avail, vs).1).subset_of(
            refs_known_all(unfold_all(objs, avail, vs).0, known).1,
        ),
    decreases avail.len(), vs, 0nat,
{
    if vs.len() > 0 {
        let p = vs.subrange(0, vs.len() - 1);
        lemma_unfold_all_refs_known(objs, avail, p, known);
        lemma_unfold_all_bound(objs, avail, p);
        let (ts, a) = unfold_all(objs, avail, p);
        vstd::set_lib::lemma_len_subset(a, avail);
        assert(shrunk(avail, a) == a);
        let k = refs_known_all(ts, known).1;
        lemma_unfold_refs_known(objs, a, vs[vs.len() - 1], k);
        let (t, b) = unfold(objs, a, vs[vs.len() - 1]);
        let r = ts.push(t);
        assert(r.subrange(0, r.len() - 1) =~= ts);
    }
}

proof fn lemma_unfold_entries_refs_known(
    objs: Map<ObjectId, Object>,
    avail: Set<ObjectId>,
    es: Seq<(Vec<u8>, Object)>,
    known: Set<ObjectId>,
)
    requires
        avail.finite(),
        objs.dom().difference(avail).subset_of(known),
    ensures
        refs_known_entries(unfold_entries(objs, avail, es).0, known).0,
        objs.dom().difference(unfold_entries(objs, avail, es).1).subset_of(
            refs_known_entries(unfold_entries(objs, avail, es).0, known).1,
        ),
    decreases avail.len(), es, 0nat,
{
    if es.len() > 0 {
        let p = es.subrange(0, es.len() - 1);
        lemma_unfold_entries_refs_known(objs, avail, p, known);
        lemma_unfold_entries_bound(objs, avail, p);
        let (ts, a) = unfold_entries(objs, avail, p);
        vstd::set_lib::lemma_len_subset(a, avail);
        assert(shrunk(avail, a) == a);
        let k = refs_known_entries(ts, known).1;
        let e = es[es.len() - 1];
        if e.0@ == parent_key() {
            let r = ts.push((e.0@, Node::Null));
            assert(r.subrange(0, r.len() - 1) =~= ts);
            assert(unfold_entries(objs, avail, es).0 == r);
            assert(unfold_entries(objs, avail, es).1 == a);
            assert(refs_known(r[r.len() - 1].1, k) == (true, k));
            assert(refs_known_entries(r, known) == (refs_known_entries(ts, known).0, k));
        } else {
            lemma_unfold_refs_known(objs, a, e.1, k);
            let (t, b) = unfold(objs, a, e.1);
            let r = ts.push((e.0@, t));
            assert(r.subrange(0, r.len() - 1) =~= ts);
            assert(unfold_entries(objs, avail, es).0 == r);
            assert(unfold_entries(objs, avail, es).1 == b);
            assert(r[r.len() - 1].1 == t);
        }
    }
}

/// Folding records exactly the identities that [`refs_known`] makes known, in the same
/// order, so a back reference resolves exactly where [`refs_known`] finds it known.
proof fn lemma_fold_renamed(t: Node, st: Store)
    ensures
        fold(t, st).1.renamed.dom() == refs_known(t, st.renamed.dom()).1,
    decreases t, 0nat,
{
    match t {
        Node::Array(ts) => lemma_fold_all_renamed(ts, st),
        Node::Dictionary(es) => lemma_fold_entries_renamed(es, st),
        Node::SubTree(src, b) => {
            let id: ObjectId = ((st.max_id + 1) as u32, 0u16);
            let reserved = Store {
                objects: st.objects,
                max_id: st.max_id + 1,
                renamed: st.renamed.insert(src, id),
            };
            assert(reserved.renamed.dom() =~= st.renamed.dom().insert(src));
            lemma_fold_renamed(*b, reserved);
        },
        _ => {},
    }
}

proof fn lemma_fold_all_renamed(ts: Seq<Node>, st: Store)
    ensures
        fold_all(ts, st).1.renamed.dom() == refs_known_all(ts, st.renamed.dom()).1,
    decreases ts, 0nat,
{
    if ts.len() > 0 {
        let p = ts.subrange(0, ts.len() - 1);
        lemma_fold_all_renamed(p, st);
        lemma_fold_renamed(ts[ts.len() - 1], fold_all(p, st).1);
    }
}

proof fn lemma_fold_entries_renamed(es: Seq<(Seq<u8>, Node)>, st: Store)
    ensures
        fold_entries(es, st).1.renamed.dom() == refs_known_entries(es, st.renamed.dom()).1,
    decreases es, 0nat,
{
    if es.len() > 0 {
        let p = es.subrange(0, es.len() - 1);
        lemma_fold_entries_renamed(p, st);
        lemma_fold_renamed(es[es.len() - 1].1, fold_entries(p, st).1);
    }
}

/// The tree that [`PDFTree::new`] makes of object `oid` has no back reference that
/// materializing it cannot resolve: walked in the order [`PDFTree::link_reference`] folds
/// it, each back reference names an identity whose copy has already been recorded, so
/// none becomes `Null` and none keeps an identity of the source.
pub proof fn lemma_back_references_resolve(objs: Map<ObjectId, Object>, oid: ObjectId, st: Store)
    requires
        objs.dom().finite(),
        objs.contains_key(oid),
    ensures
        ({
            let t = Node::SubTree(oid, Box::new(unfold(objs, objs.dom().remove(oid), objs[oid]).0));
            &&& refs_known(t, st.renamed.dom()).0
            &&& fold(t, st).1.renamed.dom() == refs_known(t, st.renamed.dom()).1
        }),
{
    let avail = objs.dom().remove(oid);
    let known = st.renamed.dom().insert(oid);
    assert(objs.dom().difference(avail).subset_of(known));
    lemma_unfold_refs_known(objs, avail, objs[oid], known);
    let t = Node::SubTree(oid, Box::new(unfold(objs, avail, objs[oid]).0));
    lemma_fold_renamed(t, st);
}

} // verus!
