//! The object model of a PDF document: values, dictionaries, streams and the object store.

use std::collections::BTreeMap;
use vstd::prelude::*;

verus! {

/// Identifies a slot of a document's object store: object number and generation.
pub type ObjectId = (u32, u16);

/// How a string object was written in the file.
#[derive(Clone, Copy, Debug, PartialEq, Eq, Structural)]
pub enum StringFormat {
    Literal,
    Hexadecimal,
}

/// One node of a document's object graph.
#[derive(Debug, PartialEq)]
pub enum Object {
    Null,
    Boolean(bool),
    Integer(i64),
    /// A real number, held as the bit pattern of its IEEE-754 single-precision value.
    Real(u32),
    Name(Vec<u8>),
    String(Vec<u8>, StringFormat),
    Array(Vec<Object>),
    Dictionary(Dictionary),
    Stream(Stream),
    Reference(ObjectId),
}

/// An ordered mapping from names to objects; the order of insertion is kept.
///
/// The entries are held in a `Vec`: an [`Object`] nests dictionaries within dictionaries,
/// and Verus refuses a recursive type that goes through an outside map type.
#[derive(Debug, PartialEq)]
pub struct Dictionary {
    pub entries: Vec<(Vec<u8>, Object)>,
}

/// A stream object: its dictionary and its raw, uninterpreted payload.
#[derive(Debug, PartialEq)]
pub struct Stream {
    pub dict: Dictionary,
    pub content: Vec<u8>,
    pub allows_compression: bool,
}

/// The mathematical value of an [`Object`].
pub enum Value {
    Null,
    Boolean(bool),
    Integer(i64),
    Real(u32),
    Name(Seq<u8>),
    String(Seq<u8>, StringFormat),
    Array(Seq<Value>),
    Dictionary(Seq<(Seq<u8>, Value)>),
    Stream(Seq<(Seq<u8>, Value)>, Seq<u8>, bool),
    Reference(ObjectId),
}

impl Object {
    pub open spec fn view(&self) -> Value
        decreases self,
    {
        match self {
            Object::Null => Value::Null,
            Object::Boolean(b) => Value::Boolean(*b),
            Object::Integer(i) => Value::Integer(*i),
            Object::Real(r) => Value::Real(*r),
            Object::Name(n) => Value::Name(n@),
            Object::String(s, f) => Value::String(s@, *f),
            Object::Array(v) => Value::Array(objects_view(v@)),
            Object::Dictionary(d) => Value::Dictionary(entries_view(d.entries@)),
            Object::Stream(s) => Value::Stream(
                entries_view(s.dict.entries@),
                s.content@,
                s.allows_compression,
            ),
            Object::Reference(id) => Value::Reference(*id),
        }
    }
}

/// The values of a sequence of objects, element by element.
pub open spec fn objects_view(s: Seq<Object>) -> Seq<Value>
    decreases s,
{
    if s.len() == 0 {
        Seq::empty()
    } else {
        objects_view(s.subrange(0, s.len() - 1)).push(s[s.len() - 1].view())
    }
}

/// The values of a sequence of dictionary entries, entry by entry.
pub open spec fn entries_view(s: Seq<(Vec<u8>, Object)>) -> Seq<(Seq<u8>, Value)>
    decreases s,
{
    if s.len() == 0 {
        Seq::empty()
    } else {
        entries_view(s.subrange(0, s.len() - 1)).push((s[s.len() - 1].0@, s[s.len() - 1].1.view()))
    }
}

/// The values of a sequence of dictionary entries have one value per entry.
pub proof fn lemma_entries_view_len(s: Seq<(Vec<u8>, Object)>)
    ensures
        entries_view(s).len() == s.len(),
    decreases s.len(),
{
    if s.len() > 0 {
        lemma_entries_view_len(s.subrange(0, s.len() - 1));
    }
}

/// Entry `i` of the values of a sequence of dictionary entries is the value of entry `i`.
pub proof fn lemma_entries_view_index(s: Seq<(Vec<u8>, Object)>, i: int)
    requires
        0 <= i < s.len(),
    ensures
        entries_view(s)[i] == (s[i].0@, s[i].1@),
    decreases s.len(),
{
    lemma_entries_view_len(s);
    if i < s.len() - 1 {
        let p = s.subrange(0, s.len() - 1);
        lemma_entries_view_len(p);
        lemma_entries_view_index(p, i);
    }
}

/// The values of a sequence of dictionary entries, taken entry by entry.
pub proof fn lemma_entries_view_pointwise(s: Seq<(Vec<u8>, Object)>)
    ensures
        entries_view(s).len() == s.len(),
        forall|i: int| 0 <= i < s.len() ==> #[trigger] entries_view(s)[i] == (s[i].0@, s[i].1@),
{
    lemma_entries_view_len(s);
    assert forall|i: int| 0 <= i < s.len() implies #[trigger] entries_view(s)[i] == (
        s[i].0@,
        s[i].1@,
    ) by {
        lemma_entries_view_index(s, i);
    }
}

/// The values of a sequence of objects, taken element by element.
pub proof fn lemma_objects_view_pointwise(s: Seq<Object>)
    ensures
        objects_view(s).len() == s.len(),
        forall|i: int| 0 <= i < s.len() ==> #[trigger] objects_view(s)[i] == s[i]@,
    decreases s.len(),
{
    if s.len() > 0 {
        lemma_objects_view_pointwise(s.subrange(0, s.len() - 1));
    }
}

/// The position of the first entry named `k`, or -1 where there is none.
pub open spec fn find_key(es: Seq<(Seq<u8>, Value)>, k: Seq<u8>) -> int
    decreases es.len(),
{
    if es.len() == 0 {
        -1
    } else {
        let j = find_key(es.subrange(0, es.len() - 1), k);
        if j >= 0 {
            j
        } else if es[es.len() - 1].0 == k {
            es.len() - 1
        } else {
            -1
        }
    }
}

/// The value of the first entry named `k`.
pub open spec fn lookup(es: Seq<(Seq<u8>, Value)>, k: Seq<u8>) -> Option<Value> {
    let j = find_key(es, k);
    if j >= 0 {
        Some(es[j].1)
    } else {
        None
    }
}

/// The entries with the first one named `k` given the value `v`, or with `(k, v)` appended
/// where no entry is named `k`.
pub open spec fn set_entry(es: Seq<(Seq<u8>, Value)>, k: Seq<u8>, v: Value) -> Seq<(Seq<u8>, Value)> {
    let j = find_key(es, k);
    if j >= 0 {
        es.update(j, (k, v))
    } else {
        es.push((k, v))
    }
}

/// `find_key` finds the first entry with the key, and -1 exactly where there is none.
pub proof fn lemma_find_key(es: Seq<(Seq<u8>, Value)>, k: Seq<u8>)
    ensures
        -1 <= find_key(es, k) < es.len(),
        find_key(es, k) >= 0 ==> es[find_key(es, k)].0 == k,
        forall|i: int| 0 <= i < es.len() && (find_key(es, k) < 0 || i < find_key(es, k)) ==> es[i].0 != k,
    decreases es.len(),
{
    if es.len() > 0 {
        let p = es.subrange(0, es.len() - 1);
        lemma_find_key(p, k);
        assert forall|i: int| 0 <= i < p.len() implies p[i] == es[i] by {}
    }
}

/// The name `Parent`: the upward link of the page hierarchy.
pub open spec fn parent_key() -> Seq<u8> {
    seq![80u8, 97u8, 114u8, 101u8, 110u8, 116u8]
}

/// The bytes of the name `Parent`.
pub fn parent_name() -> (r: Vec<u8>)
    ensures
        r@ == parent_key(),
{
    let r: Vec<u8> = vec![80u8, 97u8, 114u8, 101u8, 110u8, 116u8];
    assert(r@ =~= parent_key());
    r
}

/// Whether two byte strings are equal.
pub fn bytes_equal(a: &[u8], b: &[u8]) -> (r: bool)
    ensures
        r == (a@ == b@),
{
    if a.len() != b.len() {
        return false;
    }
    let mut i: usize = 0;
    while i < a.len()
        invariant
            a@.len() == b@.len(),
            0 <= i <= a@.len(),
            forall|j: int| 0 <= j < i ==> a@[j] == b@[j],
        decreases a@.len() - i,
    {
        if a[i] != b[i] {
            return false;
        }
        i = i + 1;
    }
    assert(a@ =~= b@);
    true
}

/// A copy of a byte string.
pub fn copy_bytes(b: &Vec<u8>) -> (r: Vec<u8>)
    ensures
        r@ == b@,
{
    let mut r: Vec<u8> = Vec::with_capacity(b.len());
    let mut i: usize = 0;
    while i < b.len()
        invariant
            0 <= i <= b@.len(),
            r@ == b@.subrange(0, i as int),
        decreases b@.len() - i,
    {
        r.push(b[i]);
        i = i + 1;
        assert(r@ =~= b@.subrange(0, i as int));
    }
    assert(b@.subrange(0, b@.len() as int) =~= b@);
    r
}

impl Object {
    /// A deep copy of this object.
    pub fn deep_copy(&self) -> (r: Object)
        ensures
            r@ == self@,
        decreases self,
    {
        match self {
            Object::Null => Object::Null,
            Object::Boolean(b) => Object::Boolean(*b),
            Object::Integer(i) => Object::Integer(*i),
            Object::Real(x) => Object::Real(*x),
            Object::Name(n) => Object::Name(copy_bytes(n)),
            Object::String(t, f) => Object::String(copy_bytes(t), *f),
            Object::Array(v) => {
                let mut r: Vec<Object> = Vec::with_capacity(v.len());
                let mut i: usize = 0;
                while i < v.len()
                    invariant
                        0 <= i <= v@.len(),
                        *self == Object::Array(*v),
                        objects_view(r@) == objects_view(v@.subrange(0, i as int)),
                    decreases v@.len() - i,
                {
                    proof {
                        assert(decreases_to!(self => self->Array_0));
                        assert(decreases_to!(v => v@));
                    }
                    let c = v[i].deep_copy();
                    let ghost before = r@;
                    r.push(c);
                    assert(r@.subrange(0, r@.len() - 1) =~= before);
                    assert(v@.subrange(0, i + 1).subrange(0, i as int) =~= v@.subrange(0, i as int));
                    i = i + 1;
                }
                assert(v@.subrange(0, v@.len() as int) =~= v@);
                Object::Array(r)
            },
            Object::Dictionary(d) => Object::Dictionary(d.deep_copy()),
            Object::Stream(st) => Object::Stream(
                Stream {
                    dict: st.dict.deep_copy(),
                    content: copy_bytes(&st.content),
                    allows_compression: st.allows_compression,
                },
            ),
            Object::Reference(id) => Object::Reference(*id),
        }
    }
}

impl Dictionary {
    /// The value of the first entry named `key`.
    pub fn get(&self, key: &[u8]) -> (r: Option<&Object>)
        ensures
            r is Some <==> lookup(entries_view(self.entries@), key@) is Some,
            r is Some ==> r->0@ == lookup(entries_view(self.entries@), key@)->0,
    {
        let ghost ev = entries_view(self.entries@);
        proof {
            lemma_entries_view_pointwise(self.entries@);
            lemma_find_key(ev, key@);
        }
        let mut i: usize = 0;
        while i < self.entries.len()
            invariant
                0 <= i <= self.entries@.len(),
                ev == entries_view(self.entries@),
                ev.len() == self.entries@.len(),
                forall|j: int|
                    0 <= j < self.entries@.len() ==> #[trigger] ev[j] == (
                        self.entries@[j].0@,
                        self.entries@[j].1@,
                    ),
                forall|j: int| 0 <= j < i ==> ev[j].0 != key@,
            decreases self.entries@.len() - i,
        {
            if bytes_equal(self.entries[i].0.as_slice(), key) {
                proof {
                    lemma_find_key(ev, key@);
                }
                assert(ev[i as int].0 == key@);
                return Some(&self.entries[i].1);
            }
            i = i + 1;
        }
        None
    }

    /// Gives the first entry named `key` the value `value`, or appends the entry where no
    /// entry has that name.
    pub fn set(&mut self, key: Vec<u8>, value: Object)
        ensures
            entries_view(final(self).entries@) == set_entry(
                entries_view(old(self).entries@),
                key@,
                value@,
            ),
    {
        let ghost ev = entries_view(self.entries@);
        let ghost kv = key@;
        let ghost vv = value@;
        proof {
            lemma_entries_view_pointwise(self.entries@);
            lemma_find_key(ev, key@);
        }
        let mut i: usize = 0;
        while i < self.entries.len()
            invariant
                0 <= i <= self.entries@.len(),
                ev == entries_view(self.entries@),
                ev.len() == self.entries@.len(),
                forall|j: int|
                    0 <= j < self.entries@.len() ==> #[trigger] ev[j] == (
                        self.entries@[j].0@,
                        self.entries@[j].1@,
                    ),
                self.entries@ == old(self).entries@,
                kv == key@,
                vv == value@,
                forall|j: int| 0 <= j < i ==> ev[j].0 != key@,
            decreases self.entries@.len() - i,
        {
            if bytes_equal(self.entries[i].0.as_slice(), key.as_slice()) {
                proof {
                    lemma_find_key(ev, key@);
                }
                assert(ev[i as int].0 == key@);
                let ghost prior = self.entries@;
                self.entries.set(i, (key, value));
                proof {
                    lemma_entries_view_pointwise(self.entries@);
                    let nv = entries_view(self.entries@);
                    assert(nv.len() == ev.len());
                    assert(self.entries@[i as int].0@ == kv);
                    assert(self.entries@[i as int].1@ == vv);
                    assert(nv[i as int] == (kv, vv));
                    assert(find_key(ev, kv) == i);
                    assert forall|j: int| 0 <= j < ev.len() && j != i implies nv[j] == ev[j] by {
                        assert(self.entries@[j] == prior[j]);
                        assert(nv[j] == (self.entries@[j].0@, self.entries@[j].1@));
                        assert(ev[j] == (prior[j].0@, prior[j].1@));
                    }
                    assert(entries_view(self.entries@) =~= ev.update(i as int, (kv, vv)));
                }
                return;
            }
            i = i + 1;
        }
        self.entries.push((key, value));
        proof {
            lemma_find_key(ev, kv);
            lemma_entries_view_pointwise(self.entries@);
            assert(entries_view(self.entries@) =~= ev.push((kv, vv)));
        }
    }

    /// A deep copy of this dictionary.
    pub fn deep_copy(&self) -> (r: Dictionary)
        ensures
            entries_view(r.entries@) == entries_view(self.entries@),
        decreases self,
    {
        let mut r: Vec<(Vec<u8>, Object)> = Vec::with_capacity(self.entries.len());
        let mut i: usize = 0;
        while i < self.entries.len()
            invariant
                0 <= i <= self.entries@.len(),
                entries_view(r@) == entries_view(self.entries@.subrange(0, i as int)),
            decreases self.entries@.len() - i,
        {
            let k = copy_bytes(&self.entries[i].0);
            let c = self.entries[i].1.deep_copy();
            let ghost before = r@;
            r.push((k, c));
            assert(r@.subrange(0, r@.len() - 1) =~= before);
            assert(self.entries@.subrange(0, i + 1).subrange(0, i as int) =~= self.entries@.subrange(
                0,
                i as int,
            ));
            i = i + 1;
        }
        assert(self.entries@.subrange(0, self.entries@.len() as int) =~= self.entries@);
        Dictionary { entries: r }
    }
}

/// A document's object store, its trailer, and the highest object number in use.
#[derive(Debug)]
pub struct Document {
    pub objects: BTreeMap<ObjectId, Object>,
    pub max_id: u32,
    pub trailer: Dictionary,
}

impl Document {
    /// Every stored object has a number no greater than `max_id`, so that numbers above it
    /// are free.
    pub open spec fn wf(&self) -> bool {
        forall|id: ObjectId| #[trigger] self.objects@.contains_key(id) ==> id.0 <= self.max_id
    }

    /// An empty document.
    pub fn new() -> (r: Document)
        ensures
            r.wf(),
            r.objects@ == Map::<ObjectId, Object>::empty(),
            r.max_id == 0,
            r.trailer.entries@.len() == 0,
    {
        Document { objects: BTreeMap::new(), max_id: 0, trailer: Dictionary { entries: Vec::new() } }
    }

    /// The object stored under `id`, if any.
    pub fn get_object(&self, id: ObjectId) -> (r: Option<&Object>)
        ensures
            r is Some <==> self.objects@.contains_key(id),
            r is Some ==> *r->0 == self.objects@[id],
    {
        self.objects.get(&id)
    }

    /// Reserves a fresh object number, one above the highest in use.
    pub fn new_object_id(&mut self) -> (id: ObjectId)
        requires
            old(self).wf(),
            old(self).max_id < u32::MAX,
        ensures
            final(self).wf(),
            id.0 == old(self).max_id + 1,
            id.1 == 0,
            final(self).max_id == id.0,
            final(self).objects == old(self).objects,
            final(self).trailer == old(self).trailer,
            !old(self).objects@.contains_key(id),
    {
        self.max_id = self.max_id + 1;
        (self.max_id, 0)
    }

    /// Stores `o` under a fresh identity and returns that identity.
    pub fn add_object(&mut self, o: Object) -> (id: ObjectId)
        requires
            old(self).wf(),
            old(self).max_id < u32::MAX,
        ensures
            final(self).wf(),
            id.0 == old(self).max_id + 1,
            id.1 == 0,
            final(self).max_id == id.0,
            !old(self).objects@.contains_key(id),
            final(self).objects@ == old(self).objects@.insert(id, o),
            final(self).trailer == old(self).trailer,
    {
        let id = self.new_object_id();
        self.objects.insert(id, o);
        id
    }
}

} // verus!
