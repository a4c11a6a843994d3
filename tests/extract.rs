use std::collections::BTreeMap;

use padfoot::errors::Error;
use padfoot::object::{Dictionary, Document, Object, ObjectId, Stream};
use padfoot::pages::{extract_page, get_trail_info};
use padfoot::tree::PDFTree;

fn name(s: &str) -> Vec<u8> {
    s.as_bytes().to_vec()
}

fn dict(entries: Vec<(&str, Object)>) -> Object {
    Object::Dictionary(Dictionary { entries: entries.into_iter().map(|(k, v)| (name(k), v)).collect() })
}

fn media_box() -> Object {
    Object::Array(vec![Object::Integer(0), Object::Integer(0), Object::Integer(612), Object::Integer(792)])
}

/// A source with a page tree root (1), one page (2) and its content stream (3).
fn one_page_source(content: &[u8]) -> (Document, BTreeMap<u32, ObjectId>) {
    let mut doc = Document::new();
    let root = doc.new_object_id();
    let stream = Object::Stream(Stream {
        dict: Dictionary { entries: vec![(name("Length"), Object::Integer(content.len() as i64))] },
        content: content.to_vec(),
        allows_compression: true,
    });
    let page_id = (2, 0);
    let content_id = (3, 0);
    doc.objects.insert(content_id, stream);
    doc.objects.insert(
        page_id,
        dict(vec![
            ("Type", Object::Name(name("Page"))),
            ("Parent", Object::Reference(root)),
            ("MediaBox", media_box()),
            ("Contents", Object::Reference(content_id)),
        ]),
    );
    doc.objects.insert(
        root,
        dict(vec![
            ("Type", Object::Name(name("Pages"))),
            ("Kids", Object::Array(vec![Object::Reference(page_id)])),
            ("Count", Object::Integer(1)),
        ]),
    );
    doc.max_id = 3;
    let mut pages = BTreeMap::new();
    pages.insert(1, page_id);
    (doc, pages)
}

fn get<'a>(d: &'a Object, key: &str) -> Option<&'a Object> {
    match d {
        Object::Dictionary(d) => d.get(key.as_bytes()),
        _ => None,
    }
}

fn reference(o: Option<&Object>) -> ObjectId {
    match o {
        Some(Object::Reference(id)) => *id,
        other => panic!("not a reference: {:?}", other),
    }
}

/// The identities of the Pages node and of the page objects of `doc`, from its trailer.
fn page_ids(doc: &Document) -> (ObjectId, Vec<ObjectId>) {
    let catalog = reference(doc.trailer.get(b"Root"));
    let pages = reference(get(&doc.objects[&catalog], "Pages"));
    let kids = match get(&doc.objects[&pages], "Kids") {
        Some(Object::Array(v)) => v.iter().map(|k| reference(Some(k))).collect(),
        other => panic!("no kids: {:?}", other),
    };
    (pages, kids)
}

#[test]
fn extracted_page_keeps_its_content_stream() {
    let (src, pages) = one_page_source(b"BT /F1 12 Tf (Hello) Tj ET");
    let out = extract_page(&src, &pages, 1).unwrap();
    let (_, kids) = page_ids(&out);
    assert_eq!(kids.len(), 1);
    let content = reference(get(&out.objects[&kids[0]], "Contents"));
    match &out.objects[&content] {
        Object::Stream(s) => assert_eq!(s.content, b"BT /F1 12 Tf (Hello) Tj ET".to_vec()),
        other => panic!("not a stream: {:?}", other),
    }
}

#[test]
fn extracted_page_parent_is_new_pages_node() {
    let (src, pages) = one_page_source(b"q Q");
    let out = extract_page(&src, &pages, 1).unwrap();
    let (pages_id, kids) = page_ids(&out);
    let parent = reference(get(&out.objects[&kids[0]], "Parent"));
    assert_eq!(parent, pages_id);
    assert_eq!(get(&out.objects[&pages_id], "Count"), Some(&Object::Integer(1)));
    match get(&out.objects[&pages_id], "MediaBox") {
        Some(Object::Array(v)) => assert_eq!(v.len(), 4),
        other => panic!("no media box: {:?}", other),
    }
    // The source's page tree root is not copied.
    assert_eq!(out.objects.len(), 4);
}

#[test]
fn missing_page_and_media_box() {
    let (mut src, pages) = one_page_source(b"");
    assert_eq!(extract_page(&src, &pages, 2).err(), Some(Error::MissingPage));
    src.objects.insert((2, 0), dict(vec![("Type", Object::Name(name("Page")))]));
    assert_eq!(extract_page(&src, &pages, 1).err(), Some(Error::MissingMediaBox));
    src.objects.insert((2, 0), Object::Integer(5));
    assert_eq!(extract_page(&src, &pages, 1).err(), Some(Error::MissingPage));
}

#[test]
fn two_object_cycle_is_finite() {
    // A refers to B under "Next", and B refers back to A under "Prev".
    let mut doc = Document::new();
    doc.objects.insert((1, 0), dict(vec![("Next", Object::Reference((2, 0)))]));
    doc.objects.insert((2, 0), dict(vec![("Prev", Object::Reference((1, 0)))]));
    doc.max_id = 2;
    let tree = PDFTree::new((1, 0), &doc).unwrap();
    match &tree {
        PDFTree::SubTree(id, _) => assert_eq!(*id, (1, 0)),
        other => panic!("unexpected tree: {:?}", other),
    }
    let mut out = Document::new();
    let a = tree.link_reference(&mut out);
    assert_eq!(out.objects.len(), 2);
    let b = reference(get(&out.objects[&a], "Next"));
    assert_ne!(a, b);
    // The back reference resolves to the copy of A, not to A's source identity.
    assert_eq!(reference(get(&out.objects[&b], "Prev")), a);
}

#[test]
fn shared_object_is_copied_once() {
    let mut doc = Document::new();
    doc.objects.insert(
        (1, 0),
        Object::Array(vec![Object::Reference((2, 0)), Object::Reference((2, 0)), Object::Reference((9, 0))]),
    );
    doc.objects.insert((2, 0), Object::Integer(42));
    doc.max_id = 2;
    let tree = PDFTree::new((1, 0), &doc).unwrap();
    let mut out = Document::new();
    let root = tree.link_reference(&mut out);
    assert_eq!(out.objects.len(), 2);
    match &out.objects[&root] {
        Object::Array(v) => {
            assert_eq!(v.len(), 3);
            assert_eq!(v[0], v[1]);
            let shared = reference(Some(&v[0]));
            assert_eq!(out.objects[&shared], Object::Integer(42));
            // A reference to a missing object becomes Null.
            assert_eq!(v[2], Object::Null);
        }
        other => panic!("not an array: {:?}", other),
    }
}

#[test]
fn missing_root_is_an_error() {
    let doc = Document::new();
    assert_eq!(PDFTree::new((1, 0), &doc).err().map(|e| e), Some(Error::MissingPage));
}

#[test]
fn dictionary_key_order_round_trips() {
    let mut doc = Document::new();
    doc.objects.insert(
        (1, 0),
        dict(vec![("A", Object::Integer(1)), ("B", Object::Integer(2)), ("C", Object::Integer(3))]),
    );
    doc.max_id = 1;
    let tree = PDFTree::new((1, 0), &doc).unwrap();
    let mut out = Document::new();
    let id = tree.link_reference(&mut out);
    match &out.objects[&id] {
        Object::Dictionary(d) => {
            let keys: Vec<Vec<u8>> = d.entries.iter().map(|e| e.0.clone()).collect();
            assert_eq!(keys, vec![name("A"), name("B"), name("C")]);
            assert_eq!(d.entries[1].1, Object::Integer(2));
        }
        other => panic!("not a dictionary: {:?}", other),
    }
}

#[test]
fn parent_is_nulled_in_tree() {
    let mut doc = Document::new();
    doc.objects.insert((1, 0), dict(vec![("Parent", Object::Reference((2, 0))), ("X", Object::Boolean(true))]));
    doc.objects.insert((2, 0), Object::Integer(7));
    doc.max_id = 2;
    let tree = PDFTree::new((1, 0), &doc).unwrap();
    let mut out = Document::new();
    let id = tree.link_reference(&mut out);
    assert_eq!(out.objects.len(), 1);
    assert_eq!(get(&out.objects[&id], "Parent"), Some(&Object::Null));
    assert_eq!(get(&out.objects[&id], "X"), Some(&Object::Boolean(true)));
}

#[test]
fn dictionary_set_replaces_in_place() {
    let mut d = Dictionary { entries: vec![(name("A"), Object::Integer(1)), (name("B"), Object::Integer(2))] };
    d.set(name("A"), Object::Integer(5));
    d.set(name("C"), Object::Integer(6));
    assert_eq!(d.entries.len(), 3);
    assert_eq!(d.entries[0], (name("A"), Object::Integer(5)));
    assert_eq!(d.entries[2], (name("C"), Object::Integer(6)));
    assert_eq!(d.get(b"B"), Some(&Object::Integer(2)));
    assert_eq!(d.get(b"Z"), None);
}

#[test]
fn trail_info_lookup() {
    let mut doc = Document::new();
    assert_eq!(get_trail_info(&doc).err(), Some(Error::MissingInfo));
    doc.objects.insert((1, 0), dict(vec![("Title", Object::String(name("T"), padfoot::object::StringFormat::Literal))]));
    doc.max_id = 1;
    doc.trailer.set(name("Info"), Object::Reference((1, 0)));
    let info = get_trail_info(&doc).unwrap();
    assert_eq!(info.entries.len(), 1);
    assert_eq!(info.entries[0].0, name("Title"));
}
