use std::collections::BTreeMap;

use padfoot::burst::{burst_file_name, burst_pages, suffix_width};
use padfoot::errors::Error;
use padfoot::object::{Dictionary, Document, Object, ObjectId, Stream};
use padfoot::select::{page_range, sel, PDFPages, SourceDoc};

fn name(s: &str) -> Vec<u8> {
    s.as_bytes().to_vec()
}

fn dict(entries: Vec<(&str, Object)>) -> Object {
    Object::Dictionary(Dictionary { entries: entries.into_iter().map(|(k, v)| (name(k), v)).collect() })
}

/// A source of `n` pages whose content streams read `<tag> <page number>`.
fn source(tag: &str, n: u32) -> SourceDoc {
    let mut doc = Document::new();
    let root = doc.new_object_id();
    let mut kids = Vec::new();
    let mut pages = BTreeMap::new();
    for p in 1..=n {
        let content = format!("{} {}", tag, p).into_bytes();
        let c = doc.add_object(Object::Stream(Stream {
            dict: Dictionary { entries: vec![] },
            content,
            allows_compression: false,
        }));
        let page = doc.add_object(dict(vec![
            ("Type", Object::Name(name("Page"))),
            ("Parent", Object::Reference(root)),
            ("MediaBox", Object::Array(vec![Object::Integer(0), Object::Integer(0), Object::Integer(100), Object::Integer(100)])),
            ("Contents", Object::Reference(c)),
        ]));
        kids.push(Object::Reference(page));
        pages.insert(p, page);
    }
    doc.objects.insert(root, dict(vec![("Type", Object::Name(name("Pages"))), ("Kids", Object::Array(kids))]));
    SourceDoc { doc, pages }
}

fn reference(o: Option<&Object>) -> ObjectId {
    match o {
        Some(Object::Reference(id)) => *id,
        other => panic!("not a reference: {:?}", other),
    }
}

fn get<'a>(d: &'a Object, key: &str) -> Option<&'a Object> {
    match d {
        Object::Dictionary(d) => d.get(key.as_bytes()),
        _ => None,
    }
}

/// The content of each page of `doc`, in page order.
fn contents(doc: &Document) -> Vec<String> {
    let catalog = reference(doc.trailer.get(b"Root"));
    let pages = reference(get(&doc.objects[&catalog], "Pages"));
    let kids: Vec<ObjectId> = match get(&doc.objects[&pages], "Kids") {
        Some(Object::Array(v)) => v.iter().map(|k| reference(Some(k))).collect(),
        other => panic!("no kids: {:?}", other),
    };
    kids.iter()
        .map(|&page| {
            assert_eq!(reference(get(&doc.objects[&page], "Parent")), pages);
            let c = reference(get(&doc.objects[&page], "Contents"));
            match &doc.objects[&c] {
                Object::Stream(s) => String::from_utf8(s.content.clone()).unwrap(),
                other => panic!("not a stream: {:?}", other),
            }
        })
        .collect()
}

#[test]
fn cat_two_pages_then_whole_file() {
    let mut a = PDFPages::new(source("a", 4));
    a.push_range(&(1..=2));
    let b = PDFPages::new(source("b", 1));
    let out = sel(&vec![a, b]).unwrap();
    assert_eq!(contents(&out), vec!["a 1", "a 2", "b 1"]);
    let catalog = reference(out.trailer.get(b"Root"));
    let pages = reference(get(&out.objects[&catalog], "Pages"));
    assert_eq!(get(&out.objects[&pages], "Count"), Some(&Object::Integer(3)));
}

#[test]
fn ranges_apply_in_given_order() {
    let mut a = PDFPages::new(source("a", 5));
    a.push_range(&(4..=5));
    a.push_range(&(2..=2));
    a.push_range(&(3..=1));
    let out = sel(&vec![a]).unwrap();
    assert_eq!(contents(&out), vec!["a 4", "a 5", "a 2"]);
}

#[test]
fn selection_errors() {
    assert_eq!(sel(&vec![]).err(), Some(Error::NoInput));
    let mut a = PDFPages::new(source("a", 2));
    a.push_range(&(2..=3));
    assert_eq!(sel(&vec![a]).err(), Some(Error::MissingPage));
    let empty = PDFPages::new(source("e", 0));
    assert_eq!(sel(&vec![empty]).err(), Some(Error::NoPages));
}

#[test]
fn page_range_bounds() {
    let s = source("a", 7);
    assert_eq!(page_range(&s.pages), Ok(1..=7));
    let e = source("e", 0);
    assert_eq!(page_range(&e.pages), Err(Error::NoPages));
}

#[test]
fn suffix_widths() {
    assert_eq!(suffix_width(1), 0);
    assert_eq!(suffix_width(9), 1);
    assert_eq!(suffix_width(10), 1);
    assert_eq!(suffix_width(11), 2);
    assert_eq!(suffix_width(12), 2);
    assert_eq!(suffix_width(100), 2);
    assert_eq!(suffix_width(101), 3);
}

#[test]
fn burst_names_are_padded() {
    assert_eq!(burst_file_name("report", 0, 2), "report_00.pdf");
    assert_eq!(burst_file_name("report", 11, 2), "report_11.pdf");
    assert_eq!(burst_file_name("x", 123, 2), "x_123.pdf");
    assert_eq!(burst_file_name("x", 5, 0), "x_5.pdf");
}

#[test]
fn burst_twelve_pages() {
    let s = source("r", 12);
    let out = burst_pages("report", &s).unwrap();
    let names: Vec<String> = out.iter().map(|(n, _)| n.clone()).collect();
    let expected: Vec<String> = (0..12).map(|i| format!("report_{:02}.pdf", i)).collect();
    assert_eq!(names, expected);
    for (i, (_, d)) in out.iter().enumerate() {
        assert_eq!(contents(d), vec![format!("r {}", i + 1)]);
    }
}

#[test]
fn burst_of_empty_document_fails() {
    let s = source("r", 0);
    assert_eq!(burst_pages("report", &s).err(), Some(Error::NoPages));
}

#[test]
fn burst_uses_file_stem() {
    let s = source("r", 3);
    let out = padfoot::burst::burst(&padfoot::input::PDFName::new("dir/report.pdf"), &s).unwrap();
    assert_eq!(out[0].0, "report_0.pdf");
    assert_eq!(out[2].0, "report_2.pdf");
}

/// A source whose page index skips a number: pages 1 and 3.
fn gapped_source() -> SourceDoc {
    let mut s = source("g", 3);
    s.pages.remove(&2);
    s
}

#[test]
fn all_pages_follow_the_page_index() {
    let out = sel(&vec![PDFPages::new(gapped_source())]).unwrap();
    assert_eq!(contents(&out), vec!["g 1", "g 3"]);
}

#[test]
fn burst_counts_pages_of_the_index() {
    let out = burst_pages("x", &gapped_source()).unwrap();
    let names: Vec<String> = out.iter().map(|(n, _)| n.clone()).collect();
    assert_eq!(names, vec!["x_0.pdf".to_string(), "x_1.pdf".to_string()]);
    assert_eq!(contents(&out[1].1), vec!["g 3"]);
}

#[test]
fn page_numbers_ascend() {
    assert_eq!(padfoot::select::page_numbers(&gapped_source().pages), vec![1, 3]);
}
