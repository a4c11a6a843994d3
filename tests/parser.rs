use padfoot::errors::Error;
use padfoot::input::{group_inputs, normalize_inputs, parse_input_element, Command, InputElement};

fn test_parser(input: &str, value: InputElement) {
    assert_eq!(parse_input_element(input), Ok(value));
}

#[test]
fn test_parser_input_element() {
    test_parser("file.pdf", InputElement::File("file.pdf".into()));
    test_parser("file", InputElement::File("file".into()));
    test_parser("3-4", InputElement::PageRange(3..=4));
    test_parser("3-3", InputElement::PageRange(3..=3));
    test_parser("4-3", InputElement::PageRange(4..=3));
    test_parser("3", InputElement::PageRange(3..=3));
    test_parser("3", InputElement::PageRange(3..=3));
    test_parser("-4", InputElement::PageRange(1..=4));
}

#[test]
fn range_grammar_examples() {
    assert_eq!(parse_input_element("3"), Ok(InputElement::PageRange(3..=3)));
    assert_eq!(parse_input_element("3-5"), Ok(InputElement::PageRange(3..=5)));
    assert_eq!(parse_input_element("-4"), Ok(InputElement::PageRange(1..=4)));
}

#[test]
fn range_grammar_rejects_malformed_ranges() {
    // Neither token is a page range; each is read as a file path instead.
    assert_eq!(parse_input_element("--"), Ok(InputElement::File("--".into())));
    assert_eq!(parse_input_element("abc-"), Ok(InputElement::File("abc-".into())));
    assert_eq!(parse_input_element("3-"), Ok(InputElement::File("3-".into())));
    assert_eq!(parse_input_element("3-4x"), Ok(InputElement::File("3-4x".into())));
}

#[test]
fn empty_token_is_refused() {
    assert_eq!(parse_input_element(""), Err(Error::InputParse));
}

#[test]
fn oversized_number_is_a_path() {
    let big = "99999999999999999999999";
    assert_eq!(parse_input_element(big), Ok(InputElement::File(big.into())));
}

#[test]
fn multi_digit_bounds() {
    assert_eq!(parse_input_element("12-305"), Ok(InputElement::PageRange(12..=305)));
    assert_eq!(parse_input_element("007"), Ok(InputElement::PageRange(7..=7)));
}

#[test]
fn grouping_attaches_ranges_to_preceding_file() {
    let es = vec![
        InputElement::PageRange(9..=9),
        InputElement::File("a.pdf".into()),
        InputElement::PageRange(1..=2),
        InputElement::PageRange(5..=5),
        InputElement::File("b.pdf".into()),
    ];
    let g = group_inputs(&es).unwrap();
    assert_eq!(g.len(), 2);
    assert_eq!(g[0].file.0, "a.pdf");
    assert_eq!(g[0].page_ranges, vec![(1, 2), (5, 5)]);
    assert_eq!(g[1].file.0, "b.pdf");
    assert!(g[1].page_ranges.is_empty());
}

#[test]
fn last_file_is_the_output() {
    let es = vec![
        InputElement::File("a.pdf".into()),
        InputElement::PageRange(1..=2),
        InputElement::File("b.pdf".into()),
        InputElement::File("out.pdf".into()),
    ];
    let io = normalize_inputs(es, None).unwrap();
    assert_eq!(io.outfile.0, "out.pdf");
    assert_eq!(io.inputs.len(), 2);
    assert_eq!(io.inputs[0].page_ranges, vec![(1, 2)]);
}

#[test]
fn explicit_output_keeps_all_inputs() {
    let es = vec![InputElement::File("a.pdf".into()), InputElement::File("b.pdf".into())];
    let io = normalize_inputs(es, Some("out.pdf".into())).unwrap();
    assert_eq!(io.outfile.0, "out.pdf");
    assert_eq!(io.inputs.len(), 2);
}

#[test]
fn output_errors() {
    assert_eq!(normalize_inputs(vec![], None).err(), Some(Error::NoInput));
    let es = vec![InputElement::File("a.pdf".into()), InputElement::PageRange(1..=2)];
    assert_eq!(normalize_inputs(es, None).err(), Some(Error::NoOutput));
}

#[test]
fn command_text_lists_inputs_and_output() {
    let es = vec![
        InputElement::File("a.pdf".into()),
        InputElement::PageRange(1..=2),
        InputElement::File("b.pdf".into()),
        InputElement::File("out.pdf".into()),
    ];
    let io = normalize_inputs(es, None).unwrap();
    assert_eq!(io.inputs[0].text(), " \"a.pdf\" 1-2");
    assert_eq!(io.text(), " \"a.pdf\" 1-2 \"b.pdf\" output \"out.pdf\"");
    let c = Command::Sel(io);
    assert_eq!(c.text(), "padfoot sel \"a.pdf\" 1-2 \"b.pdf\" output \"out.pdf\"");
    let b = Command::Burst(vec![padfoot::input::PDFName::new("x.pdf")]);
    assert_eq!(b.text(), "padfoot burst \"x.pdf\"");
    assert_eq!(Command::Info(vec![]).text(), "padfoot info");
}
