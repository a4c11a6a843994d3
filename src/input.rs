//! The command-line input grammar: file paths, inclusive page ranges, and the output.

use std::ops::RangeInclusive;
use vstd::prelude::*;

use crate::errors::Error;
use crate::burst::{decimal, push_decimal, string_of};
use crate::select::PDFPages;

verus! {

/// The name of a PDF file.
#[derive(Debug, Clone, PartialEq, Eq)]
pub struct PDFName(pub String);

impl PDFName {
    pub fn new(path: &str) -> (r: PDFName)
        ensures
            r.0@ == path@,
    {
        PDFName(path.to_owned())
    }
}

/// One input token: a file path, or an inclusive page range.
#[derive(Debug, PartialEq)]
pub enum InputElement {
    File(String),
    PageRange(RangeInclusive<usize>),
}

/// Input files with their selected ranges, and the output file.
#[derive(Debug)]
pub struct InOut<A> {
    pub inputs: Vec<PDFPages<A>>,
    pub outfile: PDFName,
}

pub open spec fn is_digit(c: char) -> bool {
    '0' <= c <= '9'
}

/// A non-empty run of decimal digits.
pub open spec fn all_digits(s: Seq<char>) -> bool {
    s.len() > 0 && forall|i: int| 0 <= i < s.len() ==> is_digit(#[trigger] s[i])
}

/// The number that the decimal digits `s` write.
pub open spec fn digits_value(s: Seq<char>) -> nat
    decreases s.len(),
{
    if s.len() == 0 {
        0
    } else {
        digits_value(s.subrange(0, s.len() - 1)) * 10 + ((s[s.len() - 1] as u32) - ('0' as u32)) as nat
    }
}

/// The position of the first `-` in `s`, or -1.
pub open spec fn dash_index(s: Seq<char>) -> int
    decreases s.len(),
{
    if s.len() == 0 {
        -1
    } else {
        let j = dash_index(s.subrange(0, s.len() - 1));
        if j >= 0 {
            j
        } else if s[s.len() - 1] == '-' {
            s.len() - 1
        } else {
            -1
        }
    }
}

/// The bounds that a page-range token writes: `N` is `N..=N`, `N-M` is `N..=M`, and `-M`
/// is `1..=M`. Anything else is no range.
pub open spec fn range_bounds(s: Seq<char>) -> Option<(nat, nat)> {
    let p = dash_index(s);
    if p < 0 {
        if all_digits(s) {
            Some((digits_value(s), digits_value(s)))
        } else {
            None
        }
    } else {
        let a = s.subrange(0, p);
        let b = s.subrange(p + 1, s.len() as int);
        if all_digits(b) && (a.len() == 0 || all_digits(a)) {
            Some(
                (
                    if a.len() == 0 {
                        1
                    } else {
                        digits_value(a)
                    },
                    digits_value(b),
                ),
            )
        } else {
            None
        }
    }
}

/// The page range that the token `s` writes, where its bounds fit in a `usize`.
pub open spec fn page_range_token(s: Seq<char>) -> Option<(usize, usize)> {
    match range_bounds(s) {
        Some((lo, hi)) => if lo <= usize::MAX && hi <= usize::MAX {
            Some((lo as usize, hi as usize))
        } else {
            None
        },
        None => None,
    }
}

proof fn lemma_dash_index(s: Seq<char>)
    ensures
        -1 <= dash_index(s) < s.len(),
        dash_index(s) >= 0 ==> s[dash_index(s)] == '-',
        forall|i: int| 0 <= i < s.len() && (dash_index(s) < 0 || i < dash_index(s)) ==> s[i] != '-',
    decreases s.len(),
{
    if s.len() > 0 {
        let p = s.subrange(0, s.len() - 1);
        lemma_dash_index(p);
        assert forall|i: int| 0 <= i < p.len() implies p[i] == s[i] by {}
    }
}

proof fn lemma_digits_prefix(s: Seq<char>, i: int)
    requires
        0 <= i <= s.len(),
    ensures
        digits_value(s.subrange(0, i)) <= digits_value(s),
    decreases s.len() - i,
{
    if i < s.len() {
        lemma_digits_prefix(s, i + 1);
        assert(s.subrange(0, i + 1).subrange(0, i) =~= s.subrange(0, i));
    } else {
        assert(s.subrange(0, i) =~= s);
    }
}

/// The characters of `s`.
pub(crate) fn chars_of(s: &str) -> (r: Vec<char>)
    ensures
        r@ == s@,
{
    let mut v: Vec<char> = Vec::new();
    for c in it: s.chars()
        invariant
            v@ == it.seq().subrange(0, it.index() as int),
    {
        v.push(c);
    }
    v
}

} // verus!

verus! {

/// The number written by the digits `cs[from..to]`, where it fits in a `usize`.
fn parse_number(cs: &Vec<char>, from: usize, to: usize) -> (r: Option<usize>)
    requires
        from <= to <= cs@.len(),
        all_digits(cs@.subrange(from as int, to as int)),
    ensures
        r == (if digits_value(cs@.subrange(from as int, to as int)) <= usize::MAX {
            Some(digits_value(cs@.subrange(from as int, to as int)) as usize)
        } else {
            None::<usize>
        }),
{
    let ghost whole = cs@.subrange(from as int, to as int);
    let mut v: usize = 0;
    let mut i: usize = from;
    assert(cs@.subrange(from as int, from as int) =~= Seq::<char>::empty());
    while i < to
        invariant
            from <= i <= to <= cs@.len(),
            whole == cs@.subrange(from as int, to as int),
            all_digits(whole),
            v == digits_value(cs@.subrange(from as int, i as int)),
        decreases to - i,
    {
        let ghost prefix = cs@.subrange(from as int, i as int);
        let ghost next = cs@.subrange(from as int, i + 1);
        assert(next.subrange(0, next.len() - 1) =~= prefix);
        assert(whole[i - from] == cs@[i as int]);
        assert(is_digit(cs@[i as int]));
        let d: usize = (cs[i] as u32 - '0' as u32) as usize;
        assert(d <= 9);
        if v > (usize::MAX - d) / 10 {
            proof {
                let m = usize::MAX as int;
                assert(v as int * 10 + d as int > m) by (nonlinear_arith)
                    requires
                        v as int > (m - d as int) / 10,
                        0 <= d <= 9,
                        m > 9,
                ;
                assert(whole.subrange(0, (i + 1 - from) as int) =~= next);
                lemma_digits_prefix(whole, (i + 1 - from) as int);
            }
            return None;
        }
        proof {
            let m = usize::MAX as int;
            assert(v as int * 10 + d as int <= m) by (nonlinear_arith)
                requires
                    v as int <= (m - d as int) / 10,
                    0 <= d <= 9,
                    m > 9,
            ;
        }
        v = v * 10 + d;
        i = i + 1;
    }
    Some(v)
}

/// The page range that the characters `cs` write, where they write one.
fn range_token(cs: &Vec<char>) -> (r: Option<(usize, usize)>)
    ensures
        r == page_range_token(cs@),
{
    let ghost s = cs@;
    proof {
        lemma_dash_index(s);
    }
    let mut p: usize = 0;
    while p < cs.len() && cs[p] != '-'
        invariant
            0 <= p <= cs@.len(),
            s == cs@,
            forall|j: int| 0 <= j < p ==> s[j] != '-',
        decreases cs@.len() - p,
    {
        p = p + 1;
    }
    proof {
        lemma_dash_index(s);
    }
    let mut all: bool = true;
    let mut j: usize = if p < cs.len() { p + 1 } else { 0 };
    let ghost start = j;
    while j < cs.len()
        invariant
            start <= j <= cs@.len(),
            all == (forall|k: int| start <= k < j ==> is_digit(cs@[k])),
        decreases cs@.len() - j,
    {
        if !('0' <= cs[j] && cs[j] <= '9') {
            all = false;
        }
        j = j + 1;
    }
    let mut lead: bool = true;
    let mut k: usize = 0;
    while k < p && k < cs.len()
        invariant
            0 <= k <= p,
            p <= cs@.len(),
            lead == (forall|q: int| 0 <= q < k ==> is_digit(cs@[q])),
        decreases p - k,
    {
        if !('0' <= cs[k] && cs[k] <= '9') {
            lead = false;
        }
        k = k + 1;
    }
    if p == cs.len() {
        assert(dash_index(s) < 0);
        if !all || cs.len() == 0 {
            assert(!all_digits(s));
            return None;
        }
        assert(s.subrange(0, s.len() as int) =~= s);
        assert(all_digits(s));
        return match parse_number(cs, 0, cs.len()) {
            Some(v) => Some((v, v)),
            None => None,
        };
    }
    assert(dash_index(s) == p);
    let ghost a = s.subrange(0, p as int);
    let ghost b = s.subrange(p + 1, s.len() as int);
    if !all || p + 1 == cs.len() {
        assert(!all_digits(b)) by {
            if p + 1 < cs.len() {
                let q = choose|q: int| start <= q < cs@.len() && !is_digit(cs@[q]);
                assert(b[q - p - 1] == cs@[q]);
            }
        }
        return None;
    }
    assert(all_digits(b)) by {
        assert forall|q: int| 0 <= q < b.len() implies is_digit(#[trigger] b[q]) by {
            assert(b[q] == cs@[q + p + 1]);
        }
    }
    if !lead {
        assert(!all_digits(a)) by {
            let q = choose|q: int| 0 <= q < p && !is_digit(cs@[q]);
            assert(a[q] == cs@[q]);
        }
        return None;
    }
    let hi = match parse_number(cs, p + 1, cs.len()) {
        Some(v) => v,
        None => {
            return None;
        },
    };
    if p == 0 {
        return Some((1, hi));
    }
    assert(all_digits(a)) by {
        assert forall|q: int| 0 <= q < a.len() implies is_digit(#[trigger] a[q]) by {
            assert(a[q] == cs@[q]);
        }
    }
    match parse_number(cs, 0, p) {
        Some(lo) => Some((lo, hi)),
        None => None,
    }
}

/// Reads one input token: an inclusive page range where the whole token writes one
/// (`N`, `N-M` or `-M`), else a file path. The empty token is refused.
pub fn parse_input_element(i: &str) -> (r: Result<InputElement, Error>)
    ensures
        match page_range_token(i@) {
            Some((lo, hi)) => r matches Ok(InputElement::PageRange(range)) && range@.start == lo
                && range@.end == hi && !range@.exhausted,
            None => if i@.len() == 0 {
                r == Err::<InputElement, Error>(Error::InputParse)
            } else {
                r matches Ok(InputElement::File(path)) && path@ == i@
            },
        },
{
    let cs = chars_of(i);
    match range_token(&cs) {
        Some((lo, hi)) => Ok(InputElement::PageRange(RangeInclusive::new(lo, hi))),
        None => {
            if cs.len() == 0 {
                Err(Error::InputParse)
            } else {
                Ok(InputElement::File(i.to_owned()))
            }
        },
    }
}

} // verus!

verus! {

/// The files of `es` in order, each with the ranges that follow it up to the next file.
/// Ranges before the first file belong to no file and are dropped.
pub open spec fn grouped(es: Seq<InputElement>) -> Seq<(Seq<char>, Seq<(usize, usize)>)>
    decreases es.len(),
{
    if es.len() == 0 {
        Seq::empty()
    } else {
        let g = grouped(es.subrange(0, es.len() - 1));
        match es[es.len() - 1] {
            InputElement::File(p) => g.push((p@, Seq::empty())),
            InputElement::PageRange(r) => if g.len() == 0 {
                g
            } else {
                g.update(g.len() - 1, (g[g.len() - 1].0, g[g.len() - 1].1.push((r@.start, r@.end))))
            },
        }
    }
}

/// No range of `es` has been iterated to exhaustion.
pub open spec fn ranges_fresh(es: Seq<InputElement>) -> bool {
    forall|i: int| 0 <= i < es.len() ==> (#[trigger] es[i] matches InputElement::PageRange(r) ==> !r@.exhausted)
}

/// The files and ranges of a list of selections.
pub open spec fn selections_view(ps: Seq<PDFPages<PDFName>>) -> Seq<(Seq<char>, Seq<(usize, usize)>)> {
    ps.map_values(|p: PDFPages<PDFName>| (p.file.0@, p.page_ranges@))
}

/// Groups the tokens into files, each with the ranges that follow it.
pub fn group_inputs(is: &Vec<InputElement>) -> (r: Result<Vec<PDFPages<PDFName>>, Error>)
    ensures
        r is Ok,
        ranges_fresh(is@) ==> selections_view(r->Ok_0@) == grouped(is@),
{
    let mut out: Vec<PDFPages<PDFName>> = Vec::new();
    let mut i: usize = 0;
    assert(is@.subrange(0, 0) =~= Seq::<InputElement>::empty());
    assert(selections_view(out@) =~= Seq::<(Seq<char>, Seq<(usize, usize)>)>::empty());
    while i < is.len()
        invariant
            0 <= i <= is@.len(),
            ranges_fresh(is@) ==> selections_view(out@) == grouped(is@.subrange(0, i as int)),
        decreases is@.len() - i,
    {
        let ghost before = out@;
        let ghost pre = is@.subrange(0, i + 1);
        assert(pre.subrange(0, pre.len() - 1) =~= is@.subrange(0, i as int));
        match &is[i] {
            InputElement::File(p) => {
                let np = PDFPages::new(PDFName::new(p.as_str()));
                assert(np.page_ranges@ =~= Seq::<(usize, usize)>::empty());
                out.push(np);
                assert(selections_view(out@) =~= selections_view(before).push((p@, Seq::empty())));
            },
            InputElement::PageRange(range) => {
                let n = out.len();
                if n > 0 {
                    let mut last = out.pop().unwrap();
                    let ghost prior = last.page_ranges@;
                    last.push_range(range);
                    proof {
                        if !range@.exhausted {
                            assert(last.page_ranges@ =~= prior.push((range@.start, range@.end)));
                        }
                    }
                    out.push(last);
                    proof {
                        if ranges_fresh(is@) {
                            assert(is@[i as int] matches InputElement::PageRange(r) ==> !r@.exhausted);
                            let g = selections_view(before);
                            assert(selections_view(out@) =~= g.update(
                                g.len() - 1,
                                (g[g.len() - 1].0, g[g.len() - 1].1.push((range@.start, range@.end))),
                            ));
                        }
                    }
                }
            },
        }
        i = i + 1;
    }
    assert(is@.subrange(0, is@.len() as int) =~= is@);
    Ok(out)
}

/// Settles the output file and groups the remaining tokens.
///
/// An explicit `output` is the output file; without one the last token is, and it must
/// be a file ([`Error::NoOutput`] otherwise, [`Error::NoInput`] when there is no token).
pub fn normalize_inputs(inputs: Vec<InputElement>, output: Option<String>) -> (r: Result<InOut<PDFName>, Error>)
    ensures
        match output {
            Some(o) => r matches Ok(io) && io.outfile.0@ == o@ && (ranges_fresh(inputs@)
                ==> selections_view(io.inputs@) == grouped(inputs@)),
            None => if inputs@.len() == 0 {
                r == Err::<InOut<PDFName>, Error>(Error::NoInput)
            } else {
                match inputs@.last() {
                    InputElement::File(p) => r matches Ok(io) && io.outfile.0@ == p@ && (
                    ranges_fresh(inputs@) ==> selections_view(io.inputs@) == grouped(
                        inputs@.drop_last(),
                    )),
                    InputElement::PageRange(_) => r == Err::<InOut<PDFName>, Error>(
                        Error::NoOutput,
                    ),
                }
            },
        },
{
    let mut inputs = inputs;
    let outfile = match output {
        Some(o) => PDFName(o),
        None => {
            let ghost all = inputs@;
            match inputs.pop() {
                None => {
                    return Err(Error::NoInput);
                },
                Some(InputElement::File(p)) => {
                    assert(inputs@ == all.drop_last());
                    assert(ranges_fresh(all) ==> ranges_fresh(inputs@));
                    PDFName(p)
                },
                Some(InputElement::PageRange(_)) => {
                    return Err(Error::NoOutput);
                },
            }
        },
    };
    let grouped_inputs = group_inputs(&inputs)?;
    Ok(InOut { inputs: grouped_inputs, outfile })
}

} // verus!

verus! {

/// A command of the tool.
#[derive(Debug)]
pub enum Command {
    /// Concatenate the selected pages of the inputs into the output.
    Sel(InOut<PDFName>),
    /// Interleave the inputs (not available).
    Zip(InOut<PDFName>),
    /// Write each page of each input to a file of its own.
    Burst(Vec<PDFName>),
    /// Show the trailer information of each input.
    Info(Vec<PDFName>),
}

} // verus!

verus! {

/// `n` between double quotes.
pub open spec fn quoted(n: Seq<char>) -> Seq<char> {
    seq!['"'] + n + seq!['"']
}

/// Each range as ` N-M`, in order.
pub open spec fn ranges_text(rs: Seq<(usize, usize)>) -> Seq<char>
    decreases rs.len(),
{
    if rs.len() == 0 {
        Seq::empty()
    } else {
        let r = rs[rs.len() - 1];
        ranges_text(rs.subrange(0, rs.len() - 1)) + seq![' '] + decimal(r.0 as nat) + seq!['-']
            + decimal(r.1 as nat)
    }
}

/// A selection as ` "file"` followed by its ranges.
pub open spec fn selection_text(p: PDFPages<PDFName>) -> Seq<char> {
    seq![' '] + quoted(p.file.0@) + ranges_text(p.page_ranges@)
}

/// The selections one after the other.
pub open spec fn selections_text(ps: Seq<PDFPages<PDFName>>) -> Seq<char>
    decreases ps.len(),
{
    if ps.len() == 0 {
        Seq::empty()
    } else {
        selections_text(ps.subrange(0, ps.len() - 1)) + selection_text(ps[ps.len() - 1])
    }
}

/// The selections followed by ` output "file"`.
pub open spec fn in_out_text(io: InOut<PDFName>) -> Seq<char> {
    selections_text(io.inputs@) + seq![' ', 'o', 'u', 't', 'p', 'u', 't', ' '] + quoted(io.outfile.0@)
}

/// Each name as ` "file"`, in order.
pub open spec fn names_text(ns: Seq<PDFName>) -> Seq<char>
    decreases ns.len(),
{
    if ns.len() == 0 {
        Seq::empty()
    } else {
        names_text(ns.subrange(0, ns.len() - 1)) + seq![' '] + quoted(ns[ns.len() - 1].0@)
    }
}

/// A command as it is written on the command line, after the program's name.
pub open spec fn command_text(c: Command) -> Seq<char> {
    seq!['p', 'a', 'd', 'f', 'o', 'o', 't', ' '] + match c {
        Command::Sel(io) => seq!['s', 'e', 'l'] + in_out_text(io),
        Command::Zip(io) => seq!['z', 'i', 'p'] + in_out_text(io),
        Command::Burst(ns) => seq!['b', 'u', 'r', 's', 't'] + names_text(ns@),
        Command::Info(ns) => seq!['i', 'n', 'f', 'o'] + names_text(ns@),
    }
}

fn push_str_chars(out: &mut Vec<char>, s: &str)
    ensures
        final(out)@ == old(out)@ + s@,
{
    let ghost start = out@;
    for c in it: s.chars()
        invariant
            out@ == start + it.seq().subrange(0, it.index() as int),
    {
        out.push(c);
        assert(out@ =~= start + it.seq().subrange(0, it.index() + 1));
    }
    assert(out@ =~= start + s@);
}

fn push_quoted(out: &mut Vec<char>, n: &PDFName)
    ensures
        final(out)@ == old(out)@ + quoted(n.0@),
{
    out.push('"');
    push_str_chars(out, n.0.as_str());
    out.push('"');
    assert(out@ =~= old(out)@ + quoted(n.0@));
}

fn push_selection(out: &mut Vec<char>, p: &PDFPages<PDFName>)
    ensures
        final(out)@ == old(out)@ + selection_text(*p),
{
    out.push(' ');
    push_quoted(out, &p.file);
    let ghost head = out@;
    let mut i: usize = 0;
    assert(p.page_ranges@.subrange(0, 0) =~= Seq::<(usize, usize)>::empty());
    assert(head =~= head + ranges_text(p.page_ranges@.subrange(0, 0)));
    while i < p.page_ranges.len()
        invariant
            0 <= i <= p.page_ranges@.len(),
            out@ == head + ranges_text(p.page_ranges@.subrange(0, i as int)),
        decreases p.page_ranges@.len() - i,
    {
        let (fr, to) = p.page_ranges[i];
        let ghost before = out@;
        out.push(' ');
        push_decimal(out, fr as u64);
        out.push('-');
        push_decimal(out, to as u64);
        let ghost pre = p.page_ranges@.subrange(0, i + 1);
        assert(pre.subrange(0, pre.len() - 1) =~= p.page_ranges@.subrange(0, i as int));
        i = i + 1;
        assert(out@ =~= head + ranges_text(p.page_ranges@.subrange(0, i as int)));
    }
    assert(p.page_ranges@.subrange(0, p.page_ranges@.len() as int) =~= p.page_ranges@);
    assert(out@ =~= old(out)@ + selection_text(*p));
}

fn push_names(out: &mut Vec<char>, ns: &Vec<PDFName>)
    ensures
        final(out)@ == old(out)@ + names_text(ns@),
{
    let ghost head = out@;
    let mut i: usize = 0;
    assert(ns@.subrange(0, 0) =~= Seq::<PDFName>::empty());
    assert(head =~= head + names_text(ns@.subrange(0, 0)));
    while i < ns.len()
        invariant
            0 <= i <= ns@.len(),
            out@ == head + names_text(ns@.subrange(0, i as int)),
        decreases ns@.len() - i,
    {
        out.push(' ');
        push_quoted(out, &ns[i]);
        let ghost pre = ns@.subrange(0, i + 1);
        assert(pre.subrange(0, pre.len() - 1) =~= ns@.subrange(0, i as int));
        i = i + 1;
        assert(out@ =~= head + names_text(ns@.subrange(0, i as int)));
    }
    assert(ns@.subrange(0, ns@.len() as int) =~= ns@);
}

fn push_in_out(out: &mut Vec<char>, io: &InOut<PDFName>)
    ensures
        final(out)@ == old(out)@ + in_out_text(*io),
{
    let ghost head = out@;
    let mut i: usize = 0;
    assert(io.inputs@.subrange(0, 0) =~= Seq::<PDFPages<PDFName>>::empty());
    assert(head =~= head + selections_text(io.inputs@.subrange(0, 0)));
    while i < io.inputs.len()
        invariant
            0 <= i <= io.inputs@.len(),
            out@ == head + selections_text(io.inputs@.subrange(0, i as int)),
        decreases io.inputs@.len() - i,
    {
        push_selection(out, &io.inputs[i]);
        let ghost pre = io.inputs@.subrange(0, i + 1);
        assert(pre.subrange(0, pre.len() - 1) =~= io.inputs@.subrange(0, i as int));
        i = i + 1;
        assert(out@ =~= head + selections_text(io.inputs@.subrange(0, i as int)));
    }
    assert(io.inputs@.subrange(0, io.inputs@.len() as int) =~= io.inputs@);
    out.push(' ');
    out.push('o');
    out.push('u');
    out.push('t');
    out.push('p');
    out.push('u');
    out.push('t');
    out.push(' ');
    push_quoted(out, &io.outfile);
    assert(out@ =~= head + in_out_text(*io));
}

impl PDFName {
    /// The name between double quotes.
    pub fn text(&self) -> (r: String)
        ensures
            r@ == quoted(self.0@),
    {
        let mut out: Vec<char> = Vec::new();
        push_quoted(&mut out, self);
        assert(out@ =~= quoted(self.0@));
        string_of(out)
    }
}

impl PDFPages<PDFName> {
    /// The selection as ` "file"` followed by ` N-M` for each range.
    pub fn text(&self) -> (r: String)
        ensures
            r@ == selection_text(*self),
    {
        let mut out: Vec<char> = Vec::new();
        push_selection(&mut out, self);
        assert(out@ =~= selection_text(*self));
        string_of(out)
    }
}

impl InOut<PDFName> {
    /// The selections followed by ` output "file"`.
    pub fn text(&self) -> (r: String)
        ensures
            r@ == in_out_text(*self),
    {
        let mut out: Vec<char> = Vec::new();
        push_in_out(&mut out, self);
        assert(out@ =~= in_out_text(*self));
        string_of(out)
    }
}

impl Command {
    /// The command as it is written on the command line, after the program's name.
    pub fn text(&self) -> (r: String)
        ensures
            r@ == command_text(*self),
    {
        let mut out: Vec<char> = Vec::new();
        out.push('p');
        out.push('a');
        out.push('d');
        out.push('f');
        out.push('o');
        out.push('o');
        out.push('t');
        out.push(' ');
        match self {
            Command::Sel(io) => {
                out.push('s');
                out.push('e');
                out.push('l');
                push_in_out(&mut out, io);
            },
            Command::Zip(io) => {
                out.push('z');
                out.push('i');
                out.push('p');
                push_in_out(&mut out, io);
            },
            Command::Burst(ns) => {
                out.push('b');
                out.push('u');
                out.push('r');
                out.push('s');
                out.push('t');
                push_names(&mut out, ns);
            },
            Command::Info(ns) => {
                out.push('i');
                out.push('n');
                out.push('f');
                out.push('o');
                push_names(&mut out, ns);
            },
        }
        assert(out@ =~= command_text(*self));
        string_of(out)
    }
}

} // verus!
