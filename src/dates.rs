//! Dates as a document's trailer writes them (`D:YYYYMMDDHHmmSS`, with an optional offset
//! such as `+01'00'` or `Z00'00'`), shown for people.

use std::fmt::Write;
use vstd::prelude::*;

use crate::burst::string_of;
use crate::errors::Error;
use crate::input::chars_of;

verus! {

/// The name given to what chrono's `DateTime::parse_from_str` and `format` make of `s`:
/// the date with offset that `s` writes in the layout `parse`, written in the layout `out`.
pub uninterp spec fn offset_date_text(s: Seq<char>, parse: Seq<char>, out: Seq<char>) -> Option<
    Seq<char>,
>;

/// The name given to what chrono's `NaiveDateTime::parse_from_str` and `format` make of
/// `s`: the date without offset that `s` writes in the layout `parse`, written in the
/// layout `out`.
pub uninterp spec fn naive_date_text(s: Seq<char>, parse: Seq<char>, out: Seq<char>) -> Option<
    Seq<char>,
>;

/// Relies on chrono's `DateTime::parse_from_str`, then on its `format` to write the date;
/// none where either fails.
#[verifier::external_body]
fn offset_date(s: &str, parse: &str, out: &str) -> (r: Option<String>)
    ensures
        match r {
            Some(t) => offset_date_text(s@, parse@, out@) == Some(t@),
            None => offset_date_text(s@, parse@, out@) is None,
        },
{
    let d = chrono::DateTime::parse_from_str(s, parse).ok()?;
    let mut t = String::new();
    write!(t, "{}", d.format(out)).ok()?;
    Some(t)
}

/// Relies on chrono's `NaiveDateTime::parse_from_str`, then on its `format` to write the
/// date; none where either fails.
#[verifier::external_body]
fn naive_date(s: &str, parse: &str, out: &str) -> (r: Option<String>)
    ensures
        match r {
            Some(t) => naive_date_text(s@, parse@, out@) == Some(t@),
            None => naive_date_text(s@, parse@, out@) is None,
        },
{
    let d = chrono::NaiveDateTime::parse_from_str(s, parse).ok()?;
    let mut t = String::new();
    write!(t, "{}", d.format(out)).ok()?;
    Some(t)
}

/// `s` without apostrophes and with each `Z` read as `+`, so that an offset written
/// `Z00'00'` or `+01'00'` becomes `+0000` or `+0100`.
pub open spec fn offset_normalized(s: Seq<char>) -> Seq<char>
    decreases s.len(),
{
    if s.len() == 0 {
        Seq::empty()
    } else {
        let rest = offset_normalized(s.subrange(0, s.len() - 1));
        let c = s[s.len() - 1];
        if c == '\'' {
            rest
        } else if c == 'Z' {
            rest.push('+')
        } else {
            rest.push(c)
        }
    }
}

/// The layout in which a trailer writes a date with offset.
pub open spec fn offset_layout() -> Seq<char> {
    seq!['D', ':', '%', 'Y', '%', 'm', '%', 'd', '%', 'H', '%', 'M', '%', 'S', '%', 'z']
}

/// The layout in which a trailer writes a date without offset.
pub open spec fn naive_layout() -> Seq<char> {
    seq!['D', ':', '%', 'Y', '%', 'm', '%', 'd', '%', 'H', '%', 'M', '%', 'S']
}

/// The layout in which a date with offset is shown.
pub open spec fn offset_shown() -> Seq<char> {
    seq!['%', 'a', ',', ' ', '%', 'd', ' ', '%', 'b', ' ', '%', 'Y', ' ', '%', 'T', ' ', '%', 'z']
}

/// The layout in which a date without offset is shown.
pub open spec fn naive_shown() -> Seq<char> {
    seq!['%', 'a', ',', ' ', '%', 'd', ' ', '%', 'b', ' ', '%', 'Y', ' ', '%', 'T']
}

fn chars_into_string(cs: &[char]) -> (r: String)
    ensures
        r@ == cs@,
{
    let mut v: Vec<char> = Vec::new();
    let mut i: usize = 0;
    while i < cs.len()
        invariant
            0 <= i <= cs@.len(),
            v@ == cs@.subrange(0, i as int),
        decreases cs@.len() - i,
    {
        v.push(cs[i]);
        i = i + 1;
        assert(v@ =~= cs@.subrange(0, i as int));
    }
    assert(cs@.subrange(0, cs@.len() as int) =~= cs@);
    string_of(v)
}

fn layout(which: u8) -> (r: String)
    ensures
        which == 0 ==> r@ == offset_layout(),
        which == 1 ==> r@ == naive_layout(),
        which == 2 ==> r@ == offset_shown(),
        which >= 3 ==> r@ == naive_shown(),
{
    let cs: Vec<char> = if which == 0 {
        vec!['D', ':', '%', 'Y', '%', 'm', '%', 'd', '%', 'H', '%', 'M', '%', 'S', '%', 'z']
    } else if which == 1 {
        vec!['D', ':', '%', 'Y', '%', 'm', '%', 'd', '%', 'H', '%', 'M', '%', 'S']
    } else if which == 2 {
        vec!['%', 'a', ',', ' ', '%', 'd', ' ', '%', 'b', ' ', '%', 'Y', ' ', '%', 'T', ' ', '%', 'z']
    } else {
        vec!['%', 'a', ',', ' ', '%', 'd', ' ', '%', 'b', ' ', '%', 'Y', ' ', '%', 'T']
    };
    proof {
        if which == 0 {
            assert(cs@ =~= offset_layout());
        } else if which == 1 {
            assert(cs@ =~= naive_layout());
        } else if which == 2 {
            assert(cs@ =~= offset_shown());
        } else {
            assert(cs@ =~= naive_shown());
        }
    }
    chars_into_string(cs.as_slice())
}

/// What is shown for a trailer date, given what chrono made of it read with an offset
/// (`with_offset`) and read without one (`without_offset`): the first that succeeded.
pub fn choose_date(with_offset: Option<String>, without_offset: Option<String>) -> (r: Result<String, Error>)
    ensures
        match with_offset {
            Some(t) => r == Ok::<String, Error>(t),
            None => match without_offset {
                Some(t) => r == Ok::<String, Error>(t),
                None => r == Err::<String, Error>(Error::BadDate),
            },
        },
{
    match with_offset {
        Some(t) => Ok(t),
        None => match without_offset {
            Some(t) => Ok(t),
            None => Err(Error::BadDate),
        },
    }
}

/// Shows a trailer date, as `Wed, 12 Jul 2017 17:10:35 +0100` where it has an offset and
/// as `Tue, 11 Jul 2017 12:19:31` where it has none; [`Error::BadDate`] where it is no
/// date.
pub fn display_trail_date(s: &str) -> (r: Result<String, Error>)
    ensures
        match offset_date_text(offset_normalized(s@), offset_layout(), offset_shown()) {
            Some(t) => r matches Ok(u) && u@ == t,
            None => match naive_date_text(s@, naive_layout(), naive_shown()) {
                Some(t) => r matches Ok(u) && u@ == t,
                None => r == Err::<String, Error>(Error::BadDate),
            },
        },
{
    let cs = chars_of(s);
    let mut norm: Vec<char> = Vec::new();
    let mut i: usize = 0;
    assert(cs@.subrange(0, 0) =~= Seq::<char>::empty());
    while i < cs.len()
        invariant
            0 <= i <= cs@.len(),
            norm@ == offset_normalized(cs@.subrange(0, i as int)),
        decreases cs@.len() - i,
    {
        let c = cs[i];
        let ghost pre = cs@.subrange(0, i + 1);
        assert(pre.subrange(0, pre.len() - 1) =~= cs@.subrange(0, i as int));
        if c == 'Z' {
            norm.push('+');
        } else if c != '\'' {
            norm.push(c);
        }
        i = i + 1;
    }
    assert(cs@.subrange(0, cs@.len() as int) =~= s@);
    let normalized = string_of(norm);
    let with_offset = offset_date(normalized.as_str(), layout(0).as_str(), layout(2).as_str());
    let without_offset = naive_date(s, layout(1).as_str(), layout(3).as_str());
    choose_date(with_offset, without_offset)
}

} // verus!
