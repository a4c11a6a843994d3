//! Bursting a document into one document per page, with numbered file names.

use vstd::prelude::*;

use crate::errors::Error;
use crate::input::{digits_value, is_digit, PDFName};
use crate::object::Document;
use crate::pages::{doc_value, extract_page, extracted, DocValue};
use crate::select::{page_numbers, page_order, SourceDoc};

verus! {

pub open spec fn pow10(w: nat) -> nat
    decreases w,
{
    if w == 0 {
        1
    } else {
        10 * pow10((w - 1) as nat)
    }
}

/// Whether `w` digits are the fewest that number `n` things from 0: `10^w >= n`, and
/// `10^(w-1) < n` where `w > 0`.
pub open spec fn is_suffix_width(n: nat, w: nat) -> bool {
    pow10(w) >= n && (w == 0 || pow10((w - 1) as nat) < n)
}

proof fn lemma_pow10_monotone(a: nat, b: nat)
    requires
        a <= b,
    ensures
        pow10(a) <= pow10(b),
    decreases b - a,
{
    if a < b {
        lemma_pow10_monotone(a, (b - 1) as nat);
    }
}

/// There is one suffix width for each number of pages.
pub proof fn lemma_suffix_width_unique(n: nat, w1: nat, w2: nat)
    requires
        is_suffix_width(n, w1),
        is_suffix_width(n, w2),
    ensures
        w1 == w2,
{
    if w1 < w2 {
        lemma_pow10_monotone(w1, (w2 - 1) as nat);
    } else if w2 < w1 {
        lemma_pow10_monotone(w2, (w1 - 1) as nat);
    }
}

/// The suffix width of a burst of `n` pages.
pub open spec fn suffix_digits(n: nat) -> nat {
    choose|w: nat| is_suffix_width(n, w)
}

/// The number of digits of the page suffixes of a burst of `n` pages: `ceil(log10(n))`.
pub fn suffix_width(n: u64) -> (w: usize)
    ensures
        is_suffix_width(n as nat, w as nat),
        w == suffix_digits(n as nat),
{
    let mut w: usize = 0;
    let mut p: u128 = 1;
    while p < n as u128
        invariant
            p == pow10(w as nat),
            w == 0 || pow10((w - 1) as nat) < n,
            w <= 20,
        decreases 20 - w,
    {
        proof {
            if w >= 20 {
                reveal_with_fuel(pow10, 21);
                assert(pow10(20) == 100000000000000000000nat);
                assert(false);
            }
        }
        p = p * 10;
        w = w + 1;
    }
    proof {
        let c = choose|v: nat| is_suffix_width(n as nat, v);
        assert(is_suffix_width(n as nat, w as nat));
        lemma_suffix_width_unique(n as nat, c, w as nat);
    }
    w
}

/// The decimal digit `d`.
pub open spec fn digit_char(d: nat) -> char {
    if d == 0 {
        '0'
    } else if d == 1 {
        '1'
    } else if d == 2 {
        '2'
    } else if d == 3 {
        '3'
    } else if d == 4 {
        '4'
    } else if d == 5 {
        '5'
    } else if d == 6 {
        '6'
    } else if d == 7 {
        '7'
    } else if d == 8 {
        '8'
    } else {
        '9'
    }
}

/// The decimal digits of `k`, without leading zeros.
pub open spec fn decimal(k: nat) -> Seq<char>
    decreases k,
{
    if k < 10 {
        seq![digit_char(k)]
    } else {
        decimal(k / 10).push(digit_char(k % 10))
    }
}

/// The decimal digits of `k`, left-padded with zeros to at least `w` digits.
pub open spec fn padded(k: nat, w: nat) -> Seq<char> {
    let d = decimal(k);
    if d.len() >= w {
        d
    } else {
        Seq::new((w - d.len()) as nat, |i: int| '0') + d
    }
}

/// The file name of page `k` (counted from 0) of a burst of `stem`.
pub open spec fn burst_name(stem: Seq<char>, k: nat, w: nat) -> Seq<char> {
    stem + seq!['_'] + padded(k, w) + seq!['.', 'p', 'd', 'f']
}

fn digit(d: u64) -> (c: char)
    requires
        d < 10,
    ensures
        c == digit_char(d as nat),
{
    if d == 0 {
        '0'
    } else if d == 1 {
        '1'
    } else if d == 2 {
        '2'
    } else if d == 3 {
        '3'
    } else if d == 4 {
        '4'
    } else if d == 5 {
        '5'
    } else if d == 6 {
        '6'
    } else if d == 7 {
        '7'
    } else if d == 8 {
        '8'
    } else {
        '9'
    }
}

pub(crate) fn push_decimal(out: &mut Vec<char>, k: u64)
    ensures
        final(out)@ == old(out)@ + decimal(k as nat),
    decreases k,
{
    if k < 10 {
        out.push(digit(k));
        assert(final(out)@ =~= old(out)@ + decimal(k as nat));
    } else {
        push_decimal(out, k / 10);
        out.push(digit(k % 10));
        assert(out@ =~= old(out)@ + decimal(k as nat));
    }
}

/// Relies on `String::from_iter`: the string of the given characters, in order.
#[verifier::external_body]
pub(crate) fn string_of(cs: Vec<char>) -> (r: String)
    ensures
        r@ == cs@,
{
    String::from_iter(cs)
}

/// The file name of page `k` (counted from 0) of a burst of `stem` with `w`-digit
/// suffixes.
pub fn burst_file_name(stem: &str, k: u64, w: usize) -> (r: String)
    ensures
        r@ == burst_name(stem@, k as nat, w as nat),
{
    let mut cs: Vec<char> = Vec::new();
    for c in it: stem.chars()
        invariant
            cs@ == it.seq().subrange(0, it.index() as int),
    {
        cs.push(c);
    }
    assert(cs@ == stem@);
    cs.push('_');
    let mut digits: Vec<char> = Vec::new();
    push_decimal(&mut digits, k);
    assert(digits@ =~= decimal(k as nat));
    let mut z: usize = digits.len();
    let ghost dl = digits@.len();
    let ghost base = cs@;
    while z < w
        invariant
            dl == decimal(k as nat).len(),
            dl <= z,
            z <= w || z == dl,
            cs@ == base + Seq::new((z - dl) as nat, |i: int| '0'),
        decreases w - z,
    {
        cs.push('0');
        z = z + 1;
        assert(cs@ =~= base + Seq::new((z - dl) as nat, |i: int| '0'));
    }
    let ghost zeros = cs@;
    let mut j: usize = 0;
    while j < digits.len()
        invariant
            0 <= j <= digits@.len(),
            cs@ == zeros + digits@.subrange(0, j as int),
        decreases digits@.len() - j,
    {
        cs.push(digits[j]);
        j = j + 1;
        assert(cs@ =~= zeros + digits@.subrange(0, j as int));
    }
    cs.push('.');
    cs.push('p');
    cs.push('d');
    cs.push('f');
    proof {
        assert(digits@.subrange(0, digits@.len() as int) =~= digits@);
        if dl >= w {
            assert(Seq::new((z - dl) as nat, |i: int| '0') =~= Seq::<char>::empty());
        }
        assert(cs@ =~= burst_name(stem@, k as nat, w as nat));
    }
    string_of(cs)
}

} // verus!

verus! {

/// The name given to what `std::path::Path::file_stem` returns for a path.
pub uninterp spec fn file_stem_of(path: Seq<char>) -> Option<Seq<char>>;

/// Relies on `std::path::Path::file_stem`: the final component of the path without its
/// extension, none where the path has no final component.
#[verifier::external_body]
fn file_stem(path: &str) -> (r: Option<String>)
    ensures
        match r {
            Some(s) => file_stem_of(path@) == Some(s@),
            None => file_stem_of(path@) is None,
        },
{
    std::path::Path::new(path).file_stem().map(|s| s.to_string_lossy().into_owned())
}

/// Whether the first `k` pages of `src`, in ascending order of page number, extract
/// without error.
pub open spec fn extract_ok_below(src: &SourceDoc, k: int) -> bool {
    forall|j: int|
        0 <= j < k ==> #[trigger] extracted(&src.doc, src.pages@, page_order(src.pages@)[j]) is Ok
}

/// What bursting `src` with the file stem `stem` returns: one document per page, in
/// ascending order of page number, with its name; or [`Error::NoPages`]; or the error of
/// the first page that fails to extract.
pub open spec fn burst_result(stem: Seq<char>, src: &SourceDoc, r: Result<Vec<(String, Document)>, Error>) -> bool {
    let ns = page_order(src.pages@);
    match r {
        Ok(v) => ns.len() > 0 && v@.len() == ns.len() && forall|k: int|
            0 <= k < v@.len() ==> {
                &&& (#[trigger] v@[k]).0@ == burst_name(stem, k as nat, suffix_digits(ns.len()))
                &&& extracted(&src.doc, src.pages@, ns[k]) == Ok::<DocValue, Error>(
                    doc_value(&v@[k].1),
                )
            },
        Err(e) => if ns.len() == 0 {
            e == Error::NoPages
        } else {
            exists|k: int|
                0 <= k < ns.len() && extract_ok_below(src, k) && #[trigger] extracted(
                    &src.doc,
                    src.pages@,
                    ns[k],
                ) == Err::<DocValue, Error>(e)
        },
    }
}

/// One standalone document per page of `src`, in ascending order of page number, each
/// with its file name: `stem`, `_`, the page's position counted from 0 and padded with
/// zeros to `ceil(log10(count))` digits, and `.pdf`.
///
/// Fails with [`Error::NoPages`] where `src` has no page, and otherwise with the error of
/// the first page that fails to extract; then nothing is returned.
pub fn burst_pages(stem: &str, src: &SourceDoc) -> (r: Result<Vec<(String, Document)>, Error>)
    ensures
        burst_result(stem@, src, r),
{
    let ns = page_numbers(&src.pages);
    if ns.len() == 0 {
        return Err(Error::NoPages);
    }
    let count: u64 = ns.len() as u64;
    let w = suffix_width(count);
    let mut out: Vec<(String, Document)> = Vec::new();
    let mut k: usize = 0;
    while k < ns.len()
        invariant
            ns@ == page_order(src.pages@),
            count == ns@.len(),
            w == suffix_digits(count as nat),
            0 <= k <= ns@.len(),
            out@.len() == k,
            extract_ok_below(src, k as int),
            forall|j: int|
                0 <= j < k ==> {
                    &&& (#[trigger] out@[j]).0@ == burst_name(stem@, j as nat, w as nat)
                    &&& extracted(&src.doc, src.pages@, ns@[j]) == Ok::<DocValue, Error>(
                        doc_value(&out@[j].1),
                    )
                },
        decreases ns@.len() - k,
    {
        let doc = match extract_page(&src.doc, &src.pages, ns[k]) {
            Ok(d) => d,
            Err(e) => {
                assert(extracted(&src.doc, src.pages@, ns@[k as int]) == Err::<DocValue, Error>(e));
                return Err(e);
            },
        };
        let name = burst_file_name(stem, k as u64, w);
        out.push((name, doc));
        k = k + 1;
    }
    Ok(out)
}

/// Bursts `src`, loaded from the file `name`, into one document per page, named after the
/// file's stem as [`burst_pages`] says.
pub fn burst(name: &PDFName, src: &SourceDoc) -> (r: Result<Vec<(String, Document)>, Error>)
    ensures
        match file_stem_of(name.0@) {
            Some(stem) => burst_result(stem, src, r),
            None => r == Err::<Vec<(String, Document)>, Error>(Error::InputParse),
        },
{
    match file_stem(name.0.as_str()) {
        Some(stem) => burst_pages(stem.as_str(), src),
        None => Err(Error::InputParse),
    }
}

} // verus!

verus! {

proof fn lemma_decimal_len(k: nat, w: nat)
    requires
        w >= 1,
        k < pow10(w),
    ensures
        1 <= decimal(k).len() <= w,
    decreases k,
{
    if k >= 10 {
        if w == 1 {
            assert(pow10(1) == 10) by {
                reveal_with_fuel(pow10, 2);
            }
        }
        let p = pow10((w - 1) as nat);
        assert(pow10(w) == 10 * p);
        assert(k / 10 < p) by (nonlinear_arith)
            requires
                k < 10 * p,
        ;
        lemma_decimal_len(k / 10, (w - 1) as nat);
    }
}

proof fn lemma_digit_value(d: nat)
    requires
        d < 10,
    ensures
        is_digit(digit_char(d)),
        (digit_char(d) as u32) - ('0' as u32) == d,
{
}

proof fn lemma_decimal_value(k: nat)
    ensures
        digits_value(decimal(k)) == k,
        forall|i: int| 0 <= i < decimal(k).len() ==> is_digit(#[trigger] decimal(k)[i]),
    decreases k,
{
    if k < 10 {
        lemma_digit_value(k);
        let d = decimal(k);
        assert(d.len() == 1);
        assert(d.subrange(0, 0) =~= Seq::<char>::empty());
        assert(digits_value(Seq::<char>::empty()) == 0);
        assert(d[0] == digit_char(k));
        assert(digits_value(d) == digits_value(d.subrange(0, 0)) * 10 + ((d[0] as u32) - ('0' as u32)) as nat);
    } else {
        lemma_decimal_value(k / 10);
        lemma_digit_value(k % 10);
        let d = decimal(k);
        assert(d.subrange(0, d.len() - 1) =~= decimal(k / 10));
        assert(d[d.len() - 1] == digit_char(k % 10));
        assert(digits_value(d) == digits_value(decimal(k / 10)) * 10 + ((d[d.len() - 1] as u32) - ('0' as u32)) as nat);
        assert(k == (k / 10) * 10 + k % 10);
    }
}

proof fn lemma_zeros_value(z: nat, d: Seq<char>)
    ensures
        digits_value(Seq::new(z, |i: int| '0') + d) == digits_value(d),
    decreases z + d.len(), d.len(),
{
    let s = Seq::new(z, |i: int| '0') + d;
    if d.len() > 0 {
        let p = d.subrange(0, d.len() - 1);
        assert(s.subrange(0, s.len() - 1) =~= Seq::new(z, |i: int| '0') + p);
        lemma_zeros_value(z, p);
    } else if z > 0 {
        assert(s.subrange(0, s.len() - 1) =~= Seq::new((z - 1) as nat, |i: int| '0') + d);
        lemma_zeros_value((z - 1) as nat, d);
        assert(s[s.len() - 1] == '0');
    } else {
        assert(s =~= d);
    }
}

proof fn lemma_padded(k: nat, w: nat)
    requires
        w >= 1,
        k < pow10(w),
    ensures
        padded(k, w).len() == w,
        digits_value(padded(k, w)) == k,
{
    lemma_decimal_len(k, w);
    lemma_decimal_value(k);
    let d = decimal(k);
    if d.len() < w {
        lemma_zeros_value((w - d.len()) as nat, d);
    }
}

/// The names of a burst of `n` pages are pairwise distinct and all of one length.
pub proof fn lemma_burst_names(stem: Seq<char>, n: nat, j: nat, k: nat)
    requires
        j < n,
        k < n,
    ensures
        burst_name(stem, j, suffix_digits(n)).len() == burst_name(stem, k, suffix_digits(n)).len(),
        j != k ==> burst_name(stem, j, suffix_digits(n)) != burst_name(stem, k, suffix_digits(n)),
{
    let w = suffix_digits(n);
    assert(exists|v: nat| is_suffix_width(n, v)) by {
        lemma_suffix_width_exists(n);
    }
    assert(is_suffix_width(n, w));
    if w == 0 {
        assert(pow10(0) == 1);
        assert(j == 0 && k == 0);
    } else {
        lemma_padded(j, w);
        lemma_padded(k, w);
        let a = burst_name(stem, j, w);
        let b = burst_name(stem, k, w);
        if j != k && a == b {
            assert(padded(j, w) =~= a.subrange((stem.len() + 1) as int, (stem.len() + 1 + w) as int));
            assert(padded(k, w) =~= b.subrange((stem.len() + 1) as int, (stem.len() + 1 + w) as int));
        }
    }
}

proof fn lemma_suffix_width_exists(n: nat)
    ensures
        exists|v: nat| is_suffix_width(n, v),
    decreases n,
{
    if n <= 1 {
        assert(is_suffix_width(n, 0));
    } else {
        let m = ((n + 9) / 10) as nat;
        lemma_suffix_width_exists(m);
        let v = choose|v: nat| is_suffix_width(m, v);
        assert(pow10(v + 1) == 10 * pow10(v));
        if v > 0 {
            assert(pow10(v) == 10 * pow10((v - 1) as nat));
        }
        assert(pow10(v + 1) >= n) by (nonlinear_arith)
            requires
                pow10(v) >= m,
                m == (n + 9) / 10,
                pow10(v + 1) == 10 * pow10(v),
        ;
        if v == 0 {
            assert(m <= 1);
            assert(n <= 10);
            assert(pow10(0) == 1);
            assert(is_suffix_width(n, 1));
        } else {
            assert(pow10(v) < n) by (nonlinear_arith)
                requires
                    pow10((v - 1) as nat) < m,
                    m == (n + 9) / 10,
                    pow10(v) == 10 * pow10((v - 1) as nat),
            ;
            assert(is_suffix_width(n, v + 1));
        }
    }
}

} // verus!
