//! Selecting page ranges from several sources and concatenating them into one document.

use std::collections::BTreeMap;
use std::ops::RangeInclusive;
use vstd::prelude::*;
use vstd::std_specs::btree::increasing_seq;
use vstd::std_specs::cmp::OrdSpec;
use vstd::std_specs::iter::IteratorSpec;

use crate::errors::Error;
use crate::object::{Document, Object, ObjectId, Value};
use crate::pages::{
    append_page, appended, doc_value, finish, finished, pages_id, pages_node,
    reserved, DocValue,
};
use crate::tree::{unfold, values_of};

verus! {

/// The lower bound of a range that has not been iterated to exhaustion.
pub assume_specification<Idx>[ RangeInclusive::<Idx>::start ](r: &RangeInclusive<Idx>) -> (res: &Idx)
    ensures
        !r@.exhausted ==> *res == r@.start,
;

/// The upper bound of a range that has not been iterated to exhaustion.
pub assume_specification<Idx>[ RangeInclusive::<Idx>::end ](r: &RangeInclusive<Idx>) -> (res: &Idx)
    ensures
        !r@.exhausted ==> *res == r@.end,
;

/// A loaded source document with its page index, from page number to page object.
#[derive(Debug)]
pub struct SourceDoc {
    pub doc: Document,
    pub pages: BTreeMap<u32, ObjectId>,
}

/// A file, or a loaded document, with the inclusive page ranges selected from it. An
/// empty list of ranges selects every page.
#[derive(Debug)]
pub struct PDFPages<A> {
    pub file: A,
    pub page_ranges: Vec<(usize, usize)>,
}

impl<A> PDFPages<A> {
    /// `file` with every page selected.
    pub fn new(file: A) -> (r: PDFPages<A>)
        ensures
            r.file == file,
            r.page_ranges@.len() == 0,
    {
        PDFPages { file, page_ranges: Vec::new() }
    }

    /// Appends `range` to the selected ranges.
    pub fn push_range(&mut self, range: &RangeInclusive<usize>)
        ensures
            final(self).file == old(self).file,
            final(self).page_ranges@.len() == old(self).page_ranges@.len() + 1,
            final(self).page_ranges@.subrange(0, old(self).page_ranges@.len() as int)
                == old(self).page_ranges@,
            !range@.exhausted ==> final(self).page_ranges@.last() == (range@.start, range@.end),
    {
        let ghost before = self.page_ranges@;
        self.page_ranges.push((*range.start(), *range.end()));
        assert(self.page_ranges@.subrange(0, before.len() as int) =~= before);
    }

    /// The same selection over `f(file)`.
    pub fn map<B, F: FnOnce(A) -> B>(self, f: F) -> (r: PDFPages<B>)
        requires
            f.requires((self.file,)),
        ensures
            f.ensures((self.file,), r.file),
            r.page_ranges == self.page_ranges,
    {
        let page_ranges = self.page_ranges;
        let file = f(self.file);
        PDFPages { file, page_ranges }
    }

    /// The same selection over `f(file)`, or the error of `f`.
    pub fn traverse<B, F: FnOnce(A) -> Result<B, Error>>(self, f: F) -> (r: Result<PDFPages<B>, Error>)
        requires
            f.requires((self.file,)),
        ensures
            match r {
                Ok(p) => f.ensures((self.file,), Ok::<B, Error>(p.file)) && p.page_ranges
                    == self.page_ranges,
                Err(e) => f.ensures((self.file,), Err::<B, Error>(e)),
            },
    {
        let page_ranges = self.page_ranges;
        match f(self.file) {
            Ok(file) => Ok(PDFPages { file, page_ranges }),
            Err(e) => Err(e),
        }
    }
}

// ---------------------------------------------------------------------------------------
// Page index bounds.
// ---------------------------------------------------------------------------------------

/// Whether `k` is the least page number of `pages`.
pub open spec fn is_least(pages: Map<u32, ObjectId>, k: u32) -> bool {
    pages.contains_key(k) && forall|j: u32| pages.contains_key(j) ==> k <= j
}

/// Whether `k` is the greatest page number of `pages`.
pub open spec fn is_greatest(pages: Map<u32, ObjectId>, k: u32) -> bool {
    pages.contains_key(k) && forall|j: u32| pages.contains_key(j) ==> j <= k
}

/// The least and the greatest page number of `pages`, where it has any.
pub open spec fn bounds(pages: Map<u32, ObjectId>) -> Option<(u32, u32)> {
    if pages.len() == 0 {
        None
    } else {
        Some((choose|k: u32| is_least(pages, k), choose|k: u32| is_greatest(pages, k)))
    }
}

/// Relies on itertools' `minmax` over the keys of the map: no result for no keys, else the
/// least and the greatest key.
#[verifier::external_body]
fn key_bounds(pages: &BTreeMap<u32, ObjectId>) -> (r: Option<(u32, u32)>)
    ensures
        r is None <==> pages@.len() == 0,
        r matches Some((lo, hi)) ==> is_least(pages@, lo) && is_greatest(pages@, hi),
{
    match itertools::Itertools::minmax(pages.keys()) {
        itertools::MinMaxResult::NoElements => None,
        itertools::MinMaxResult::OneElement(k) => Some((*k, *k)),
        itertools::MinMaxResult::MinMax(lo, hi) => Some((*lo, *hi)),
    }
}

/// The range from the least to the greatest page number of `pages`, or
/// [`Error::NoPages`] where there is no page.
pub fn page_range(pages: &BTreeMap<u32, ObjectId>) -> (r: Result<RangeInclusive<u32>, Error>)
    ensures
        match r {
            Ok(range) => bounds(pages@) == Some((range@.start, range@.end)) && !range@.exhausted
                && is_least(pages@, range@.start) && is_greatest(pages@, range@.end),
            Err(e) => bounds(pages@) is None && e == Error::NoPages,
        },
{
    match key_bounds(pages) {
        None => Err(Error::NoPages),
        Some((lo, hi)) => {
            assert(is_least(pages@, choose|k: u32| is_least(pages@, k)));
            assert(is_greatest(pages@, choose|k: u32| is_greatest(pages@, k)));
            Ok(RangeInclusive::new(lo, hi))
        },
    }
}

} // verus!

verus! {

// ---------------------------------------------------------------------------------------
// Concatenation: the model.
// ---------------------------------------------------------------------------------------

/// The state of a concatenation: the destination so far, its pages in order, and the
/// `MediaBox` of the first page.
pub struct SelState {
    pub doc: DocValue,
    pub kids: Seq<ObjectId>,
    pub media_box: Option<Value>,
}

/// Appends page `n` of `src`.
pub open spec fn select_one(st: SelState, src: &SourceDoc, n: int) -> Result<SelState, Error> {
    if 0 <= n <= u32::MAX && src.pages@.contains_key(n as u32) {
        match appended(st.doc, pages_id(), &src.doc, src.pages@[n as u32]) {
            Err(e) => Err(e),
            Ok((d, pid, mb)) => Ok(
                SelState {
                    doc: d,
                    kids: st.kids.push(pid),
                    media_box: if st.media_box is Some {
                        st.media_box
                    } else {
                        Some(mb)
                    },
                },
            ),
        }
    } else {
        Err(Error::MissingPage)
    }
}

/// Appends pages `a` to `b` of `src`, in order; none where `a > b`.
pub open spec fn select_range(st: SelState, src: &SourceDoc, a: int, b: int) -> Result<SelState, Error>
    decreases b - a + 1,
{
    if a > b {
        Ok(st)
    } else {
        match select_one(st, src, a) {
            Err(e) => Err(e),
            Ok(s) => select_range(s, src, a + 1, b),
        }
    }
}

/// Appends the pages of each range of `rs`, range after range.
pub open spec fn select_ranges(st: SelState, src: &SourceDoc, rs: Seq<(usize, usize)>) -> Result<SelState, Error>
    decreases rs.len(),
{
    if rs.len() == 0 {
        Ok(st)
    } else {
        match select_range(st, src, rs[0].0 as int, rs[0].1 as int) {
            Err(e) => Err(e),
            Ok(s) => select_ranges(s, src, rs.drop_first()),
        }
    }
}

/// Appends the pages numbered `ns` of `src`, in order.
pub open spec fn select_numbers(st: SelState, src: &SourceDoc, ns: Seq<u32>) -> Result<SelState, Error>
    decreases ns.len(),
{
    if ns.len() == 0 {
        Ok(st)
    } else {
        match select_one(st, src, ns[0] as int) {
            Err(e) => Err(e),
            Ok(s) => select_numbers(s, src, ns.drop_first()),
        }
    }
}

/// Appends the selection of one input: its ranges, or all its pages in ascending order of
/// page number where it has none.
pub open spec fn select_input(st: SelState, input: &PDFPages<SourceDoc>) -> Result<SelState, Error> {
    if input.page_ranges@.len() == 0 {
        select_numbers(st, &input.file, page_order(input.file.pages@))
    } else {
        select_ranges(st, &input.file, input.page_ranges@)
    }
}

/// Appends the selections of the inputs, input after input.
pub open spec fn select_inputs(st: SelState, ins: Seq<PDFPages<SourceDoc>>) -> Result<SelState, Error>
    decreases ins.len(),
{
    if ins.len() == 0 {
        Ok(st)
    } else {
        match select_input(st, &ins[0]) {
            Err(e) => Err(e),
            Ok(s) => select_inputs(s, ins.drop_first()),
        }
    }
}

/// The state at the start: a new document with its Pages node reserved, and no page.
pub open spec fn sel_start() -> SelState {
    SelState { doc: reserved(), kids: Seq::empty(), media_box: None }
}

/// The document made of the selections of `ins`, in order.
pub open spec fn selected(ins: Seq<PDFPages<SourceDoc>>) -> Result<DocValue, Error> {
    if ins.len() == 0 {
        Err(Error::NoInput)
    } else {
        match select_inputs(sel_start(), ins) {
            Err(e) => Err(e),
            Ok(s) => if s.kids.len() == 0 {
                Err(Error::NoPages)
            } else {
                finished(s.doc, pages_id(), s.kids, s.media_box->0)
            },
        }
    }
}

/// The values of an optional object.
pub open spec fn option_view(o: Option<Object>) -> Option<Value> {
    match o {
        Some(x) => Some(x@),
        None => None,
    }
}

/// The state made of a destination, its pages and the first `MediaBox`.
pub open spec fn sel_state(dest: &Document, kids: Seq<ObjectId>, mb: Option<Object>) -> SelState {
    SelState { doc: doc_value(dest), kids, media_box: option_view(mb) }
}

fn select_range_into(
    dest: &mut Document,
    kids: &mut Vec<ObjectId>,
    mb: &mut Option<Object>,
    src: &SourceDoc,
    a: u64,
    b: u64,
) -> (r: Result<(), Error>)
    requires
        old(dest).wf(),
        1 <= old(dest).max_id,
        old(kids)@.len() > 0 ==> *old(mb) is Some,
    ensures
        final(dest).wf(),
        1 <= final(dest).max_id,
        final(kids)@.len() > 0 ==> *final(mb) is Some,
        match r {
            Ok(()) => select_range(sel_state(old(dest), old(kids)@, *old(mb)), src, a as int, b as int)
                == Ok::<SelState, Error>(sel_state(final(dest), final(kids)@, *final(mb))),
            Err(e) => select_range(sel_state(old(dest), old(kids)@, *old(mb)), src, a as int, b as int)
                == Err::<SelState, Error>(e),
        },
{
    let ghost goal = select_range(sel_state(dest, kids@, *mb), src, a as int, b as int);
    let pages_node_id: ObjectId = (1u32, 0u16);
    let mut n: u64 = a;
    while n <= b
        invariant
            dest.wf(),
            1 <= dest.max_id,
            kids@.len() > 0 ==> *mb is Some,
            pages_node_id == pages_id(),
            a <= n,
            goal == select_range(sel_state(old(dest), old(kids)@, *old(mb)), src, a as int, b as int),
            select_range(sel_state(dest, kids@, *mb), src, n as int, b as int) == goal,
        decreases b - n,
    {
        if n > u32::MAX as u64 {
            return Err(Error::MissingPage);
        }
        let ghost old_dest_at_step = *dest;
        let ghost old_kids_at_step = kids@;
        let ghost old_mb_at_step = *mb;
        let oid = match src.pages.get(&(n as u32)) {
            Some(o) => *o,
            None => {
                return Err(Error::MissingPage);
            },
        };
        let (pid, m) = match append_page(dest, pages_node_id, &src.doc, oid) {
            Ok(x) => x,
            Err(e) => {
                return Err(e);
            },
        };
        let ghost st = sel_state(&old_dest_at_step, old_kids_at_step, old_mb_at_step);

        kids.push(pid);
        if mb.is_none() {
            *mb = Some(m);
        }
        assert(select_one(st, src, n as int) == Ok::<SelState, Error>(sel_state(dest, kids@, *mb)));
        if n == b {
            return Ok(());
        }
        n = n + 1;
    }
    Ok(())
}

fn select_input_into(
    dest: &mut Document,
    kids: &mut Vec<ObjectId>,
    mb: &mut Option<Object>,
    input: &PDFPages<SourceDoc>,
) -> (r: Result<(), Error>)
    requires
        old(dest).wf(),
        1 <= old(dest).max_id,
        old(kids)@.len() > 0 ==> *old(mb) is Some,
    ensures
        final(dest).wf(),
        1 <= final(dest).max_id,
        final(kids)@.len() > 0 ==> *final(mb) is Some,
        match r {
            Ok(()) => select_input(sel_state(old(dest), old(kids)@, *old(mb)), input) == Ok::<
                SelState,
                Error,
            >(sel_state(final(dest), final(kids)@, *final(mb))),
            Err(e) => select_input(sel_state(old(dest), old(kids)@, *old(mb)), input) == Err::<
                SelState,
                Error,
            >(e),
        },
{
    let src = &input.file;
    if input.page_ranges.len() == 0 {
        let ns = page_numbers(&src.pages);
        let ghost goal = select_numbers(sel_state(dest, kids@, *mb), src, ns@);
        let mut i: usize = 0;
        assert(ns@.subrange(0, ns@.len() as int) =~= ns@);
        while i < ns.len()
            invariant
                dest.wf(),
                1 <= dest.max_id,
                kids@.len() > 0 ==> *mb is Some,
                ns@ == page_order(src.pages@),
                0 <= i <= ns@.len(),
                goal == select_input(sel_state(old(dest), old(kids)@, *old(mb)), input),
                select_numbers(sel_state(dest, kids@, *mb), src, ns@.subrange(i as int, ns@.len() as int))
                    == goal,
            decreases ns@.len() - i,
        {
            let n = ns[i];
            let ghost st = sel_state(dest, kids@, *mb);
            assert(ns@.subrange(i as int, ns@.len() as int).drop_first() =~= ns@.subrange(i + 1, ns@.len() as int));
            assert(ns@.subrange(i as int, ns@.len() as int)[0] == n);
            match select_range_into(dest, kids, mb, src, n as u64, n as u64) {
                Ok(()) => {
                    assert(select_range(st, src, n as int, n as int) == match select_one(st, src, n as int) {
                        Err(e) => Err(e),
                        Ok(s) => select_range(s, src, n + 1, n as int),
                    });
                },
                Err(e) => {
                    return Err(e);
                },
            }
            i = i + 1;
        }
        assert(ns@.subrange(ns@.len() as int, ns@.len() as int) =~= Seq::<u32>::empty());
        return Ok(());
    }
    let ghost rs = input.page_ranges@;
    let ghost goal = select_ranges(sel_state(dest, kids@, *mb), src, rs);
    assert(rs.subrange(0, rs.len() as int) =~= rs);
    let mut i: usize = 0;
    while i < input.page_ranges.len()
        invariant
            dest.wf(),
            1 <= dest.max_id,
            kids@.len() > 0 ==> *mb is Some,
            rs == input.page_ranges@,
            0 <= i <= rs.len(),
            goal == select_input(sel_state(old(dest), old(kids)@, *old(mb)), input),
            select_ranges(sel_state(dest, kids@, *mb), src, rs.subrange(i as int, rs.len() as int))
                == goal,
        decreases rs.len() - i,
    {
        let (lo, hi) = input.page_ranges[i];
        assert(rs.subrange(i as int, rs.len() as int).drop_first() =~= rs.subrange(i + 1, rs.len() as int));
        match select_range_into(dest, kids, mb, src, lo as u64, hi as u64) {
            Ok(()) => {},
            Err(e) => {
                return Err(e);
            },
        }
        i = i + 1;
    }
    assert(rs.subrange(rs.len() as int, rs.len() as int) =~= Seq::<(usize, usize)>::empty());
    Ok(())
}

/// Concatenates the selected pages of `inputs`, input after input and, within an input,
/// range after range, into one new document.
///
/// Each page is copied as by the page extractor, with everything reachable from it, and
/// becomes the next kid of one shared Pages node. Fails with [`Error::NoInput`] on no
/// input, with [`Error::NoPages`] where nothing is selected, and otherwise with the first
/// error met; nothing of a failed run is returned.
pub fn sel(inputs: &Vec<PDFPages<SourceDoc>>) -> (r: Result<Document, Error>)
    ensures
        match r {
            Ok(d) => selected(inputs@) == Ok::<DocValue, Error>(doc_value(&d)) && d.wf(),
            Err(e) => selected(inputs@) == Err::<DocValue, Error>(e),
        },
{
    if inputs.len() == 0 {
        return Err(Error::NoInput);
    }
    let mut dest = Document::new();
    let pages_node_id = dest.new_object_id();
    let mut kids: Vec<ObjectId> = Vec::new();
    let mut mb: Option<Object> = None;
    proof {
        assert(values_of(&dest) =~= Map::<ObjectId, Value>::empty());
        assert(crate::object::entries_view(dest.trailer.entries@) =~= Seq::<(Seq<u8>, Value)>::empty());
        assert(kids@ =~= Seq::<ObjectId>::empty());
        assert(sel_state(&dest, kids@, mb) == sel_start());
    }
    let ghost ins = inputs@;
    let ghost goal = select_inputs(sel_start(), ins);
    assert(ins.subrange(0, ins.len() as int) =~= ins);
    let mut i: usize = 0;
    while i < inputs.len()
        invariant
            dest.wf(),
            1 <= dest.max_id,
            kids@.len() > 0 ==> mb is Some,
            ins == inputs@,
            0 <= i <= ins.len(),
            goal == select_inputs(sel_start(), ins),
            select_inputs(sel_state(&dest, kids@, mb), ins.subrange(i as int, ins.len() as int)) == goal,
        decreases ins.len() - i,
    {
        assert(ins.subrange(i as int, ins.len() as int).drop_first() =~= ins.subrange(i + 1, ins.len() as int));
        assert(ins.subrange(i as int, ins.len() as int)[0] == ins[i as int]);
        match select_input_into(&mut dest, &mut kids, &mut mb, &inputs[i]) {
            Ok(()) => {},
            Err(e) => {
                return Err(e);
            },
        }
        i = i + 1;
    }
    assert(ins.subrange(ins.len() as int, ins.len() as int) =~= Seq::<PDFPages<SourceDoc>>::empty());
    if kids.len() == 0 {
        return Err(Error::NoPages);
    }
    let media_box = match mb {
        Some(m) => m,
        None => Object::Null,
    };
    match finish(&mut dest, pages_node_id, &kids, media_box) {
        Ok(()) => Ok(dest),
        Err(e) => Err(e),
    }
}

} // verus!

verus! {

/// Whether `s` is the page numbers of `pages` in ascending order.
pub open spec fn is_page_order(pages: Map<u32, ObjectId>, s: Seq<u32>) -> bool {
    &&& forall|i: int, j: int| 0 <= i < j < s.len() ==> s[i] < s[j]
    &&& forall|k: u32| pages.contains_key(k) <==> s.contains(k)
}

/// The page numbers of `pages` in ascending order.
pub open spec fn page_order(pages: Map<u32, ObjectId>) -> Seq<u32> {
    choose|s: Seq<u32>| is_page_order(pages, s)
}

proof fn lemma_ascending_unique(a: Seq<u32>, b: Seq<u32>)
    requires
        forall|i: int, j: int| 0 <= i < j < a.len() ==> a[i] < a[j],
        forall|i: int, j: int| 0 <= i < j < b.len() ==> b[i] < b[j],
        forall|k: u32| a.contains(k) <==> b.contains(k),
    ensures
        a == b,
    decreases a.len(),
{
    if a.len() == 0 {
        if b.len() > 0 {
            assert(b.contains(b[0]));
        }
        assert(a =~= b);
    } else {
        assert(a.contains(a[0]));
        assert(b.len() > 0);
        assert(b.contains(b[0]));
        let i = choose|i: int| 0 <= i < b.len() && b[i] == a[0];
        let j = choose|j: int| 0 <= j < a.len() && a[j] == b[0];
        if i > 0 {
            assert(b[0] < b[i]);
            assert(a[j] < a[0]);
            if j > 0 {
                assert(a[0] < a[j]);
            }
        }
        assert(a[0] == b[0]);
        let ra = a.drop_first();
        let rb = b.drop_first();
        assert forall|k: u32| ra.contains(k) implies rb.contains(k) by {
            let x = choose|x: int| 0 <= x < ra.len() && ra[x] == k;
            assert(a[x + 1] == k);
            assert(a[0] < a[x + 1]);
            assert(a.contains(k));
            assert(b.contains(k));
            let y = choose|y: int| 0 <= y < b.len() && b[y] == k;
            if y == 0 {
                assert(false);
            }
            assert(rb[y - 1] == k);
        }
        assert forall|k: u32| rb.contains(k) implies ra.contains(k) by {
            let x = choose|x: int| 0 <= x < rb.len() && rb[x] == k;
            assert(b[x + 1] == k);
            assert(b[0] < b[x + 1]);
            assert(b.contains(k));
            assert(a.contains(k));
            let y = choose|y: int| 0 <= y < a.len() && a[y] == k;
            if y == 0 {
                assert(false);
            }
            assert(ra[y - 1] == k);
        }
        lemma_ascending_unique(ra, rb);
        assert forall|i: int| 0 <= i < a.len() implies a[i] == b[i] by {
            if i > 0 {
                assert(a[i] == ra[i - 1]);
                assert(b[i] == rb[i - 1]);
            }
        }
        assert(a =~= b);
    }
}

/// The keys of a page index, in the order the map yields them, are its page numbers in
/// ascending order, one for each page.
pub proof fn lemma_page_order(pages: &BTreeMap<u32, ObjectId>)
    ensures
        pages.keys().remaining().unref() == page_order(pages@),
        is_page_order(pages@, page_order(pages@)),
        page_order(pages@).len() == pages@.len(),
{
    let s = pages.keys().remaining();
    let u = s.unref();
    assert(increasing_seq(s));
    assert(vstd::laws_cmp::obeys_cmp::<u32>());
    assert(vstd::laws_cmp::obeys_cmp::<&u32>());
    vstd::std_specs::btree::axiom_increasing_seq_meaning(s);
    assert forall|i: int, j: int| 0 <= i < j < u.len() implies u[i] < u[j] by {
        assert(<&u32 as OrdSpec>::cmp_spec(&s[i], &s[j]) is Less);
    }
    assert forall|k: u32| pages@.contains_key(k) <==> u.contains(k) by {
        if pages@.contains_key(k) {
            assert(u.to_set().contains(k));
        }
        if u.contains(k) {
            assert(u.to_set().contains(k));
        }
    }
    assert(is_page_order(pages@, u));
    lemma_ascending_unique(u, page_order(pages@));
}

/// The page numbers of `pages`, in ascending order.
pub fn page_numbers(pages: &BTreeMap<u32, ObjectId>) -> (r: Vec<u32>)
    ensures
        r@ == page_order(pages@),
        r@.len() == pages@.len(),
{
    let mut v: Vec<u32> = Vec::new();
    for k in it: pages.keys()
        invariant
            v@.len() == it.index(),
            forall|i: int| 0 <= i < it.index() ==> v@[i] == *it.seq()[i],
    {
        v.push(*k);
    }
    proof {
        let s = pages.keys().remaining();
        assert(s.len() == v@.len());
        assert forall|i: int| 0 <= i < v@.len() implies v@[i] == s.unref()[i] by {}
        assert(v@ =~= s.unref());
        lemma_page_order(pages);
    }
    v
}

} // verus!

verus! {

/// How many pages the range `a..=b` selects.
pub open spec fn range_count(a: int, b: int) -> nat {
    if a > b {
        0
    } else {
        (b - a + 1) as nat
    }
}

/// How many pages the ranges `rs` select, all together.
pub open spec fn ranges_count(rs: Seq<(usize, usize)>) -> nat
    decreases rs.len(),
{
    if rs.len() == 0 {
        0
    } else {
        range_count(rs[0].0 as int, rs[0].1 as int) + ranges_count(rs.drop_first())
    }
}

/// How many pages one input selects: those of its ranges, or all its pages.
pub open spec fn input_count(input: &PDFPages<SourceDoc>) -> nat {
    if input.page_ranges@.len() == 0 {
        input.file.pages@.len()
    } else {
        ranges_count(input.page_ranges@)
    }
}

/// How many pages the inputs select, all together.
pub open spec fn inputs_count(ins: Seq<PDFPages<SourceDoc>>) -> nat
    decreases ins.len(),
{
    if ins.len() == 0 {
        0
    } else {
        input_count(&ins[0]) + inputs_count(ins.drop_first())
    }
}

proof fn lemma_select_one_grows(st: SelState, src: &SourceDoc, n: int)
    requires
        select_one(st, src, n) is Ok,
    ensures
        select_one(st, src, n)->Ok_0.doc.max_id >= st.doc.max_id,
{
    let oid = src.pages@[n as u32];
    let objs = src.doc.objects@;
    let b = unfold(objs, objs.dom().remove(oid), objs[oid]).0;
    let st0 = crate::tree::Store { objects: st.doc.objects, max_id: st.doc.max_id, renamed: Map::empty() };
    let id: ObjectId = ((st0.max_id + 1) as u32, 0u16);
    let res = crate::tree::Store {
        objects: st0.objects,
        max_id: st0.max_id + 1,
        renamed: st0.renamed.insert(oid, id),
    };
    crate::tree::lemma_fold_max_id(b, res);
}

proof fn lemma_select_range_count(st: SelState, src: &SourceDoc, a: int, b: int)
    requires
        select_range(st, src, a, b) is Ok,
    ensures
        select_range(st, src, a, b)->Ok_0.kids.len() == st.kids.len() + range_count(a, b),
        select_range(st, src, a, b)->Ok_0.doc.max_id >= st.doc.max_id,
    decreases b - a + 1,
{
    if a <= b {
        lemma_select_one_grows(st, src, a);
        let s = select_one(st, src, a)->Ok_0;
        lemma_select_range_count(s, src, a + 1, b);
    }
}

proof fn lemma_select_numbers_count(st: SelState, src: &SourceDoc, ns: Seq<u32>)
    requires
        select_numbers(st, src, ns) is Ok,
    ensures
        select_numbers(st, src, ns)->Ok_0.kids.len() == st.kids.len() + ns.len(),
        select_numbers(st, src, ns)->Ok_0.doc.max_id >= st.doc.max_id,
    decreases ns.len(),
{
    if ns.len() > 0 {
        lemma_select_one_grows(st, src, ns[0] as int);
        let s = select_one(st, src, ns[0] as int)->Ok_0;
        lemma_select_numbers_count(s, src, ns.drop_first());
    }
}

proof fn lemma_select_ranges_count(st: SelState, src: &SourceDoc, rs: Seq<(usize, usize)>)
    requires
        select_ranges(st, src, rs) is Ok,
    ensures
        select_ranges(st, src, rs)->Ok_0.kids.len() == st.kids.len() + ranges_count(rs),
        select_ranges(st, src, rs)->Ok_0.doc.max_id >= st.doc.max_id,
    decreases rs.len(),
{
    if rs.len() > 0 {
        lemma_select_range_count(st, src, rs[0].0 as int, rs[0].1 as int);
        let s = select_range(st, src, rs[0].0 as int, rs[0].1 as int)->Ok_0;
        lemma_select_ranges_count(s, src, rs.drop_first());
    }
}

proof fn lemma_select_inputs_count(st: SelState, ins: Seq<PDFPages<SourceDoc>>)
    requires
        select_inputs(st, ins) is Ok,
    ensures
        select_inputs(st, ins)->Ok_0.kids.len() == st.kids.len() + inputs_count(ins),
        select_inputs(st, ins)->Ok_0.doc.max_id >= st.doc.max_id,
    decreases ins.len(),
{
    if ins.len() > 0 {
        let input = &ins[0];
        if input.page_ranges@.len() == 0 {
            let ns = page_order(input.file.pages@);
            lemma_page_order(&input.file.pages);
            lemma_select_numbers_count(st, &input.file, ns);
        } else {
            lemma_select_ranges_count(st, &input.file, input.page_ranges@);
        }
        let s = select_input(st, input)->Ok_0;
        lemma_select_inputs_count(s, ins.drop_first());
    }
}

} // verus!

verus! {

/// A concatenation that succeeds makes one Pages node whose kids are exactly as many as
/// the pages that the inputs select: the pages of each range, or all pages of an input
/// without ranges.
pub proof fn lemma_selected_page_count(ins: Seq<PDFPages<SourceDoc>>)
    requires
        selected(ins) is Ok,
    ensures
        exists|kids: Seq<ObjectId>, mb: Value|
            #![all_triggers]
            kids.len() == inputs_count(ins) && selected(ins)->Ok_0.objects[pages_id()] == pages_node(
                kids,
                mb,
            ),
{
    lemma_select_inputs_count(sel_start(), ins);
    let s = select_inputs(sel_start(), ins)->Ok_0;
    let dv = selected(ins)->Ok_0;
    let cat: ObjectId = ((s.doc.max_id + 1) as u32, 0u16);
    assert(cat != pages_id());
    assert(dv.objects[pages_id()] == pages_node(s.kids, s.media_box->0));
}

} // verus!
