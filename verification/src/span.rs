//! Byte-range spans into source text.

use vstd::prelude::*;

verus! {

/// A byte range `lo..hi` of the file `file`, tagged with the hygiene
/// context `ctxt` of the tokens it covers. Context `0` is the context of
/// text that no macro expansion produced.
#[derive(Clone, Copy, PartialEq, Eq, Structural, Debug)]
pub struct Span {
    pub file: u32,
    pub lo: u32,
    pub hi: u32,
    pub ctxt: u32,
}

impl Span {
    /// The synthetic empty span, which stands for "no source text".
    pub open spec fn dummy_spec() -> Span {
        Span { file: 0, lo: 0, hi: 0, ctxt: 0 }
    }

    /// A span is valid when its bounds are ordered.
    pub open spec fn valid(self) -> bool {
        self.lo <= self.hi
    }

    /// A zero-width span marks an insertion point rather than a range.
    pub open spec fn empty(self) -> bool {
        self.lo == self.hi
    }

    /// `inner` lies within `self`, in the same file.
    pub open spec fn encloses(self, inner: Span) -> bool {
        self.file == inner.file && self.lo <= inner.lo && inner.hi <= self.hi
    }

    /// The two spans share at least one byte of the same file.
    pub open spec fn overlaps(self, other: Span) -> bool {
        self.file == other.file && self.lo < other.hi && other.lo < self.hi
    }

    #[verifier::when_used_as_spec(dummy_spec)]
    pub fn dummy() -> (sp: Span)
        ensures
            sp == Span::dummy_spec(),
    {
        Span { file: 0, lo: 0, hi: 0, ctxt: 0 }
    }

    /// The same span with its upper bound replaced.
    pub fn with_hi(self, hi: u32) -> (sp: Span)
        ensures
            sp == (Span { hi, ..self }),
    {
        Span { file: self.file, lo: self.lo, hi, ctxt: self.ctxt }
    }

    /// The same span with its lower bound replaced.
    pub fn with_lo(self, lo: u32) -> (sp: Span)
        ensures
            sp == (Span { lo, ..self }),
    {
        Span { file: self.file, lo, hi: self.hi, ctxt: self.ctxt }
    }

    /// The span from the start of `self` to the end of `end`.
    pub fn to(self, end: Span) -> (sp: Span)
        ensures
            sp == (Span { hi: end.hi, ..self }),
    {
        Span { file: self.file, lo: self.lo, hi: end.hi, ctxt: self.ctxt }
    }
}

/// Whether `sp` has source text that may be replaced or copied: it is not
/// the synthetic empty span and no macro expansion produced it.
pub open spec fn rewritable(sp: Span) -> bool {
    sp != Span::dummy_spec() && sp.ctxt == 0
}

/// The zero-width span at the start of `sp`.
pub open spec fn start_of(sp: Span) -> Span {
    Span { hi: sp.lo, ..sp }
}

/// The zero-width span at the end of `sp`.
pub open spec fn end_of(sp: Span) -> Span {
    Span { lo: sp.hi, ..sp }
}

pub fn is_rewritable(sp: Span) -> (r: bool)
    ensures
        r == rewritable(sp),
{
    sp != Span::dummy() && sp.ctxt == 0
}

pub fn start_point(sp: Span) -> (p: Span)
    ensures
        p == start_of(sp),
        p.empty(),
        sp.valid() ==> sp.encloses(p),
{
    sp.with_hi(sp.lo)
}

pub fn end_point(sp: Span) -> (p: Span)
    ensures
        p == end_of(sp),
        p.empty(),
        sp.valid() ==> sp.encloses(p),
{
    sp.with_lo(sp.hi)
}

pub fn span_empty(sp: Span) -> (r: bool)
    ensures
        r == sp.empty(),
{
    sp.lo == sp.hi
}

/// The bytes of `text` that `sp` covers, where `sp` is a valid span within
/// the text. The file of the span is not looked at: `text` is taken to be
/// the text of that file.
pub open spec fn text_at(text: Seq<u8>, sp: Span) -> Option<Seq<u8>> {
    if sp.lo <= sp.hi && sp.hi <= text.len() {
        Some(text.subrange(sp.lo as int, sp.hi as int))
    } else {
        None
    }
}

/// Slices the text of a file by a span into it.
pub fn source_text<'a>(text: &'a [u8], sp: Span) -> (r: Option<&'a [u8]>)
    ensures
        match text_at(text@, sp) {
            Some(bytes) => r is Some && r->0@ == bytes,
            None => r is None,
        },
{
    let lo = sp.lo as usize;
    let hi = sp.hi as usize;
    if lo <= hi && hi <= text.len() {
        Some(vstd::slice::slice_subrange(text, lo, hi))
    } else {
        None
    }
}

} // verus!
