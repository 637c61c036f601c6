use splice_rewrite::span::{
    end_point, is_rewritable, source_text, span_empty, start_point, Span,
};
use splice_rewrite::table::{FileKind, SourceFile, SourceMap};

#[test]
fn dummy_span_is_not_rewritable() {
    assert!(!is_rewritable(Span::dummy()));
}

#[test]
fn plain_span_is_rewritable() {
    let sp = Span { file: 0, lo: 3, hi: 9, ctxt: 0 };
    assert!(is_rewritable(sp));
    assert!(!span_empty(sp));
}

#[test]
fn expanded_span_is_not_rewritable() {
    let sp = Span { file: 0, lo: 3, hi: 9, ctxt: 7 };
    assert!(!is_rewritable(sp));
}

#[test]
fn start_and_end_points_are_empty() {
    let sp = Span { file: 2, lo: 3, hi: 9, ctxt: 0 };
    assert_eq!(start_point(sp), Span { file: 2, lo: 3, hi: 3, ctxt: 0 });
    assert_eq!(end_point(sp), Span { file: 2, lo: 9, hi: 9, ctxt: 0 });
    assert!(span_empty(start_point(sp)));
    assert!(span_empty(end_point(sp)));
}

#[test]
fn span_algebra_keeps_file_and_context() {
    let a = Span { file: 2, lo: 3, hi: 9, ctxt: 1 };
    let b = Span { file: 2, lo: 12, hi: 20, ctxt: 0 };
    assert_eq!(a.to(b), Span { file: 2, lo: 3, hi: 20, ctxt: 1 });
    assert_eq!(a.with_hi(5), Span { file: 2, lo: 3, hi: 5, ctxt: 1 });
    assert_eq!(a.with_lo(5), Span { file: 2, lo: 5, hi: 9, ctxt: 1 });
}

#[test]
fn text_is_sliced_by_a_span_within_it() {
    let text = b"fn foo() {}";
    let name = Span { file: 0, lo: 3, hi: 6, ctxt: 0 };
    assert_eq!(source_text(text, name), Some(&b"foo"[..]));
    assert_eq!(source_text(text, Span { file: 0, lo: 11, hi: 11, ctxt: 0 }), Some(&b""[..]));
    assert_eq!(source_text(text, Span { file: 0, lo: 3, hi: 12, ctxt: 0 }), None);
    assert_eq!(source_text(text, Span { file: 0, lo: 6, hi: 3, ctxt: 0 }), None);
}

#[test]
fn spans_are_held_to_the_bounds_of_their_file() {
    let files = SourceMap { files: vec![SourceFile { kind: FileKind::Real, len: 10 }] };
    assert!(files.is_in_bounds(Span { file: 0, lo: 0, hi: 10, ctxt: 0 }));
    assert!(files.is_in_bounds(Span { file: 0, lo: 4, hi: 4, ctxt: 0 }));
    assert!(!files.is_in_bounds(Span { file: 0, lo: 4, hi: 11, ctxt: 0 }));
    assert!(!files.is_in_bounds(Span { file: 0, lo: 5, hi: 4, ctxt: 0 }));
    assert!(!files.is_in_bounds(Span { file: 1, lo: 0, hi: 0, ctxt: 0 }));
}
