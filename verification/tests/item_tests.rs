use splice_rewrite::edit::Edit;
use splice_rewrite::header::{item_info, Delim, Keyword, Token, TokenKind};
use splice_rewrite::node::{Field, Node, NodeKind, Qualifiers};
use splice_rewrite::prec::TextAdjust;
use splice_rewrite::rewrite::rewrite;
use splice_rewrite::span::Span;
use splice_rewrite::table::{FileKind, SourceFile, SourceMap};

fn at(file: u32, lo: u32, hi: u32) -> Span {
    Span { file, lo, hi, ctxt: 0 }
}

fn tok(kind: TokenKind, span: Span) -> Token {
    Token { kind, span }
}

fn files() -> SourceMap {
    SourceMap { files: vec![SourceFile { kind: FileKind::Real, len: 100 }] }
}

fn quals(vis: u32, unsafety: bool, ident: u32) -> Qualifiers {
    Qualifiers { vis, constness: false, unsafety, abi: 0, ident }
}

fn body(span: Span) -> Node {
    Node { kind: NodeKind::Other, id: 3, span, shape: 70, fields: vec![], printed: None }
}

/// `fn foo() {}` at offset 4 of file 0.
fn old_function(with_tokens: bool) -> Node {
    let tokens = vec![
        tok(TokenKind::Keyword(Keyword::Fn), at(0, 4, 6)),
        tok(TokenKind::Ident, at(0, 7, 10)),
        tok(TokenKind::Group(Delim::Paren), at(0, 10, 12)),
        tok(TokenKind::Group(Delim::Brace), at(0, 13, 15)),
    ];
    let info = item_info(true, quals(0, false, 7), if with_tokens { Some(&tokens) } else { None }).unwrap();
    Node {
        kind: NodeKind::Item(info),
        id: 1,
        span: at(0, 4, 15),
        shape: 60,
        fields: vec![Field { aligned: false, prec: None, nodes: vec![body(at(0, 13, 15))] }],
        printed: None,
    }
}

/// `unsafe fn foo() {}`, copied from the old tree but for the qualifier,
/// with its printed text in file 1.
fn new_unsafe_function() -> Node {
    let printed_tokens = vec![
        tok(TokenKind::Keyword(Keyword::Unsafe), at(1, 0, 6)),
        tok(TokenKind::Keyword(Keyword::Fn), at(1, 7, 9)),
        tok(TokenKind::Ident, at(1, 10, 13)),
        tok(TokenKind::Group(Delim::Paren), at(1, 13, 15)),
        tok(TokenKind::Group(Delim::Brace), at(1, 16, 18)),
    ];
    let printed = Node {
        kind: NodeKind::Item(item_info(true, quals(0, true, 7), Some(&printed_tokens)).unwrap()),
        id: 1,
        span: at(1, 0, 18),
        shape: 60,
        fields: vec![Field { aligned: false, prec: None, nodes: vec![body(at(1, 16, 18))] }],
        printed: None,
    };
    Node {
        kind: NodeKind::Item(item_info(true, quals(0, true, 7), None).unwrap()),
        id: 1,
        span: at(0, 4, 15),
        shape: 60,
        fields: vec![Field { aligned: false, prec: None, nodes: vec![body(at(0, 13, 15))] }],
        printed: Some(Box::new(printed)),
    }
}

#[test]
fn added_unsafe_is_inserted_before_fn() {
    let old = old_function(true);
    let new = new_unsafe_function();
    let edits = rewrite(&old, &new, &files()).unwrap();
    assert_eq!(
        edits,
        vec![Edit {
            target: at(0, 4, 4),
            source: at(1, 0, 7),
            nested: vec![],
            adjust: TextAdjust::AsIs,
        }]
    );
}

#[test]
fn without_old_tokens_the_declaration_is_printed_afresh() {
    let old = old_function(false);
    let new = new_unsafe_function();
    let edits = rewrite(&old, &new, &files()).unwrap();
    assert_eq!(edits.len(), 1);
    assert_eq!(edits[0].target, at(0, 4, 15));
    assert_eq!(edits[0].source, at(1, 0, 18));
    assert_eq!(edits[0].adjust, TextAdjust::AsIs);
}

#[test]
fn removed_qualifier_is_replaced_by_nothing() {
    // Old and new change places: `unsafe fn foo` at 0..18 of file 0 becomes
    // `fn foo`, printed in file 1.
    let old_tokens = vec![
        tok(TokenKind::Keyword(Keyword::Unsafe), at(0, 0, 6)),
        tok(TokenKind::Keyword(Keyword::Fn), at(0, 7, 9)),
        tok(TokenKind::Ident, at(0, 10, 13)),
    ];
    let new_tokens = vec![
        tok(TokenKind::Keyword(Keyword::Fn), at(1, 0, 2)),
        tok(TokenKind::Ident, at(1, 3, 6)),
    ];
    let item = |info, span, printed| Node {
        kind: NodeKind::Item(info),
        id: 1,
        span,
        shape: 60,
        fields: vec![],
        printed,
    };
    let old = item(item_info(true, quals(0, true, 7), Some(&old_tokens)).unwrap(), at(0, 0, 18), None);
    let printed = item(item_info(true, quals(0, false, 7), Some(&new_tokens)).unwrap(), at(1, 0, 6), None);
    let new = item(
        item_info(true, quals(0, false, 7), None).unwrap(),
        at(0, 0, 18),
        Some(Box::new(printed)),
    );
    let edits = rewrite(&old, &new, &files()).unwrap();
    assert_eq!(
        edits,
        vec![Edit {
            target: at(0, 0, 6),
            source: at(1, 0, 0),
            nested: vec![],
            adjust: TextAdjust::AsIs,
        }]
    );
}

#[test]
fn renamed_struct_gets_one_edit_for_its_name() {
    let old_tokens = vec![
        tok(TokenKind::Keyword(Keyword::Pub), at(0, 0, 3)),
        tok(TokenKind::Keyword(Keyword::Struct), at(0, 4, 10)),
        tok(TokenKind::Ident, at(0, 11, 14)),
    ];
    let new_tokens = vec![
        tok(TokenKind::Keyword(Keyword::Pub), at(1, 0, 3)),
        tok(TokenKind::Keyword(Keyword::Struct), at(1, 4, 10)),
        tok(TokenKind::Ident, at(1, 11, 17)),
    ];
    let item = |info, span, printed| Node {
        kind: NodeKind::Item(info),
        id: 1,
        span,
        shape: 61,
        fields: vec![],
        printed,
    };
    let old = item(item_info(false, quals(1, false, 7), Some(&old_tokens)).unwrap(), at(0, 0, 20), None);
    let printed = item(item_info(false, quals(1, false, 8), Some(&new_tokens)).unwrap(), at(1, 0, 23), None);
    let new = item(
        item_info(false, quals(1, false, 8), None).unwrap(),
        at(0, 0, 20),
        Some(Box::new(printed)),
    );
    let edits = rewrite(&old, &new, &files()).unwrap();
    assert_eq!(
        edits,
        vec![Edit {
            target: at(0, 11, 14),
            source: at(1, 11, 17),
            nested: vec![],
            adjust: TextAdjust::AsIs,
        }]
    );
}

#[test]
fn several_added_qualifiers_come_in_header_order() {
    // `fn foo` becomes `pub unsafe fn foo`.
    let old_tokens = vec![
        tok(TokenKind::Keyword(Keyword::Fn), at(0, 4, 6)),
        tok(TokenKind::Ident, at(0, 7, 10)),
    ];
    let new_tokens = vec![
        tok(TokenKind::Keyword(Keyword::Pub), at(1, 0, 3)),
        tok(TokenKind::Keyword(Keyword::Unsafe), at(1, 4, 10)),
        tok(TokenKind::Keyword(Keyword::Fn), at(1, 11, 13)),
        tok(TokenKind::Ident, at(1, 14, 17)),
    ];
    let item = |info, span, printed| Node {
        kind: NodeKind::Item(info),
        id: 1,
        span,
        shape: 60,
        fields: vec![],
        printed,
    };
    let old = item(item_info(true, quals(0, false, 7), Some(&old_tokens)).unwrap(), at(0, 4, 10), None);
    let printed = item(item_info(true, quals(1, true, 7), Some(&new_tokens)).unwrap(), at(1, 0, 17), None);
    let new = item(
        item_info(true, quals(1, true, 7), None).unwrap(),
        at(0, 4, 10),
        Some(Box::new(printed)),
    );
    let edits = rewrite(&old, &new, &files()).unwrap();
    assert_eq!(
        edits,
        vec![
            Edit { target: at(0, 4, 4), source: at(1, 0, 4), nested: vec![], adjust: TextAdjust::AsIs },
            Edit { target: at(0, 4, 4), source: at(1, 4, 11), nested: vec![], adjust: TextAdjust::AsIs },
        ]
    );
}

/// `fn foo() {}` whose header tokens a macro wrote, in a declaration with
/// the given span.
fn old_function_from_macro(span: Span) -> Node {
    let written = |lo, hi| Span { file: 0, lo, hi, ctxt: 5 };
    let tokens = vec![
        tok(TokenKind::Keyword(Keyword::Fn), written(4, 6)),
        tok(TokenKind::Ident, written(7, 10)),
        tok(TokenKind::Group(Delim::Paren), written(10, 12)),
        tok(TokenKind::Group(Delim::Brace), written(13, 15)),
    ];
    let info = item_info(true, quals(0, false, 7), Some(&tokens)).unwrap();
    Node {
        kind: NodeKind::Item(info),
        id: 1,
        span,
        shape: 60,
        fields: vec![Field { aligned: false, prec: None, nodes: vec![body(at(0, 13, 15))] }],
        printed: None,
    }
}

#[test]
fn header_that_a_macro_wrote_is_not_edited() {
    // The declaration itself has text of its own: it is printed afresh as a
    // whole, and no qualifier of the old header is a target.
    let old = old_function_from_macro(at(0, 4, 15));
    let new = new_unsafe_function();
    let edits = rewrite(&old, &new, &files()).unwrap();
    assert_eq!(edits.len(), 1);
    assert_eq!(edits[0].target, at(0, 4, 15));
    assert_eq!(edits[0].source, at(1, 0, 18));
}

#[test]
fn declaration_that_a_macro_wrote_is_abandoned() {
    let old = old_function_from_macro(Span { file: 0, lo: 4, hi: 15, ctxt: 5 });
    let new = new_unsafe_function();
    assert_eq!(rewrite(&old, &new, &files()), Some(vec![]));
}
