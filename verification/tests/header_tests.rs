use splice_rewrite::header::{
    find_fn_header_spans, find_item_header_spans, item_info, Delim, HeaderError, Keyword, Token,
    TokenKind,
};
use splice_rewrite::node::{HeaderSpans, Qualifiers};
use splice_rewrite::span::Span;

fn sp(lo: u32, hi: u32) -> Span {
    Span { file: 0, lo, hi, ctxt: 0 }
}

fn tok(kind: TokenKind, lo: u32, hi: u32) -> Token {
    Token { kind, span: sp(lo, hi) }
}

fn kw(k: Keyword, lo: u32, hi: u32) -> Token {
    tok(TokenKind::Keyword(k), lo, hi)
}

fn quals() -> Qualifiers {
    Qualifiers { vis: 0, constness: false, unsafety: false, abi: 0, ident: 7 }
}

#[test]
fn bare_fn_header_has_insertion_points_before_fn() {
    // fn foo() {}
    let tokens = vec![
        kw(Keyword::Fn, 4, 6),
        tok(TokenKind::Ident, 7, 10),
        tok(TokenKind::Group(Delim::Paren), 10, 12),
        tok(TokenKind::Group(Delim::Brace), 13, 15),
    ];
    assert_eq!(
        find_fn_header_spans(&tokens),
        Ok(HeaderSpans {
            vis: sp(4, 4),
            constness: sp(4, 4),
            unsafety: sp(4, 4),
            abi: sp(4, 4),
            ident: sp(7, 10),
        })
    );
}

#[test]
fn full_fn_header_has_a_span_for_each_qualifier() {
    // #[inline] /// doc
    // pub(crate) const unsafe extern "C" fn foo
    let tokens = vec![
        tok(TokenKind::Pound, 0, 1),
        tok(TokenKind::Group(Delim::Bracket), 1, 9),
        tok(TokenKind::DocComment, 10, 17),
        kw(Keyword::Pub, 18, 21),
        tok(TokenKind::Group(Delim::Paren), 21, 28),
        kw(Keyword::Const, 29, 34),
        kw(Keyword::Unsafe, 35, 41),
        kw(Keyword::Extern, 42, 48),
        tok(TokenKind::Literal, 49, 52),
        kw(Keyword::Fn, 53, 55),
        tok(TokenKind::Ident, 56, 59),
    ];
    assert_eq!(
        find_fn_header_spans(&tokens),
        Ok(HeaderSpans {
            vis: sp(18, 28),
            constness: sp(29, 34),
            unsafety: sp(35, 41),
            abi: sp(42, 52),
            ident: sp(56, 59),
        })
    );
}

#[test]
fn extern_without_literal_is_the_whole_calling_convention() {
    let tokens = vec![
        kw(Keyword::Crate, 0, 5),
        kw(Keyword::Extern, 6, 12),
        kw(Keyword::Fn, 13, 15),
        tok(TokenKind::Ident, 16, 19),
    ];
    assert_eq!(
        find_fn_header_spans(&tokens),
        Ok(HeaderSpans {
            vis: sp(0, 5),
            constness: sp(6, 6),
            unsafety: sp(6, 6),
            abi: sp(6, 12),
            ident: sp(16, 19),
        })
    );
}

#[test]
fn inner_attribute_is_skipped() {
    let tokens = vec![
        tok(TokenKind::Pound, 0, 1),
        tok(TokenKind::Not, 1, 2),
        tok(TokenKind::Group(Delim::Bracket), 2, 9),
        kw(Keyword::Fn, 10, 12),
        tok(TokenKind::Ident, 13, 16),
    ];
    assert_eq!(find_fn_header_spans(&tokens).map(|h| h.ident), Ok(sp(13, 16)));
}

#[test]
fn pound_without_group_is_a_bad_attribute() {
    let tokens = vec![tok(TokenKind::Pound, 0, 1), kw(Keyword::Fn, 2, 4), tok(TokenKind::Ident, 5, 8)];
    assert_eq!(find_fn_header_spans(&tokens), Err(HeaderError::BadAttribute));
    assert_eq!(find_item_header_spans(&tokens), Err(HeaderError::BadAttribute));
}

#[test]
fn fn_header_without_fn_is_refused() {
    let tokens = vec![kw(Keyword::Pub, 0, 3), kw(Keyword::Struct, 4, 10), tok(TokenKind::Ident, 11, 14)];
    assert_eq!(find_fn_header_spans(&tokens), Err(HeaderError::ExpectedKeyword));
    assert_eq!(find_fn_header_spans(&vec![]), Err(HeaderError::ExpectedKeyword));
}

#[test]
fn header_without_name_is_refused() {
    let tokens = vec![kw(Keyword::Fn, 0, 2), tok(TokenKind::Group(Delim::Paren), 3, 5)];
    assert_eq!(find_fn_header_spans(&tokens), Err(HeaderError::ExpectedIdent));
    assert_eq!(find_item_header_spans(&tokens), Err(HeaderError::ExpectedIdent));
    let only_keyword = vec![kw(Keyword::Enum, 0, 4)];
    assert_eq!(find_item_header_spans(&only_keyword), Err(HeaderError::ExpectedIdent));
}

#[test]
fn item_header_has_visibility_and_name() {
    // pub struct Foo
    let tokens = vec![kw(Keyword::Pub, 2, 5), kw(Keyword::Struct, 6, 12), tok(TokenKind::Ident, 13, 16)];
    assert_eq!(
        find_item_header_spans(&tokens),
        Ok(HeaderSpans {
            vis: sp(2, 5),
            constness: sp(6, 6),
            unsafety: sp(6, 6),
            abi: sp(6, 6),
            ident: sp(13, 16),
        })
    );
}

#[test]
fn item_header_takes_each_item_keyword() {
    for k in [
        Keyword::Static,
        Keyword::Const,
        Keyword::Fn,
        Keyword::Mod,
        Keyword::Type,
        Keyword::Enum,
        Keyword::Struct,
        Keyword::Union,
        Keyword::Trait,
    ] {
        let tokens = vec![kw(k, 0, 5), tok(TokenKind::Ident, 6, 9)];
        assert_eq!(find_item_header_spans(&tokens).map(|h| (h.vis, h.ident)), Ok((sp(0, 0), sp(6, 9))));
    }
    for k in [Keyword::Unsafe, Keyword::Extern] {
        let tokens = vec![kw(k, 0, 5), tok(TokenKind::Ident, 6, 9)];
        assert_eq!(find_item_header_spans(&tokens), Err(HeaderError::ExpectedKeyword));
    }
}

#[test]
fn item_info_reads_the_header_that_fits_the_declaration() {
    let function = vec![kw(Keyword::Fn, 4, 6), tok(TokenKind::Ident, 7, 10)];
    let info = item_info(true, quals(), Some(&function)).unwrap();
    assert!(info.is_fn);
    assert_eq!(info.header.map(|h| h.ident), Some(sp(7, 10)));

    let other = vec![kw(Keyword::Mod, 4, 7), tok(TokenKind::Ident, 8, 11)];
    let info = item_info(false, quals(), Some(&other)).unwrap();
    assert_eq!(info.header.map(|h| h.ident), Some(sp(8, 11)));
}

#[test]
fn item_info_without_tokens_has_no_header() {
    let info = item_info(true, quals(), None).unwrap();
    assert_eq!(info.header, None);
    assert_eq!(info.quals, quals());
}

#[test]
fn item_info_of_malformed_function_is_an_error() {
    let tokens = vec![kw(Keyword::Struct, 4, 10), tok(TokenKind::Ident, 11, 14)];
    assert_eq!(item_info(true, quals(), Some(&tokens)), Err(HeaderError::ExpectedKeyword));
}

#[test]
fn item_info_of_unreadable_declaration_has_no_header() {
    // `impl Foo` has none of the keywords of a header.
    let tokens = vec![tok(TokenKind::Other, 4, 8), tok(TokenKind::Ident, 9, 12)];
    let info = item_info(false, quals(), Some(&tokens)).unwrap();
    assert_eq!(info.header, None);
}
