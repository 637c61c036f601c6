//! The header of a declaration, read from its tokens.
//!
//! A header is what stands before the body or the parameters of a
//! declaration: attributes, visibility, qualifiers, the keyword and the
//! name. Reading it gives the span of each qualifier, so that a changed
//! qualifier can be replaced without touching the rest of the declaration.

use vstd::prelude::*;
use crate::node::{HeaderSpans, ItemInfo, Qualifiers};
use crate::span::{start_of, start_point, Span};

verus! {

/// The brackets that delimit a group of tokens.
#[derive(Clone, Copy, PartialEq, Eq, Structural, Debug)]
pub enum Delim {
    Paren,
    Bracket,
    Brace,
}

/// The keywords that a header can hold.
#[derive(Clone, Copy, PartialEq, Eq, Structural, Debug)]
pub enum Keyword {
    Pub,
    Crate,
    Const,
    Unsafe,
    Extern,
    Fn,
    Static,
    Mod,
    Type,
    Enum,
    Struct,
    Union,
    Trait,
}

/// What a token is, as far as a header is concerned.
#[derive(Clone, Copy, PartialEq, Eq, Structural, Debug)]
pub enum TokenKind {
    DocComment,
    /// `#`
    Pound,
    /// `!`
    Not,
    /// A pair of brackets with all that stands between them, as one token.
    Group(Delim),
    Keyword(Keyword),
    /// An identifier that is no keyword.
    Ident,
    Literal,
    Other,
}

/// A token with the text it came from.
#[derive(Clone, Copy, PartialEq, Eq, Structural, Debug)]
pub struct Token {
    pub kind: TokenKind,
    pub span: Span,
}

/// Why a token stream is no header.
#[derive(Clone, Copy, PartialEq, Eq, Structural, Debug)]
pub enum HeaderError {
    /// A `#` that no bracketed group follows.
    BadAttribute,
    /// The keyword of the declaration is missing.
    ExpectedKeyword,
    /// The name of the declaration is missing.
    ExpectedIdent,
}

/// The span of the token at `pos`; past the end, the synthetic empty span.
pub open spec fn span_at(ts: Seq<Token>, pos: int) -> Span {
    if 0 <= pos < ts.len() {
        ts[pos].span
    } else {
        Span::dummy_spec()
    }
}

/// The token at `pos` is of kind `kind`.
pub open spec fn kind_is(ts: Seq<Token>, pos: int, kind: TokenKind) -> bool {
    0 <= pos < ts.len() && ts[pos].kind == kind
}

/// The position after the doc comments and attributes that begin at `pos`;
/// `None` where a `#` begins no attribute. An attribute is `#`, an optional
/// `!`, and a group in square brackets.
pub open spec fn after_attrs(ts: Seq<Token>, pos: int) -> Option<int>
    decreases ts.len() - pos,
{
    if !(0 <= pos < ts.len()) {
        Some(pos)
    } else if ts[pos].kind == TokenKind::DocComment {
        after_attrs(ts, pos + 1)
    } else if ts[pos].kind == TokenKind::Pound {
        let group = if kind_is(ts, pos + 1, TokenKind::Not) {
            pos + 2
        } else {
            pos + 1
        };
        if kind_is(ts, group, TokenKind::Group(Delim::Bracket)) {
            after_attrs(ts, group + 1)
        } else {
            None
        }
    } else {
        Some(pos)
    }
}

/// The visibility that begins at `pos`, and the position after it: `crate`,
/// or `pub` with the restriction in parentheses that may follow it. Where
/// neither stands, the visibility is the insertion point before the token
/// at `pos`.
pub open spec fn visibility(ts: Seq<Token>, pos: int) -> (Span, int) {
    if kind_is(ts, pos, TokenKind::Keyword(Keyword::Crate)) {
        (ts[pos].span, pos + 1)
    } else if kind_is(ts, pos, TokenKind::Keyword(Keyword::Pub)) {
        if kind_is(ts, pos + 1, TokenKind::Group(Delim::Paren)) {
            (Span { hi: ts[pos + 1].span.hi, ..ts[pos].span }, pos + 2)
        } else {
            (ts[pos].span, pos + 1)
        }
    } else {
        (start_of(span_at(ts, pos)), pos)
    }
}

/// The qualifier `kw` at `pos`, and the position after it. Where the token
/// at `pos` is not `kw`, the qualifier is the insertion point before it.
pub open spec fn qualifier(ts: Seq<Token>, pos: int, kw: Keyword) -> (Span, int) {
    if kind_is(ts, pos, TokenKind::Keyword(kw)) {
        (ts[pos].span, pos + 1)
    } else {
        (start_of(span_at(ts, pos)), pos)
    }
}

/// The calling convention at `pos`, and the position after it: `extern`
/// with the literal that may follow it. Where the token at `pos` is not
/// `extern`, it is the insertion point before that token.
pub open spec fn calling_convention(ts: Seq<Token>, pos: int) -> (Span, int) {
    if kind_is(ts, pos, TokenKind::Keyword(Keyword::Extern)) {
        if kind_is(ts, pos + 1, TokenKind::Literal) {
            (Span { hi: ts[pos + 1].span.hi, ..ts[pos].span }, pos + 2)
        } else {
            (ts[pos].span, pos + 1)
        }
    } else {
        (start_of(span_at(ts, pos)), pos)
    }
}

/// The keywords that begin a declaration other than by its qualifiers.
pub open spec fn item_keyword(kw: Keyword) -> bool {
    match kw {
        Keyword::Static => true,
        Keyword::Const => true,
        Keyword::Fn => true,
        Keyword::Mod => true,
        Keyword::Type => true,
        Keyword::Enum => true,
        Keyword::Struct => true,
        Keyword::Union => true,
        Keyword::Trait => true,
        _ => false,
    }
}

/// The token at `pos` is a keyword that begins a declaration.
pub open spec fn begins_item(ts: Seq<Token>, pos: int) -> bool {
    0 <= pos < ts.len() && match ts[pos].kind {
        TokenKind::Keyword(kw) => item_keyword(kw),
        _ => false,
    }
}

/// The header of a function: attributes, visibility, `const`, `unsafe`,
/// calling convention, `fn`, name.
pub open spec fn fn_header(ts: Seq<Token>) -> Result<HeaderSpans, HeaderError> {
    match after_attrs(ts, 0) {
        None => Err(HeaderError::BadAttribute),
        Some(start) => {
            let (vis, after_vis) = visibility(ts, start);
            let (constness, after_const) = qualifier(ts, after_vis, Keyword::Const);
            let (unsafety, after_unsafe) = qualifier(ts, after_const, Keyword::Unsafe);
            let (abi, after_abi) = calling_convention(ts, after_unsafe);
            if !kind_is(ts, after_abi, TokenKind::Keyword(Keyword::Fn)) {
                Err(HeaderError::ExpectedKeyword)
            } else if !kind_is(ts, after_abi + 1, TokenKind::Ident) {
                Err(HeaderError::ExpectedIdent)
            } else {
                Ok(HeaderSpans { vis, constness, unsafety, abi, ident: ts[after_abi + 1].span })
            }
        },
    }
}

/// The header of a declaration of the form visibility, keyword, name, with
/// attributes before it. It has no qualifiers but the visibility: their
/// spans are the insertion point before the keyword.
pub open spec fn item_header(ts: Seq<Token>) -> Result<HeaderSpans, HeaderError> {
    match after_attrs(ts, 0) {
        None => Err(HeaderError::BadAttribute),
        Some(start) => {
            let (vis, after_vis) = visibility(ts, start);
            let at_keyword = start_of(span_at(ts, after_vis));
            if !begins_item(ts, after_vis) {
                Err(HeaderError::ExpectedKeyword)
            } else if !kind_is(ts, after_vis + 1, TokenKind::Ident) {
                Err(HeaderError::ExpectedIdent)
            } else {
                Ok(
                    HeaderSpans {
                        vis,
                        constness: at_keyword,
                        unsafety: at_keyword,
                        abi: at_keyword,
                        ident: ts[after_vis + 1].span,
                    },
                )
            }
        },
    }
}

/// Whether the token at `pos` is of the given kind.
fn check(tokens: &Vec<Token>, pos: usize, kind: TokenKind) -> (r: bool)
    ensures
        r == kind_is(tokens@, pos as int, kind),
{
    pos < tokens.len() && tokens[pos].kind == kind
}

/// The span of the token at `pos`; past the end, the synthetic empty span.
fn current_span(tokens: &Vec<Token>, pos: usize) -> (sp: Span)
    ensures
        sp == span_at(tokens@, pos as int),
{
    if pos < tokens.len() {
        tokens[pos].span
    } else {
        Span::dummy()
    }
}

/// Skips the doc comments and attributes at the start of a token stream.
fn skip_attrs(tokens: &Vec<Token>) -> (r: Option<usize>)
    ensures
        match r {
            Some(pos) => after_attrs(tokens@, 0) == Some(pos as int) && pos <= tokens.len(),
            None => after_attrs(tokens@, 0) is None,
        },
{
    let mut pos: usize = 0;
    loop
        invariant
            pos <= tokens.len(),
            after_attrs(tokens@, 0) == after_attrs(tokens@, pos as int),
        decreases tokens.len() - pos,
    {
        if pos >= tokens.len() {
            return Some(pos);
        }
        match tokens[pos].kind {
            TokenKind::DocComment => {
                pos += 1;
            },
            TokenKind::Pound => {
                let group = if check(tokens, pos + 1, TokenKind::Not) {
                    pos + 2
                } else {
                    pos + 1
                };
                if check(tokens, group, TokenKind::Group(Delim::Bracket)) {
                    pos = group + 1;
                } else {
                    return None;
                }
            },
            _ => {
                return Some(pos);
            },
        }
    }
}

/// Reads the visibility at `pos`.
fn parse_visibility(tokens: &Vec<Token>, pos: usize) -> (r: (Span, usize))
    requires
        pos <= tokens.len(),
    ensures
        (r.0, r.1 as int) == visibility(tokens@, pos as int),
        pos <= r.1 <= tokens.len(),
{
    if check(tokens, pos, TokenKind::Keyword(Keyword::Crate)) {
        (tokens[pos].span, pos + 1)
    } else if check(tokens, pos, TokenKind::Keyword(Keyword::Pub)) {
        if check(tokens, pos + 1, TokenKind::Group(Delim::Paren)) {
            (tokens[pos].span.to(tokens[pos + 1].span), pos + 2)
        } else {
            (tokens[pos].span, pos + 1)
        }
    } else {
        (start_point(current_span(tokens, pos)), pos)
    }
}

/// Reads the qualifier `kw` at `pos`, if it stands there.
fn eat_keyword(tokens: &Vec<Token>, pos: usize, kw: Keyword) -> (r: (Span, usize))
    requires
        pos <= tokens.len(),
    ensures
        (r.0, r.1 as int) == qualifier(tokens@, pos as int, kw),
        pos <= r.1 <= tokens.len(),
{
    if check(tokens, pos, TokenKind::Keyword(kw)) {
        (tokens[pos].span, pos + 1)
    } else {
        (start_point(current_span(tokens, pos)), pos)
    }
}

/// Reads the calling convention at `pos`, if one stands there.
fn parse_abi(tokens: &Vec<Token>, pos: usize) -> (r: (Span, usize))
    requires
        pos <= tokens.len(),
    ensures
        (r.0, r.1 as int) == calling_convention(tokens@, pos as int),
        pos <= r.1 <= tokens.len(),
{
    if check(tokens, pos, TokenKind::Keyword(Keyword::Extern)) {
        if check(tokens, pos + 1, TokenKind::Literal) {
            (tokens[pos].span.to(tokens[pos + 1].span), pos + 2)
        } else {
            (tokens[pos].span, pos + 1)
        }
    } else {
        (start_point(current_span(tokens, pos)), pos)
    }
}

/// Whether `kw` begins a declaration other than by its qualifiers.
fn is_item_keyword(kw: Keyword) -> (r: bool)
    ensures
        r == item_keyword(kw),
{
    match kw {
        Keyword::Static => true,
        Keyword::Const => true,
        Keyword::Fn => true,
        Keyword::Mod => true,
        Keyword::Type => true,
        Keyword::Enum => true,
        Keyword::Struct => true,
        Keyword::Union => true,
        Keyword::Trait => true,
        _ => false,
    }
}

/// Finds the spans of the qualifiers in the header of a function.
pub fn find_fn_header_spans(tokens: &Vec<Token>) -> (r: Result<HeaderSpans, HeaderError>)
    ensures
        r == fn_header(tokens@),
{
    let start = match skip_attrs(tokens) {
        Some(pos) => pos,
        None => {
            return Err(HeaderError::BadAttribute);
        },
    };
    let (vis, after_vis) = parse_visibility(tokens, start);
    let (constness, after_const) = eat_keyword(tokens, after_vis, Keyword::Const);
    let (unsafety, after_unsafe) = eat_keyword(tokens, after_const, Keyword::Unsafe);
    let (abi, after_abi) = parse_abi(tokens, after_unsafe);
    if !check(tokens, after_abi, TokenKind::Keyword(Keyword::Fn)) {
        return Err(HeaderError::ExpectedKeyword);
    }
    if !check(tokens, after_abi + 1, TokenKind::Ident) {
        return Err(HeaderError::ExpectedIdent);
    }
    Ok(HeaderSpans { vis, constness, unsafety, abi, ident: tokens[after_abi + 1].span })
}

/// Finds the spans of visibility and name in the header of a declaration
/// of the form visibility, keyword, name.
pub fn find_item_header_spans(tokens: &Vec<Token>) -> (r: Result<HeaderSpans, HeaderError>)
    ensures
        r == item_header(tokens@),
{
    let start = match skip_attrs(tokens) {
        Some(pos) => pos,
        None => {
            return Err(HeaderError::BadAttribute);
        },
    };
    let (vis, after_vis) = parse_visibility(tokens, start);
    let at_keyword = start_point(current_span(tokens, after_vis));
    let is_keyword = after_vis < tokens.len() && match tokens[after_vis].kind {
        TokenKind::Keyword(kw) => is_item_keyword(kw),
        _ => false,
    };
    if !is_keyword {
        return Err(HeaderError::ExpectedKeyword);
    }
    if !check(tokens, after_vis + 1, TokenKind::Ident) {
        return Err(HeaderError::ExpectedIdent);
    }
    Ok(
        HeaderSpans {
            vis,
            constness: at_keyword,
            unsafety: at_keyword,
            abi: at_keyword,
            ident: tokens[after_vis + 1].span,
        },
    )
}

/// What a declaration with the given qualifiers and token stream holds
/// for reconciliation. A function whose tokens are no header is
/// malformed; of any other declaration whose tokens are none, the header is
/// left out, as it is where no tokens are retained.
pub open spec fn item_info_of(
    is_fn: bool,
    quals: Qualifiers,
    tokens: Option<Seq<Token>>,
) -> Result<ItemInfo, HeaderError> {
    match tokens {
        None => Ok(ItemInfo { is_fn, quals, header: None }),
        Some(ts) => if is_fn {
            match fn_header(ts) {
                Ok(h) => Ok(ItemInfo { is_fn, quals, header: Some(h) }),
                Err(e) => Err(e),
            }
        } else {
            match item_header(ts) {
                Ok(h) => Ok(ItemInfo { is_fn, quals, header: Some(h) }),
                Err(_) => Ok(ItemInfo { is_fn, quals, header: None }),
            }
        },
    }
}

/// Reads the header of a declaration from the tokens that it retains.
pub fn item_info(is_fn: bool, quals: Qualifiers, tokens: Option<&Vec<Token>>) -> (r: Result<
    ItemInfo,
    HeaderError,
>)
    ensures
        r == item_info_of(
            is_fn,
            quals,
            match tokens {
                Some(ts) => Some(ts@),
                None => None,
            },
        ),
{
    match tokens {
        None => Ok(ItemInfo { is_fn, quals, header: None }),
        Some(ts) => {
            if is_fn {
                match find_fn_header_spans(ts) {
                    Ok(h) => Ok(ItemInfo { is_fn, quals, header: Some(h) }),
                    Err(e) => Err(e),
                }
            } else {
                match find_item_header_spans(ts) {
                    Ok(h) => Ok(ItemInfo { is_fn, quals, header: Some(h) }),
                    Err(_) => Ok(ItemInfo { is_fn, quals, header: None }),
                }
            }
        },
    }
}

} // verus!
