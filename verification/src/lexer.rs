//! The lexer: source text to tokens with byte spans.

use vstd::prelude::*;
use vstd::utf8::{encode_utf8, encode_scalar};
use vstd::string::StringSliceAdditionalSpecFns;
use crate::diagnostic::{Diagnostic, DiagnosticSeverity};
use crate::num::{IntValue, int_from_decimal, all_digits, decimal_value};
use crate::span::{Node, Span};
use crate::text::{push_char, push_str};

verus! {

/// A lexical token kind.
#[derive(Debug)]
pub enum TokenKind {
    Ident(String),
    Int(IntValue),
    Keyword(Keyword),
    Symbol(Symbol),
    Eof,
}

#[derive(Clone, Copy, Debug, PartialEq, Eq, Hash, Structural)]
pub enum Keyword {
    Use,
    Const,
    Struct,
    Enum,
    Interface,
    Impl,
    For,
    Fn,
    SelfLower,
    SelfUpper,
    Mut,
    Where,
    Match,
    If,
    Else,
    Return,
    True,
    False,
    As,
    Let,
    Todo,
}

#[derive(Clone, Copy, Debug, PartialEq, Eq, Hash, Structural)]
pub enum Symbol {
    LParen,
    RParen,
    LBrace,
    RBrace,
    LBracket,
    RBracket,
    Lt,
    Gt,
    Le,
    Ge,
    Eq,
    EqEq,
    Ne,
    Bang,
    Colon,
    ColonColon,
    Semi,
    Comma,
    Dot,
    Plus,
    Minus,
    Star,
    Slash,
    Percent,
    Amp,
    AmpAmp,
    Pipe,
    PipePipe,
    Caret,
    Shl,
    Shr,
    Arrow,
    FatArrow,
}

pub type Token = Node<TokenKind>;

/// A token kind with its text and value as mathematical values.
pub enum TokenView {
    Ident(Seq<char>),
    Int(int),
    Keyword(Keyword),
    Symbol(Symbol),
    Eof,
}

impl View for TokenKind {
    type V = TokenView;

    open spec fn view(&self) -> TokenView {
        match self {
            TokenKind::Ident(s) => TokenView::Ident(s@),
            TokenKind::Int(v) => TokenView::Int(v@),
            TokenKind::Keyword(k) => TokenView::Keyword(*k),
            TokenKind::Symbol(s) => TokenView::Symbol(*s),
            TokenKind::Eof => TokenView::Eof,
        }
    }
}

impl TokenKind {
    /// A copy of the token kind.
    pub fn copy(&self) -> (r: TokenKind)
        ensures
            r@ == self@,
    {
        match self {
            TokenKind::Ident(s) => TokenKind::Ident(s.clone()),
            TokenKind::Int(v) => TokenKind::Int(v.copy()),
            TokenKind::Keyword(k) => TokenKind::Keyword(*k),
            TokenKind::Symbol(s) => TokenKind::Symbol(*s),
            TokenKind::Eof => TokenKind::Eof,
        }
    }
}

/// A copy of a token.
pub fn copy_token(t: &Token) -> (r: Token)
    ensures
        r.span == t.span,
        r.kind@ == t.kind@,
{
    Node::new(t.span, t.kind.copy())
}

/// A token as a span and a token view.
pub open spec fn token_view(t: Token) -> (Span, TokenView) {
    (t.span, t.kind@)
}

// ---------------------------------------------------------------------
// Character classes

/// `char::is_whitespace`: the Unicode `White_Space` property.
pub open spec fn is_whitespace(c: char) -> bool {
    let u = c as u32;
    ||| (0x09 <= u <= 0x0D)
    ||| u == 0x20
    ||| u == 0x85
    ||| u == 0xA0
    ||| u == 0x1680
    ||| (0x2000 <= u <= 0x200A)
    ||| u == 0x2028
    ||| u == 0x2029
    ||| u == 0x202F
    ||| u == 0x205F
    ||| u == 0x3000
}

pub open spec fn is_ascii_alpha(c: char) -> bool {
    ('a' <= c <= 'z') || ('A' <= c <= 'Z')
}

pub open spec fn is_ascii_digit(c: char) -> bool {
    '0' <= c <= '9'
}

/// A character that may start an identifier.
pub open spec fn is_ident_start(c: char) -> bool {
    is_ascii_alpha(c) || c == '_'
}

/// A character that may continue an identifier.
pub open spec fn is_ident_continue(c: char) -> bool {
    is_ascii_alpha(c) || is_ascii_digit(c) || c == '_'
}

/// Whether `c` has the Unicode `White_Space` property: tab, line feed,
/// vertical tab, form feed, carriage return, space, next line, no-break
/// space, ogham space mark, the spaces U+2000 to U+200A, line and paragraph
/// separators, narrow no-break space, medium mathematical space and
/// ideographic space.
pub open spec fn unicode_white_space(c: char) -> bool {
    ||| c == '\t' || c == '\n' || c == '\u{0B}' || c == '\u{0C}' || c == '\r' || c == ' '
    ||| c == '\u{85}' || c == '\u{A0}' || c == '\u{1680}'
    ||| ('\u{2000}' <= c && c <= '\u{200A}')
    ||| c == '\u{2028}' || c == '\u{2029}' || c == '\u{202F}' || c == '\u{205F}' || c == '\u{3000}'
}

/// The lexer's white space is exactly the Unicode `White_Space` property,
/// carriage return included.
pub proof fn law_white_space_is_unicode(c: char)
    ensures
        is_whitespace(c) <==> unicode_white_space(c),
{
}

/// A white-space character is skipped: lexing from it gives what lexing
/// from the next character gives.
pub proof fn law_white_space_is_skipped(s: Seq<char>, i: int)
    requires
        0 <= i < s.len(),
        unicode_white_space(s[i]),
    ensures
        lex_from(s, i) == lex_from(s, i + 1),
{
}

/// A text of white space only lexes, without errors, to the closing `Eof`
/// alone, at the end of the text.
pub proof fn law_blank_text_has_no_tokens(s: Seq<char>, i: int)
    requires
        0 <= i <= s.len(),
        forall|k: int| i <= k < s.len() ==> unicode_white_space(#[trigger] s[k]),
    ensures
        lex_from(s, i).0 == seq![(char_span(s, s.len() as int, s.len() as int), TokenView::Eof)],
        lex_from(s, i).1.len() == 0,
    decreases s.len() - i,
{
    if i < s.len() {
        law_blank_text_has_no_tokens(s, i + 1);
    }
}

fn whitespace(c: char) -> (r: bool)
    ensures
        r == is_whitespace(c),
{
    let u = c as u32;
    (0x09 <= u && u <= 0x0D) || u == 0x20 || u == 0x85 || u == 0xA0 || u == 0x1680 || (0x2000
        <= u && u <= 0x200A) || u == 0x2028 || u == 0x2029 || u == 0x202F || u == 0x205F || u
        == 0x3000
}

fn ident_start(c: char) -> (r: bool)
    ensures
        r == is_ident_start(c),
{
    ('a' <= c && c <= 'z') || ('A' <= c && c <= 'Z') || c == '_'
}

fn ident_continue(c: char) -> (r: bool)
    ensures
        r == is_ident_continue(c),
{
    ('a' <= c && c <= 'z') || ('A' <= c && c <= 'Z') || ('0' <= c && c <= '9') || c == '_'
}

fn ascii_digit(c: char) -> (r: bool)
    ensures
        r == is_ascii_digit(c),
{
    '0' <= c && c <= '9'
}

// ---------------------------------------------------------------------
// Byte offsets of character positions

/// The byte offset of character position `i` in the UTF-8 encoding of `s`.
pub open spec fn byte_offset(s: Seq<char>, i: int) -> int {
    encode_utf8(s.take(i)).len() as int
}

/// The number of bytes that encode `c`.
pub open spec fn char_width(c: char) -> int {
    encode_scalar(c as u32).len() as int
}

/// Encoding distributes over concatenation.
pub proof fn lemma_encode_append(a: Seq<char>, b: Seq<char>)
    ensures
        encode_utf8(a + b) == encode_utf8(a) + encode_utf8(b),
    decreases a.len(),
{
    if a.len() == 0 {
        assert(a + b =~= b);
        assert(encode_utf8(a) =~= Seq::<u8>::empty());
        assert(encode_utf8(a) + encode_utf8(b) =~= encode_utf8(b));
    } else {
        lemma_encode_append(a.drop_first(), b);
        assert((a + b).drop_first() =~= a.drop_first() + b);
        assert(encode_utf8(a + b) =~= encode_scalar(a[0] as u32) + encode_utf8(a.drop_first() + b));
    }
}

/// Moving one character forward adds its width.
pub proof fn lemma_byte_offset_step(s: Seq<char>, i: int)
    requires
        0 <= i < s.len(),
    ensures
        byte_offset(s, i + 1) == byte_offset(s, i) + char_width(s[i]),
        1 <= char_width(s[i]) <= 4,
{
    assert(s.take(i + 1) =~= s.take(i) + seq![s[i]]);
    lemma_encode_append(s.take(i), seq![s[i]]);
    assert(seq![s[i]].drop_first() =~= Seq::<char>::empty());
    reveal_with_fuel(encode_utf8, 2);
    assert(encode_utf8(seq![s[i]]) =~= encode_scalar(s[i] as u32));
    vstd::utf8::char_is_scalar(s[i]);
}

/// Byte offsets grow with the character position.
pub proof fn lemma_byte_offset_mono(s: Seq<char>, i: int, j: int)
    requires
        0 <= i <= j <= s.len(),
    ensures
        0 <= byte_offset(s, i) <= byte_offset(s, j),
    decreases j - i,
{
    if i < j {
        lemma_byte_offset_mono(s, i, j - 1);
        lemma_byte_offset_step(s, j - 1);
    }
}

fn width(c: char) -> (r: usize)
    ensures
        r as int == char_width(c),
        1 <= r <= 4,
{
    proof {
        vstd::utf8::char_is_scalar(c);
    }
    let u = c as u32;
    if u < 0x80 {
        1
    } else if u < 0x800 {
        2
    } else if u < 0x10000 {
        3
    } else {
        4
    }
}

// ---------------------------------------------------------------------
// The lexical grammar

/// The first position at or after `i` that does not continue an identifier.
pub open spec fn ident_end(s: Seq<char>, i: int) -> int
    decreases s.len() - i,
{
    if i < 0 || i >= s.len() || !is_ident_continue(s[i]) {
        i
    } else {
        ident_end(s, i + 1)
    }
}

/// The first position at or after `i` that is not a decimal digit.
pub open spec fn digits_end(s: Seq<char>, i: int) -> int
    decreases s.len() - i,
{
    if i < 0 || i >= s.len() || !is_ascii_digit(s[i]) {
        i
    } else {
        digits_end(s, i + 1)
    }
}

/// The position just after the first newline at or after `i`, or the end.
pub open spec fn comment_end(s: Seq<char>, i: int) -> int
    decreases s.len() - i,
{
    if i < 0 || i >= s.len() {
        s.len() as int
    } else if s[i] == '\n' {
        i + 1
    } else {
        comment_end(s, i + 1)
    }
}

/// The keyword spelled by `text`, if any.
pub open spec fn keyword_of(text: Seq<char>) -> Option<Keyword> {
    if text == "use"@ { Some(Keyword::Use) }
    else if text == "const"@ { Some(Keyword::Const) }
    else if text == "struct"@ { Some(Keyword::Struct) }
    else if text == "enum"@ { Some(Keyword::Enum) }
    else if text == "interface"@ { Some(Keyword::Interface) }
    else if text == "impl"@ { Some(Keyword::Impl) }
    else if text == "for"@ { Some(Keyword::For) }
    else if text == "fn"@ { Some(Keyword::Fn) }
    else if text == "self"@ { Some(Keyword::SelfLower) }
    else if text == "Self"@ { Some(Keyword::SelfUpper) }
    else if text == "mut"@ { Some(Keyword::Mut) }
    else if text == "where"@ { Some(Keyword::Where) }
    else if text == "match"@ { Some(Keyword::Match) }
    else if text == "if"@ { Some(Keyword::If) }
    else if text == "else"@ { Some(Keyword::Else) }
    else if text == "return"@ { Some(Keyword::Return) }
    else if text == "true"@ { Some(Keyword::True) }
    else if text == "false"@ { Some(Keyword::False) }
    else if text == "as"@ { Some(Keyword::As) }
    else if text == "let"@ { Some(Keyword::Let) }
    else if text == "todo"@ { Some(Keyword::Todo) }
    else { None }
}

/// Whether character `c` stands at position `i`.
pub open spec fn char_at(s: Seq<char>, i: int, c: char) -> bool {
    0 <= i < s.len() && s[i] == c
}

/// The symbol that starts at position `i` and the number of characters it
/// takes; two-character symbols are preferred over one-character ones.
pub open spec fn symbol_at(s: Seq<char>, i: int) -> Option<(Symbol, int)> {
    let c = s[i];
    if c == '(' { Some((Symbol::LParen, 1)) }
    else if c == ')' { Some((Symbol::RParen, 1)) }
    else if c == '{' { Some((Symbol::LBrace, 1)) }
    else if c == '}' { Some((Symbol::RBrace, 1)) }
    else if c == '[' { Some((Symbol::LBracket, 1)) }
    else if c == ']' { Some((Symbol::RBracket, 1)) }
    else if c == ':' { if char_at(s, i + 1, ':') { Some((Symbol::ColonColon, 2)) } else { Some((Symbol::Colon, 1)) } }
    else if c == ';' { Some((Symbol::Semi, 1)) }
    else if c == ',' { Some((Symbol::Comma, 1)) }
    else if c == '.' { Some((Symbol::Dot, 1)) }
    else if c == '+' { Some((Symbol::Plus, 1)) }
    else if c == '-' { if char_at(s, i + 1, '>') { Some((Symbol::Arrow, 2)) } else { Some((Symbol::Minus, 1)) } }
    else if c == '*' { Some((Symbol::Star, 1)) }
    else if c == '/' { Some((Symbol::Slash, 1)) }
    else if c == '%' { Some((Symbol::Percent, 1)) }
    else if c == '&' { if char_at(s, i + 1, '&') { Some((Symbol::AmpAmp, 2)) } else { Some((Symbol::Amp, 1)) } }
    else if c == '|' { if char_at(s, i + 1, '|') { Some((Symbol::PipePipe, 2)) } else { Some((Symbol::Pipe, 1)) } }
    else if c == '^' { Some((Symbol::Caret, 1)) }
    else if c == '=' {
        if char_at(s, i + 1, '=') { Some((Symbol::EqEq, 2)) }
        else if char_at(s, i + 1, '>') { Some((Symbol::FatArrow, 2)) }
        else { Some((Symbol::Eq, 1)) }
    }
    else if c == '!' { if char_at(s, i + 1, '=') { Some((Symbol::Ne, 2)) } else { Some((Symbol::Bang, 1)) } }
    else if c == '<' {
        if char_at(s, i + 1, '<') { Some((Symbol::Shl, 2)) }
        else if char_at(s, i + 1, '=') { Some((Symbol::Le, 2)) }
        else { Some((Symbol::Lt, 1)) }
    }
    else if c == '>' {
        if char_at(s, i + 1, '>') { Some((Symbol::Shr, 2)) }
        else if char_at(s, i + 1, '=') { Some((Symbol::Ge, 2)) }
        else { Some((Symbol::Gt, 1)) }
    }
    else { None }
}

/// The span between two character positions, in bytes.
pub open spec fn char_span(s: Seq<char>, i: int, j: int) -> Span {
    Span { start: byte_offset(s, i) as usize, end: byte_offset(s, j) as usize }
}

/// The message reported for a character that starts no token.
pub open spec fn unexpected_message(c: char) -> Seq<char> {
    "unexpected character `"@ + seq![c] + "`"@
}

/// What lexing produces from position `i` on: the tokens (ending with
/// `Eof` at the end of the input) and the diagnostics, each as a span and
/// a message.
pub open spec fn lex_from(s: Seq<char>, i: int) -> (Seq<(Span, TokenView)>, Seq<(Span, Seq<char>)>)
    decreases s.len() - i,
{
    if i < 0 || i >= s.len() {
        (seq![(char_span(s, s.len() as int, s.len() as int), TokenView::Eof)], Seq::empty())
    } else {
        let c = s[i];
        if is_whitespace(c) {
            lex_from(s, i + 1)
        } else if c == '/' && char_at(s, i + 1, '/') {
            proof {
                lemma_scan_ends(s, i + 2);
            }
            lex_from(s, comment_end(s, i + 2))
        } else if is_ident_start(c) {
            proof {
                lemma_scan_ends(s, i + 1);
            }
            let j = ident_end(s, i + 1);
            let text = s.subrange(i, j);
            let kind = match keyword_of(text) {
                Some(k) => TokenView::Keyword(k),
                None => TokenView::Ident(text),
            };
            let rest = lex_from(s, j);
            (seq![(char_span(s, i, j), kind)] + rest.0, rest.1)
        } else if is_ascii_digit(c) {
            proof {
                lemma_scan_ends(s, i + 1);
            }
            let j = digits_end(s, i + 1);
            let rest = lex_from(s, j);
            (seq![(char_span(s, i, j), TokenView::Int(decimal_value(s.subrange(i, j)) as int))] + rest.0, rest.1)
        } else {
            match symbol_at(s, i) {
                Some((sym, n)) => {
                    let rest = lex_from(s, i + n);
                    (seq![(char_span(s, i, i + n), TokenView::Symbol(sym))] + rest.0, rest.1)
                },
                None => {
                    let rest = lex_from(s, i + 1);
                    (rest.0, seq![(char_span(s, i, i + 1), unexpected_message(c))] + rest.1)
                },
            }
        }
    }
}

/// The scanning positions only move forward.
pub proof fn lemma_scan_ends(s: Seq<char>, i: int)
    requires
        0 <= i <= s.len(),
    ensures
        i <= ident_end(s, i) <= s.len(),
        i <= digits_end(s, i) <= s.len(),
        i <= comment_end(s, i) <= s.len(),
        forall|k: int| i <= k < ident_end(s, i) ==> is_ident_continue(#[trigger] s[k]),
        forall|k: int| i <= k < digits_end(s, i) ==> is_ascii_digit(#[trigger] s[k]),
    decreases s.len() - i,
{
    if i < s.len() {
        lemma_scan_ends(s, i + 1);
    }
}

/// The tokens of a lexed input end with `Eof`.
pub proof fn lemma_lex_ends_with_eof(s: Seq<char>, i: int)
    requires
        0 <= i,
    ensures
        crate::lexer::lex_from(s, i).0.len() > 0,
        crate::lexer::lex_from(s, i).0.last().1 == crate::lexer::TokenView::Eof,
    decreases s.len() - i,
{
    if i < s.len() {
        let c = s[i];
        lemma_scan_ends(s, i + 1);
        if is_whitespace(c) {
            lemma_lex_ends_with_eof(s, i + 1);
        } else if c == '/' && char_at(s, i + 1, '/') {
            lemma_scan_ends(s, i + 2);
            lemma_lex_ends_with_eof(s, comment_end(s, i + 2));
        } else if is_ident_start(c) {
            lemma_lex_ends_with_eof(s, ident_end(s, i + 1));
        } else if is_ascii_digit(c) {
            lemma_lex_ends_with_eof(s, digits_end(s, i + 1));
        } else {
            match symbol_at(s, i) {
                Some((sym, n)) => {
                    lemma_lex_ends_with_eof(s, i + n);
                },
                None => {
                    lemma_lex_ends_with_eof(s, i + 1);
                },
            }
        }
    }
}


/// Whether the token spans lie between `lo` and `hi` and follow each
/// other without overlapping.
pub open spec fn spans_ordered(tokens: Seq<(Span, TokenView)>, lo: int, hi: int) -> bool {
    &&& forall|k: int| 0 <= k < tokens.len() ==> lo <= (#[trigger] tokens[k]).0.start <= tokens[k].0.end <= hi
    &&& forall|a: int, b: int| 0 <= a < b < tokens.len() ==> (#[trigger] tokens[a]).0.end <= (#[trigger] tokens[b]).0.start
}

/// Tokens come out in source order: each token's span is ordered, lies
/// within the input's bytes, and ends at or before the next one starts.
pub proof fn lemma_lex_spans_ordered(s: Seq<char>, i: int)
    requires
        0 <= i <= s.len(),
        byte_offset(s, s.len() as int) <= usize::MAX,
    ensures
        spans_ordered(lex_from(s, i).0, byte_offset(s, i), byte_offset(s, s.len() as int)),
    decreases s.len() - i,
{
    let hi = byte_offset(s, s.len() as int);
    lemma_byte_offset_mono(s, i, s.len() as int);
    if i >= s.len() {
        let toks = lex_from(s, i).0;
        assert(toks.len() == 1);
    } else {
        let c = s[i];
        lemma_scan_ends(s, i + 1);
        if is_whitespace(c) {
            lemma_lex_spans_ordered(s, i + 1);
            lemma_byte_offset_mono(s, i, i + 1);
        } else if c == '/' && char_at(s, i + 1, '/') {
            lemma_scan_ends(s, i + 2);
            lemma_lex_spans_ordered(s, comment_end(s, i + 2));
            lemma_byte_offset_mono(s, i, comment_end(s, i + 2));
        } else {
            let j = if is_ident_start(c) {
                ident_end(s, i + 1)
            } else if is_ascii_digit(c) {
                digits_end(s, i + 1)
            } else {
                match symbol_at(s, i) {
                    Some((sym, n)) => i + n,
                    None => i + 1,
                }
            };
            lemma_symbol_width(s, i);
            lemma_lex_spans_ordered(s, j);
            lemma_byte_offset_mono(s, i, j);
            lemma_byte_offset_mono(s, j, s.len() as int);
            let toks = lex_from(s, i).0;
            let rest = lex_from(s, j).0;
            if is_ident_start(c) || is_ascii_digit(c) || symbol_at(s, i) is Some {
                assert(toks == seq![(char_span(s, i, j), toks[0].1)] + rest);
                assert forall|k: int| 0 <= k < toks.len() implies byte_offset(s, i) <= (#[trigger] toks[k]).0.start <= toks[k].0.end <= hi by {
                    if k > 0 {
                        assert(toks[k] == rest[k - 1]);
                    }
                }
                assert forall|a: int, b: int| 0 <= a < b < toks.len() implies (#[trigger] toks[a]).0.end <= (#[trigger] toks[b]).0.start by {
                    assert(toks[b] == rest[b - 1]);
                    if a > 0 {
                        assert(toks[a] == rest[a - 1]);
                    }
                }
            } else {
                assert(toks == rest);
            }
        }
    }
}

/// Lexing diagnostics point into the input: each span is ordered and lies
/// within the input's bytes.
pub proof fn lemma_lex_errors_within(s: Seq<char>, i: int)
    requires
        0 <= i <= s.len(),
        byte_offset(s, s.len() as int) <= usize::MAX,
    ensures
        forall|k: int| 0 <= k < lex_from(s, i).1.len() ==> byte_offset(s, i) <= (#[trigger] lex_from(s, i).1[k]).0.start
            <= lex_from(s, i).1[k].0.end <= byte_offset(s, s.len() as int),
    decreases s.len() - i,
{
    lemma_byte_offset_mono(s, i, s.len() as int);
    if i < s.len() {
        let c = s[i];
        lemma_scan_ends(s, i + 1);
        if is_whitespace(c) {
            lemma_lex_errors_within(s, i + 1);
            lemma_byte_offset_mono(s, i, i + 1);
            assert(lex_from(s, i).1 == lex_from(s, i + 1).1);
        } else if c == '/' && char_at(s, i + 1, '/') {
            lemma_scan_ends(s, i + 2);
            lemma_lex_errors_within(s, comment_end(s, i + 2));
            lemma_byte_offset_mono(s, i, comment_end(s, i + 2));
            assert(lex_from(s, i).1 == lex_from(s, comment_end(s, i + 2)).1);
        } else {
            let j = if is_ident_start(c) {
                ident_end(s, i + 1)
            } else if is_ascii_digit(c) {
                digits_end(s, i + 1)
            } else {
                match symbol_at(s, i) {
                    Some((sym, n)) => i + n,
                    None => i + 1,
                }
            };
            lemma_symbol_width(s, i);
            lemma_lex_errors_within(s, j);
            lemma_byte_offset_mono(s, i, j);
            lemma_byte_offset_mono(s, j, s.len() as int);
            let errs = lex_from(s, i).1;
            let rest = lex_from(s, j).1;
            if is_ident_start(c) || is_ascii_digit(c) || symbol_at(s, i) is Some {
                assert(errs == rest);
            } else {
                assert(errs == seq![(char_span(s, i, i + 1), unexpected_message(c))] + rest);
                assert forall|k: int| 0 <= k < errs.len() implies byte_offset(s, i) <= (#[trigger] errs[k]).0.start
                    <= errs[k].0.end <= byte_offset(s, s.len() as int) by {
                    if k > 0 {
                        assert(errs[k] == rest[k - 1]);
                    }
                }
            }
        }
    }
}

/// Every lexing diagnostic has a message.
pub proof fn lemma_lex_error_messages(s: Seq<char>, i: int, k: int)
    requires
        0 <= i,
        0 <= k < lex_from(s, i).1.len(),
    ensures
        lex_from(s, i).1[k].1.len() > 0,
    decreases s.len() - i,
{
    if i < s.len() {
        let c = s[i];
        lemma_scan_ends(s, i + 1);
        if is_whitespace(c) {
            lemma_lex_error_messages(s, i + 1, k);
        } else if c == '/' && char_at(s, i + 1, '/') {
            lemma_scan_ends(s, i + 2);
            lemma_lex_error_messages(s, comment_end(s, i + 2), k);
        } else if is_ident_start(c) {
            lemma_lex_error_messages(s, ident_end(s, i + 1), k);
        } else if is_ascii_digit(c) {
            lemma_lex_error_messages(s, digits_end(s, i + 1), k);
        } else {
            lemma_symbol_width(s, i);
            match symbol_at(s, i) {
                Some((sym, n)) => {
                    lemma_lex_error_messages(s, i + n, k);
                },
                None => {
                    if k > 0 {
                        lemma_lex_error_messages(s, i + 1, k - 1);
                    } else {
                        assert(lex_from(s, i).1[0].1 == unexpected_message(c));
                        assert(unexpected_message(c).len() >= 1);
                    }
                },
            }
        }
    }
}

/// A symbol starting at `i` is one or two characters within the input.
proof fn lemma_symbol_width(s: Seq<char>, i: int)
    requires
        0 <= i < s.len(),
    ensures
        symbol_at(s, i) matches Some((sym, n)) ==> 1 <= n && i + n <= s.len(),
{
}

// ---------------------------------------------------------------------
// The lexer

/// Lexes the input into tokens ending with `Eof`, or returns the
/// diagnostics for the characters that start no token.
pub fn lex(input: &str) -> (r: Result<Vec<Token>, Vec<Diagnostic>>)
    requires
        input.spec_bytes().len() <= usize::MAX,
    ensures
        ({
            let spec = lex_from(input@, 0);
            match r {
                Ok(tokens) => {
                    &&& spec.1.len() == 0
                    &&& tokens@.map_values(|t: Token| token_view(t)) == spec.0
                },
                Err(diags) => {
                    &&& spec.1.len() > 0
                    &&& diags@.len() == spec.1.len()
                    &&& forall|k: int| 0 <= k < diags@.len() ==> {
                        &&& (#[trigger] diags@[k]).severity == DiagnosticSeverity::Error
                        &&& diags@[k].span == spec.1[k].0
                        &&& diags@[k].message@ == spec.1[k].1
                    }
                },
            }
        }),
{
    let chars = str_chars(input);
    let ghost s = input@;
    let n = chars.len();
    let total = input.len();
    proof {
        assert(s.take(n as int) =~= s);
        assert(total as int == byte_offset(s, n as int));
    }
    let mut tokens: Vec<Token> = Vec::new();
    let mut diagnostics: Vec<Diagnostic> = Vec::new();
    let mut i: usize = 0;
    let mut offset: usize = 0;
    proof {
        assert(s.take(0) =~= Seq::<char>::empty());
        assert(tokens@.map_values(|t: Token| token_view(t)) + lex_from(s, 0).0 =~= lex_from(s, 0).0);
        assert(diagnostics@.map_values(|d: Diagnostic| (d.span, d.message@)) + lex_from(s, 0).1 =~= lex_from(s, 0).1);
    }
    while i < n
        invariant
            chars@ == s,
            n == s.len(),
            total as int == byte_offset(s, n as int),
            0 <= i <= n,
            offset as int == byte_offset(s, i as int),
            tokens@.map_values(|t: Token| token_view(t)) + lex_from(s, i as int).0 == lex_from(s, 0).0,
            diagnostics@.map_values(|d: Diagnostic| (d.span, d.message@)) + lex_from(s, i as int).1
                == lex_from(s, 0).1,
            forall|k: int| 0 <= k < diagnostics@.len() ==> (#[trigger] diagnostics@[k]).severity
                == DiagnosticSeverity::Error,
        decreases n - i,
    {
        let ghost tv = tokens@.map_values(|t: Token| token_view(t));
        let ghost dv = diagnostics@.map_values(|d: Diagnostic| (d.span, d.message@));
        let ghost old_i = i as int;
        proof {
            lemma_byte_offset_step(s, i as int);
            lemma_byte_offset_mono(s, i as int + 1, n as int);
        }
        let c = chars[i];
        if whitespace(c) {
            offset = offset + width(c);
            i = i + 1;
            continue;
        }
        if c == '/' && i + 1 < n && chars[i + 1] == '/' {
            // A line comment runs through the next newline.
            proof {
                lemma_byte_offset_step(s, i as int + 1);
                lemma_byte_offset_mono(s, i as int + 2, n as int);
            }
            offset = offset + width(c);
            offset = offset + width(chars[i + 1]);
            i = i + 2;
            while i < n
                invariant_except_break
                    comment_end(s, old_i + 2) == comment_end(s, i as int),
                invariant
                    chars@ == s,
                    n == s.len(),
                    total as int == byte_offset(s, n as int),
                    old_i + 2 <= i <= n,
                    offset as int == byte_offset(s, i as int),
                ensures
                    i as int == comment_end(s, old_i + 2),
                    offset as int == byte_offset(s, i as int),
                    old_i + 2 <= i <= n,
                decreases n - i,
            {
                proof {
                    lemma_byte_offset_step(s, i as int);
                    lemma_byte_offset_mono(s, i as int + 1, n as int);
                }
                let d = chars[i];
                offset = offset + width(d);
                i = i + 1;
                if d == '\n' {
                    break;
                }
            }
            continue;
        }
        if ident_start(c) {
            let start_offset = offset;
            offset = offset + width(c);
            i = i + 1;
            let mut text = String::new();
            push_char(&mut text, c);
            proof {
                assert(text@ =~= s.subrange(old_i, i as int));
            }
            while i < n && ident_continue(chars[i])
                invariant
                    chars@ == s,
                    n == s.len(),
                    total as int == byte_offset(s, n as int),
                    0 <= old_i,
                    old_i + 1 <= i <= n,
                    offset as int == byte_offset(s, i as int),
                    ident_end(s, old_i + 1) == ident_end(s, i as int),
                    text@ == s.subrange(old_i, i as int),
                decreases n - i,
            {
                proof {
                    lemma_byte_offset_step(s, i as int);
                    lemma_byte_offset_mono(s, i as int + 1, n as int);
                }
                let ghost prev = text@;
                let d = chars[i];
                push_char(&mut text, d);
                offset = offset + width(d);
                i = i + 1;
                proof {
                    assert(prev == s.subrange(old_i, i - 1));
                    assert(text@ == prev.push(s[i - 1]));
                    assert(text@ =~= s.subrange(old_i, i as int));
                }
            }
            let kind = match keyword_from_text(&text) {
                Some(k) => TokenKind::Keyword(k),
                None => TokenKind::Ident(text),
            };
            tokens.push(Node::new(Span::new(start_offset, offset), kind));
            proof {
                let rest = lex_from(s, i as int);
                assert(tokens@.map_values(|t: Token| token_view(t)) =~= tv.push(
                    (char_span(s, old_i, i as int), token_view(tokens@.last()).1),
                ));
                assert(tokens@.map_values(|t: Token| token_view(t)) + rest.0 =~= tv + lex_from(s, old_i).0);
            }
            continue;
        }
        if ascii_digit(c) {
            let start_offset = offset;
            offset = offset + width(c);
            i = i + 1;
            let mut text = String::new();
            push_char(&mut text, c);
            proof {
                assert(text@ =~= s.subrange(old_i, i as int));
            }
            while i < n && ascii_digit(chars[i])
                invariant
                    chars@ == s,
                    n == s.len(),
                    total as int == byte_offset(s, n as int),
                    0 <= old_i,
                    old_i + 1 <= i <= n,
                    offset as int == byte_offset(s, i as int),
                    digits_end(s, old_i + 1) == digits_end(s, i as int),
                    text@ == s.subrange(old_i, i as int),
                    all_digits(text@),
                decreases n - i,
            {
                proof {
                    lemma_byte_offset_step(s, i as int);
                    lemma_byte_offset_mono(s, i as int + 1, n as int);
                }
                let ghost prev = text@;
                let d = chars[i];
                push_char(&mut text, d);
                offset = offset + width(d);
                i = i + 1;
                proof {
                    assert(prev == s.subrange(old_i, i - 1));
                    assert(text@ == prev.push(s[i - 1]));
                    assert(text@ =~= s.subrange(old_i, i as int));
                }
            }
            let value = int_from_decimal(text.as_str());
            tokens.push(Node::new(Span::new(start_offset, offset), TokenKind::Int(value)));
            proof {
                let rest = lex_from(s, i as int);
                assert(tokens@.map_values(|t: Token| token_view(t)) =~= tv.push(
                    (char_span(s, old_i, i as int), token_view(tokens@.last()).1),
                ));
                assert(tokens@.map_values(|t: Token| token_view(t)) + rest.0 =~= tv + lex_from(s, old_i).0);
            }
            continue;
        }
        let next = if i + 1 < n { Some(chars[i + 1]) } else { None };
        match symbol_from(c, next) {
            Some((sym, len)) => {
                let start_offset = offset;
                if len == 2 {
                    proof {
                        lemma_byte_offset_step(s, i as int + 1);
                        lemma_byte_offset_mono(s, i as int + 2, n as int);
                    }
                    offset = offset + width(c);
                    offset = offset + width(chars[i + 1]);
                    i = i + 2;
                } else {
                    offset = offset + width(c);
                    i = i + 1;
                }
                tokens.push(Node::new(Span::new(start_offset, offset), TokenKind::Symbol(sym)));
                proof {
                    let rest = lex_from(s, i as int);
                    assert(tokens@.map_values(|t: Token| token_view(t)) =~= tv.push(
                        (char_span(s, old_i, i as int), TokenView::Symbol(sym)),
                    ));
                    assert(tokens@.map_values(|t: Token| token_view(t)) + rest.0 =~= tv + lex_from(s, old_i).0);
                }
            },
            None => {
                let start_offset = offset;
                offset = offset + width(c);
                i = i + 1;
                let mut message = String::new();
                push_str(&mut message, "unexpected character `");
                push_char(&mut message, c);
                push_str(&mut message, "`");
                diagnostics.push(Diagnostic::error(Span::new(start_offset, offset), message));
                proof {
                    let rest = lex_from(s, i as int);
                    assert(message@ =~= unexpected_message(c));
                    assert(diagnostics@.map_values(|d: Diagnostic| (d.span, d.message@)) =~= dv.push(
                        (char_span(s, old_i, i as int), unexpected_message(c)),
                    ));
                    assert(diagnostics@.map_values(|d: Diagnostic| (d.span, d.message@)) + rest.1 =~= dv + lex_from(s, old_i).1);
                }
            },
        }
    }
    tokens.push(Node::new(Span::new(offset, offset), TokenKind::Eof));
    proof {
        assert(tokens@.map_values(|t: Token| token_view(t)) =~= lex_from(s, 0).0);
        assert(diagnostics@.map_values(|d: Diagnostic| (d.span, d.message@)) =~= lex_from(s, 0).1);
    }
    if diagnostics.len() == 0 {
        Ok(tokens)
    } else {
        proof {
            assert forall|k: int| 0 <= k < diagnostics@.len() implies {
                &&& (#[trigger] diagnostics@[k]).span == lex_from(s, 0).1[k].0
                &&& diagnostics@[k].message@ == lex_from(s, 0).1[k].1
            } by {
                assert(diagnostics@.map_values(|d: Diagnostic| (d.span, d.message@))[k] == (diagnostics@[k].span, diagnostics@[k].message@));
            }
        }
        Err(diagnostics)
    }
}

/// The characters of a string slice.
fn str_chars(input: &str) -> (r: Vec<char>)
    ensures
        r@ == input@,
{
    let n = input.unicode_len();
    let mut v: Vec<char> = Vec::new();
    let mut i: usize = 0;
    while i < n
        invariant
            n == input@.len(),
            0 <= i <= n,
            v@ == input@.take(i as int),
        decreases n - i,
    {
        v.push(input.get_char(i));
        i = i + 1;
        proof {
            assert(v@ =~= input@.take(i as int));
        }
    }
    proof {
        assert(input@.take(n as int) =~= input@);
    }
    v
}

/// The keyword spelled by an identifier's text.
fn keyword_from_text(text: &String) -> (r: Option<Keyword>)
    ensures
        r == keyword_of(text@),
{
    let t = text.as_str();
    if crate::text::str_eq(t, "use") { Some(Keyword::Use) }
    else if crate::text::str_eq(t, "const") { Some(Keyword::Const) }
    else if crate::text::str_eq(t, "struct") { Some(Keyword::Struct) }
    else if crate::text::str_eq(t, "enum") { Some(Keyword::Enum) }
    else if crate::text::str_eq(t, "interface") { Some(Keyword::Interface) }
    else if crate::text::str_eq(t, "impl") { Some(Keyword::Impl) }
    else if crate::text::str_eq(t, "for") { Some(Keyword::For) }
    else if crate::text::str_eq(t, "fn") { Some(Keyword::Fn) }
    else if crate::text::str_eq(t, "self") { Some(Keyword::SelfLower) }
    else if crate::text::str_eq(t, "Self") { Some(Keyword::SelfUpper) }
    else if crate::text::str_eq(t, "mut") { Some(Keyword::Mut) }
    else if crate::text::str_eq(t, "where") { Some(Keyword::Where) }
    else if crate::text::str_eq(t, "match") { Some(Keyword::Match) }
    else if crate::text::str_eq(t, "if") { Some(Keyword::If) }
    else if crate::text::str_eq(t, "else") { Some(Keyword::Else) }
    else if crate::text::str_eq(t, "return") { Some(Keyword::Return) }
    else if crate::text::str_eq(t, "true") { Some(Keyword::True) }
    else if crate::text::str_eq(t, "false") { Some(Keyword::False) }
    else if crate::text::str_eq(t, "as") { Some(Keyword::As) }
    else if crate::text::str_eq(t, "let") { Some(Keyword::Let) }
    else if crate::text::str_eq(t, "todo") { Some(Keyword::Todo) }
    else { None }
}

/// The symbol spelled by `c` followed by `next`, with its length in
/// characters.
fn symbol_from(c: char, next: Option<char>) -> (r: Option<(Symbol, usize)>)
    ensures
        forall|s: Seq<char>, i: int|
            0 <= i < s.len() && s[i] == c && (next == if i + 1 < s.len() { Some(s[i + 1]) } else { None::<char> })
                ==> #[trigger] symbol_at(s, i) == match r {
                    Some((sym, n)) => Some((sym, n as int)),
                    None => None::<(Symbol, int)>,
                },
        r matches Some((_, n)) ==> (n == 1 || (n == 2 && next is Some)),
{
    let nx = match next { Some(d) => d, None => '\0' };
    let has = next.is_some();
    if c == '(' { Some((Symbol::LParen, 1)) }
    else if c == ')' { Some((Symbol::RParen, 1)) }
    else if c == '{' { Some((Symbol::LBrace, 1)) }
    else if c == '}' { Some((Symbol::RBrace, 1)) }
    else if c == '[' { Some((Symbol::LBracket, 1)) }
    else if c == ']' { Some((Symbol::RBracket, 1)) }
    else if c == ':' { if has && nx == ':' { Some((Symbol::ColonColon, 2)) } else { Some((Symbol::Colon, 1)) } }
    else if c == ';' { Some((Symbol::Semi, 1)) }
    else if c == ',' { Some((Symbol::Comma, 1)) }
    else if c == '.' { Some((Symbol::Dot, 1)) }
    else if c == '+' { Some((Symbol::Plus, 1)) }
    else if c == '-' { if has && nx == '>' { Some((Symbol::Arrow, 2)) } else { Some((Symbol::Minus, 1)) } }
    else if c == '*' { Some((Symbol::Star, 1)) }
    else if c == '/' { Some((Symbol::Slash, 1)) }
    else if c == '%' { Some((Symbol::Percent, 1)) }
    else if c == '&' { if has && nx == '&' { Some((Symbol::AmpAmp, 2)) } else { Some((Symbol::Amp, 1)) } }
    else if c == '|' { if has && nx == '|' { Some((Symbol::PipePipe, 2)) } else { Some((Symbol::Pipe, 1)) } }
    else if c == '^' { Some((Symbol::Caret, 1)) }
    else if c == '=' {
        if has && nx == '=' { Some((Symbol::EqEq, 2)) }
        else if has && nx == '>' { Some((Symbol::FatArrow, 2)) }
        else { Some((Symbol::Eq, 1)) }
    }
    else if c == '!' { if has && nx == '=' { Some((Symbol::Ne, 2)) } else { Some((Symbol::Bang, 1)) } }
    else if c == '<' {
        if has && nx == '<' { Some((Symbol::Shl, 2)) }
        else if has && nx == '=' { Some((Symbol::Le, 2)) }
        else { Some((Symbol::Lt, 1)) }
    }
    else if c == '>' {
        if has && nx == '>' { Some((Symbol::Shr, 2)) }
        else if has && nx == '=' { Some((Symbol::Ge, 2)) }
        else { Some((Symbol::Gt, 1)) }
    }
    else { None }
}

} // verus!
