//! The recursive-descent parser: tokens to the syntax tree.

use vstd::prelude::*;
use vstd::string::StringSliceAdditionalSpecFns;
use crate::ast::{
    AssocConstImpl, AssocConstImplKind, AssocConstSig, AssocConstSigKind, BinaryOp, Block,
    BlockKind, ConstBinaryOp, ConstExpr, ConstExprKind, ConstItem, ConstItemKind, ConstUnaryOp,
    EnumCtorArgsKind, EnumItem, EnumItemKind, EnumPatArgsKind, EnumVariant, EnumVariantKind, Expr,
    ExprKind, Field, FieldExprKind, FieldExpr, FieldKind, FieldPat, FieldPatKind, FnItem,
    FnItemKind, GenericArg, GenericArgKind, GenericParam, GenericParamKind, ImplItem, ImplItemKind,
    ImplMember, ImplMemberKind, IntTy, IntWidth, InterfaceItem, InterfaceItemKind,
    InterfaceMember, InterfaceMemberKind, InterfaceRef, InterfaceRefKind, Item, ItemKind, LetStmt,
    LetStmtKind, MatchArm, MatchArmKind, MethodDefKind, MethodSig, MethodSigKind, Mutability,
    Param, ParamKind, Pat, PatKind, Path, PathKind, Program, ProgramKind, Receiver, ReceiverKind,
    Signedness, Stmt, StmtKind, StructItem, StructItemKind, Ty, TyKind, UnaryOp, UseItem,
    UseItemKind, VariantPayloadKind, WherePredicate, WherePredicateKind,
};
use crate::diagnostic::Diagnostic;
use crate::lexer::{lex, copy_token, Keyword, Symbol as TokSymbol, Token, TokenKind};
use crate::span::{Node, Span};
use crate::text::{owned, push_str};

verus! {

/// The diagnostics of a failed parse.
#[derive(Debug)]
pub struct ParseError {
    pub diagnostics: Vec<Diagnostic>,
}

/// Lexes and parses a whole source text. Lexing errors are returned as
/// they are; otherwise the program is returned when the parser reported
/// nothing.
pub fn parse_program(input: &str) -> (r: Result<Program, ParseError>)
    requires
        input.spec_bytes().len() <= usize::MAX,
    ensures
        r matches Err(e) ==> e.diagnostics@.len() > 0,
        r matches Err(e) ==> forall|k: int| 0 <= k < e.diagnostics@.len() ==>
            (#[trigger] e.diagnostics@[k]).severity == crate::diagnostic::DiagnosticSeverity::Error,
        crate::lexer::lex_from(input@, 0).1.len() > 0 ==> (r matches Err(e)
            && e.diagnostics@.len() == crate::lexer::lex_from(input@, 0).1.len()),
        r matches Err(e) ==> forall|k: int| 0 <= k < e.diagnostics@.len() ==>
            span_in(#[trigger] e.diagnostics@[k].span, input.spec_bytes().len() as int)
                && e.diagnostics@[k].message@.len() > 0,
        r matches Ok(p) ==> forall|k: int| 0 <= k < p.kind.items@.len() ==>
            span_in(#[trigger] p.kind.items@[k].span, input.spec_bytes().len() as int),
        crate::lexer::lex_from(input@, 0).1.len() == 0 && crate::lexer::lex_from(input@, 0).0[0].1 is Eof
            ==> (r matches Ok(p) && p.kind.items@.len() == 0),
        !(crate::lexer::lex_from(input@, 0).0[0].1 is Eof) ==> (r matches Ok(p) ==> p.kind.items@.len() > 0
            && item_led_by(crate::lexer::lex_from(input@, 0).0[0].1, p.kind.items@[0])),
        const_decl_text(input@) ==> (r matches Ok(p) && literal_constants(p.kind.items@)),
{
    let ghost s = input@;
    proof {
        assert(s.take(s.len() as int) =~= s);
        crate::lexer::lemma_lex_spans_ordered(s, 0);
        crate::lexer::lemma_lex_errors_within(s, 0);
    }
    let tokens = match lex(input) {
        Ok(tokens) => tokens,
        Err(diagnostics) => {
            proof {
                assert forall|k: int| 0 <= k < diagnostics@.len() implies
                    span_in(#[trigger] diagnostics@[k].span, input.spec_bytes().len() as int)
                        && diagnostics@[k].message@.len() > 0 by {
                    assert(diagnostics@[k].span == crate::lexer::lex_from(s, 0).1[k].0);
                    crate::lexer::lemma_lex_error_messages(s, 0, k);
                }
            }
            return Err(ParseError { diagnostics });
        },
    };
    proof {
        let views = tokens@.map_values(|t: Token| crate::lexer::token_view(t));
        assert(views.len() == tokens@.len());
        crate::lexer::lemma_lex_ends_with_eof(input@, 0);
        assert(views.last() == views[tokens@.len() - 1]);
        let last = tokens@.len() - 1;
        assert forall|k: int| 0 <= k < tokens@.len() implies #[trigger] tokens@[k].span == crate::lexer::lex_from(s, 0).0[k].0 by {
            assert(views[k] == crate::lexer::token_view(tokens@[k]));
        }
        assert(tokens@[last].span == crate::lexer::lex_from(s, 0).0[last].0);
        assert forall|k: int| 0 <= k < tokens@.len() implies span_in(#[trigger] tokens@[k].span, tokens@.last().span.end as int) by {
            assert(tokens@[k].span == crate::lexer::lex_from(s, 0).0[k].0);
            if k < last {
                assert(crate::lexer::lex_from(s, 0).0[k].0.end <= crate::lexer::lex_from(s, 0).0[last].0.start);
            }
        }
        assert forall|a: int, b: int| 0 <= a < b < tokens@.len() implies
            (#[trigger] tokens@[a]).span.end <= (#[trigger] tokens@[b]).span.start by {
            assert(tokens@[a].span == crate::lexer::lex_from(s, 0).0[a].0);
            assert(tokens@[b].span == crate::lexer::lex_from(s, 0).0[b].0);
        }
    }
    let mut parser = Parser { tokens, pos: 0, diagnostics: Vec::new() };
    proof {
        let views = parser.tokens@.map_values(|t: Token| crate::lexer::token_view(t));
        let kinds = crate::lexer::lex_from(s, 0).0.map_values(|t: (Span, crate::lexer::TokenView)| t.1);
        assert forall|k: int| 0 <= k < parser.tokens@.len() implies #[trigger] parser.kinds()[k] == kinds[k] by {
            assert(views[k] == crate::lexer::token_view(parser.tokens@[k]));
        }
        assert(parser.kinds() =~= kinds);
        assert(views[0] == crate::lexer::token_view(parser.tokens@[0]));
        assert(parser.current().kind@ == crate::lexer::lex_from(s, 0).0[0].1);
    }
    let program = parser.parse_program();
    if parser.diagnostics.len() == 0 {
        Ok(program)
    } else {
        proof {
            parser.lemma_diagnostics_well_formed();
        }
        Err(ParseError { diagnostics: parser.diagnostics })
    }
}

/// The binary operator a token stands for in an expression, with its
/// precedence (higher binds tighter).
pub open spec fn binary_op_of(k: TokenKind) -> Option<(BinaryOp, u8)> {
    match k {
        TokenKind::Symbol(TokSymbol::PipePipe) => Some((BinaryOp::Or, 1)),
        TokenKind::Symbol(TokSymbol::AmpAmp) => Some((BinaryOp::And, 2)),
        TokenKind::Symbol(TokSymbol::EqEq) => Some((BinaryOp::Eq, 3)),
        TokenKind::Symbol(TokSymbol::Ne) => Some((BinaryOp::Ne, 3)),
        TokenKind::Symbol(TokSymbol::Lt) => Some((BinaryOp::Lt, 3)),
        TokenKind::Symbol(TokSymbol::Le) => Some((BinaryOp::Le, 3)),
        TokenKind::Symbol(TokSymbol::Gt) => Some((BinaryOp::Gt, 3)),
        TokenKind::Symbol(TokSymbol::Ge) => Some((BinaryOp::Ge, 3)),
        TokenKind::Symbol(TokSymbol::Pipe) => Some((BinaryOp::BitOr, 4)),
        TokenKind::Symbol(TokSymbol::Caret) => Some((BinaryOp::BitXor, 5)),
        TokenKind::Symbol(TokSymbol::Amp) => Some((BinaryOp::BitAnd, 6)),
        TokenKind::Symbol(TokSymbol::Shl) => Some((BinaryOp::Shl, 7)),
        TokenKind::Symbol(TokSymbol::Shr) => Some((BinaryOp::Shr, 7)),
        TokenKind::Symbol(TokSymbol::Plus) => Some((BinaryOp::Add, 8)),
        TokenKind::Symbol(TokSymbol::Minus) => Some((BinaryOp::Sub, 8)),
        TokenKind::Symbol(TokSymbol::Star) => Some((BinaryOp::Mul, 9)),
        TokenKind::Symbol(TokSymbol::Slash) => Some((BinaryOp::Div, 9)),
        TokenKind::Symbol(TokSymbol::Percent) => Some((BinaryOp::Rem, 9)),
        _ => None,
    }
}

/// The binary operator a token stands for in a constant expression, with
/// its precedence (higher binds tighter).
pub open spec fn const_binary_op_of(k: TokenKind) -> Option<(ConstBinaryOp, u8)> {
    match k {
        TokenKind::Symbol(TokSymbol::Star) => Some((ConstBinaryOp::Mul, 7)),
        TokenKind::Symbol(TokSymbol::Slash) => Some((ConstBinaryOp::Div, 7)),
        TokenKind::Symbol(TokSymbol::Percent) => Some((ConstBinaryOp::Rem, 7)),
        TokenKind::Symbol(TokSymbol::Plus) => Some((ConstBinaryOp::Add, 6)),
        TokenKind::Symbol(TokSymbol::Minus) => Some((ConstBinaryOp::Sub, 6)),
        TokenKind::Symbol(TokSymbol::Shl) => Some((ConstBinaryOp::Shl, 5)),
        TokenKind::Symbol(TokSymbol::Shr) => Some((ConstBinaryOp::Shr, 5)),
        TokenKind::Symbol(TokSymbol::Amp) => Some((ConstBinaryOp::BitAnd, 4)),
        TokenKind::Symbol(TokSymbol::Caret) => Some((ConstBinaryOp::BitXor, 3)),
        TokenKind::Symbol(TokSymbol::Pipe) => Some((ConstBinaryOp::BitOr, 2)),
        _ => None,
    }
}

/// Whether a name is that of a primitive integer type.
pub open spec fn int_type_name(t: Seq<char>) -> bool {
    t == "i8"@ || t == "i16"@ || t == "i32"@ || t == "i64"@ || t == "i128"@ || t == "isize"@
        || t == "u8"@ || t == "u16"@ || t == "u32"@ || t == "u64"@ || t == "u128"@ || t == "usize"@
}

/// Whether a token is the symbol `s`.
pub open spec fn is_symbol(k: TokenKind, s: TokSymbol) -> bool {
    k matches TokenKind::Symbol(x) && x == s
}

/// Whether a token can start a constant expression.
pub open spec fn starts_const_expr(k: TokenKind) -> bool {
    k is Int || k is Ident || is_symbol(k, TokSymbol::Plus) || is_symbol(k, TokSymbol::Minus)
        || is_symbol(k, TokSymbol::LParen) || is_symbol(k, TokSymbol::Lt)
}

/// Whether a token ends the search for the `==` of a constant equality.
pub open spec fn ends_const_eq_search(k: TokenKind) -> bool {
    is_symbol(k, TokSymbol::Comma) || is_symbol(k, TokSymbol::LBrace) || k is Eof
}

/// Whether a token opens a bracket of a generic argument.
pub open spec fn opens_bracket(k: TokenKind) -> bool {
    is_symbol(k, TokSymbol::Lt) || is_symbol(k, TokSymbol::LParen) || is_symbol(k, TokSymbol::LBracket)
}

/// Whether a token closes a bracket of a generic argument.
pub open spec fn closes_bracket(k: TokenKind) -> bool {
    is_symbol(k, TokSymbol::Gt) || is_symbol(k, TokSymbol::RParen) || is_symbol(k, TokSymbol::RBracket)
}

/// Whether a token, outside brackets, shows a constant expression.
pub open spec fn const_operator(k: TokenKind) -> bool {
    is_symbol(k, TokSymbol::Plus) || is_symbol(k, TokSymbol::Minus) || is_symbol(k, TokSymbol::Star)
        || is_symbol(k, TokSymbol::Slash) || is_symbol(k, TokSymbol::Percent) || is_symbol(k, TokSymbol::Shl)
        || is_symbol(k, TokSymbol::Amp) || is_symbol(k, TokSymbol::Pipe) || is_symbol(k, TokSymbol::Caret)
        || (k matches TokenKind::Keyword(Keyword::As))
}

/// Whether the generic argument read from token `idx` on, `depth` brackets
/// deep, is a constant expression: an operator or `as` outside brackets
/// says so; a closing bracket, a `,` outside brackets or the end says not;
/// a `>>` that closes the list says so when a constant expression follows
/// it.
pub open spec fn const_arg_ahead(tokens: Seq<Token>, idx: int, depth: int) -> bool
    decreases tokens.len() - idx,
{
    if idx < 0 || idx >= tokens.len() {
        false
    } else {
        let k = tokens[idx].kind;
        if opens_bracket(k) {
            const_arg_ahead(tokens, idx + 1, depth + 1)
        } else if closes_bracket(k) {
            depth > 0 && const_arg_ahead(tokens, idx + 1, depth - 1)
        } else if is_symbol(k, TokSymbol::Shr) {
            if depth == 0 {
                idx + 1 < tokens.len() && starts_const_expr(tokens[idx + 1].kind)
            } else {
                depth > 1 && const_arg_ahead(tokens, idx + 1, depth - 2)
            }
        } else if is_symbol(k, TokSymbol::Comma) {
            depth > 0 && const_arg_ahead(tokens, idx + 1, depth)
        } else if const_operator(k) {
            depth == 0 || const_arg_ahead(tokens, idx + 1, depth)
        } else if k is Eof {
            false
        } else {
            const_arg_ahead(tokens, idx + 1, depth)
        }
    }
}

/// The name `Debug` gives a keyword.
pub open spec fn keyword_debug_name(k: Keyword) -> Seq<char> {
    match k {
        Keyword::Use => "Use"@,
        Keyword::Const => "Const"@,
        Keyword::Struct => "Struct"@,
        Keyword::Enum => "Enum"@,
        Keyword::Interface => "Interface"@,
        Keyword::Impl => "Impl"@,
        Keyword::For => "For"@,
        Keyword::Fn => "Fn"@,
        Keyword::SelfLower => "SelfLower"@,
        Keyword::SelfUpper => "SelfUpper"@,
        Keyword::Mut => "Mut"@,
        Keyword::Where => "Where"@,
        Keyword::Match => "Match"@,
        Keyword::If => "If"@,
        Keyword::Else => "Else"@,
        Keyword::Return => "Return"@,
        Keyword::True => "True"@,
        Keyword::False => "False"@,
        Keyword::As => "As"@,
        Keyword::Let => "Let"@,
        Keyword::Todo => "Todo"@,
    }
}

/// The name `Debug` gives a symbol.
pub open spec fn symbol_debug_name(s: TokSymbol) -> Seq<char> {
    match s {
        TokSymbol::LParen => "LParen"@,
        TokSymbol::RParen => "RParen"@,
        TokSymbol::LBrace => "LBrace"@,
        TokSymbol::RBrace => "RBrace"@,
        TokSymbol::LBracket => "LBracket"@,
        TokSymbol::RBracket => "RBracket"@,
        TokSymbol::Lt => "Lt"@,
        TokSymbol::Gt => "Gt"@,
        TokSymbol::Le => "Le"@,
        TokSymbol::Ge => "Ge"@,
        TokSymbol::Eq => "Eq"@,
        TokSymbol::EqEq => "EqEq"@,
        TokSymbol::Ne => "Ne"@,
        TokSymbol::Bang => "Bang"@,
        TokSymbol::Colon => "Colon"@,
        TokSymbol::ColonColon => "ColonColon"@,
        TokSymbol::Semi => "Semi"@,
        TokSymbol::Comma => "Comma"@,
        TokSymbol::Dot => "Dot"@,
        TokSymbol::Plus => "Plus"@,
        TokSymbol::Minus => "Minus"@,
        TokSymbol::Star => "Star"@,
        TokSymbol::Slash => "Slash"@,
        TokSymbol::Percent => "Percent"@,
        TokSymbol::Amp => "Amp"@,
        TokSymbol::AmpAmp => "AmpAmp"@,
        TokSymbol::Pipe => "Pipe"@,
        TokSymbol::PipePipe => "PipePipe"@,
        TokSymbol::Caret => "Caret"@,
        TokSymbol::Shl => "Shl"@,
        TokSymbol::Shr => "Shr"@,
        TokSymbol::Arrow => "Arrow"@,
        TokSymbol::FatArrow => "FatArrow"@,
    }
}

pub struct Parser {
    tokens: Vec<Token>,
    pos: usize,
    diagnostics: Vec<Diagnostic>,
}

/// What a parsing step keeps: the token stream stays well formed and as
/// long, the position only moves forward and diagnostics are only added.
pub open spec fn steps(old: Parser, new: Parser) -> bool {
    &&& new.wf()
    &&& new.token_count() == old.token_count()
    &&& old.position() <= new.position()
    &&& old.diagnostic_count() <= new.diagnostic_count()
    &&& new.source_end() == old.source_end()
    &&& old.current().span.start <= new.current().span.start
}

/// A parsing step that either produced a result after consuming at least
/// one token, or failed after reporting a diagnostic.
pub open spec fn parsed<T>(old: Parser, new: Parser, r: Option<T>) -> bool {
    &&& steps(old, new)
    &&& (r is Some ==> old.position() < new.position())
    &&& (r is None ==> old.diagnostic_count() < new.diagnostic_count())
}

/// Whether the current token is the keyword `k`.
pub open spec fn at_kw(p: Parser, k: Keyword) -> bool {
    p.current().kind matches TokenKind::Keyword(k2) && k2 == k
}

/// Whether the current token is the symbol `s`.
pub open spec fn at_sym(p: Parser, s: TokSymbol) -> bool {
    p.current().kind matches TokenKind::Symbol(s2) && s2 == s
}

/// Whether a span is ordered and ends by byte offset `end`.
pub open spec fn span_in(span: Span, end: int) -> bool {
    span.start <= span.end && span.end <= end
}

/// Whether a node parsed between `before` and `after` has an ordered span
/// that starts no earlier than the token parsing began at and ends no later
/// than the token parsing stopped at.
pub open spec fn node_in(before: Parser, after: Parser, span: Span) -> bool {
    &&& before.current().span.start <= span.start
    &&& span.start <= span.end
    &&& span.end <= after.current().span.start
}

/// Whether `item` is of the kind its leading keyword `t` starts.
pub open spec fn item_led_by(t: crate::lexer::TokenView, item: Item) -> bool {
    &&& (t == crate::lexer::TokenView::Keyword(Keyword::Use)) <==> item.kind is Use
    &&& (t == crate::lexer::TokenView::Keyword(Keyword::Const)) <==> item.kind is Const
    &&& (t == crate::lexer::TokenView::Keyword(Keyword::Struct)) <==> item.kind is Struct
    &&& (t == crate::lexer::TokenView::Keyword(Keyword::Enum)) <==> item.kind is Enum
    &&& (t == crate::lexer::TokenView::Keyword(Keyword::Interface)) <==> item.kind is Interface
    &&& (t == crate::lexer::TokenView::Keyword(Keyword::Impl)) <==> item.kind is Impl
    &&& (t == crate::lexer::TokenView::Keyword(Keyword::Fn)) <==> item.kind is Fn
}

/// Whether `t` is of the kind its leading token `tok` starts: a unit,
/// never, reference, array, function or `Self` type by its symbol or
/// keyword, and by an identifier the integer type it names, `bool`, or a
/// path whose first segment it is.
pub open spec fn ty_led_by(tok: Token, t: Ty) -> bool {
    &&& is_symbol(tok.kind, TokSymbol::LParen) ==> t.kind is Unit
    &&& is_symbol(tok.kind, TokSymbol::Bang) ==> t.kind is Never
    &&& is_symbol(tok.kind, TokSymbol::Amp) ==> t.kind is Ref
    &&& is_symbol(tok.kind, TokSymbol::LBracket) ==> t.kind is Array
    &&& tok.kind@ == crate::lexer::TokenView::Keyword(Keyword::Fn) ==> t.kind is Fn
    &&& tok.kind@ == crate::lexer::TokenView::Keyword(Keyword::SelfUpper) ==> t.kind is SelfTy
    &&& tok.kind@ matches crate::lexer::TokenView::Ident(name) ==> match int_ty_of_name(name) {
        Some(i) => t.kind == TyKind::Int(i),
        None => (t.kind is Bool && name == "bool"@)
            || (t.kind matches TyKind::Path { path, .. } && path.kind.segments@[0]@ == name),
    }
}

/// Whether `segs` are the segments of a path written from the current
/// token of `p` on: identifiers two tokens apart, each but the last
/// followed by `::`, and no `::` after the last.
pub open spec fn path_ahead(p: Parser, segs: Seq<String>) -> bool {
    &&& segs.len() >= 1
    &&& forall|i: int| 0 <= i < segs.len() ==> (#[trigger] p.ahead(2 * i)).kind@ == crate::lexer::TokenView::Ident(segs[i]@)
    &&& forall|i: int| 0 <= i < segs.len() - 1 ==> is_symbol((#[trigger] p.ahead(2 * i + 1)).kind, TokSymbol::ColonColon)
    &&& !is_symbol(p.ahead(2 * segs.len() - 1).kind, TokSymbol::ColonColon)
}

/// Whether parsing from `before` to `after` took the integer literal that
/// is the current token of `before` as the expression `r`, consuming just
/// that token over the same tokens and reporting nothing.
pub open spec fn int_literal_parsed(before: Parser, after: Parser, r: Option<ConstExpr>) -> bool {
    &&& r matches Some(e) && (e.kind matches ConstExprKind::IntLit(w)
        && before.current().kind matches TokenKind::Int(v) && w@ == v@)
    &&& after.position() == before.position() + 1
    &&& after.same_tokens(before)
    &&& after.diagnostic_count() == before.diagnostic_count()
}

/// Whether the tokens from the current one on read `const N: T = V;`, with
/// `T` the name of an integer type and `V` an integer literal.
pub open spec fn simple_const_ahead(p: Parser) -> bool {
    &&& p.ahead(0).kind@ == crate::lexer::TokenView::Keyword(Keyword::Const)
    &&& p.ahead(1).kind is Ident
    &&& is_symbol(p.ahead(2).kind, TokSymbol::Colon)
    &&& (p.ahead(3).kind matches TokenKind::Ident(t) && int_type_name(t@))
    &&& is_symbol(p.ahead(4).kind, TokSymbol::Eq)
    &&& p.ahead(5).kind is Int
    &&& is_symbol(p.ahead(6).kind, TokSymbol::Semi)
}

/// Whether `c` is the constant those tokens declare: its name, the integer
/// type named, and the literal as its expression.
pub open spec fn simple_const_parsed(p: Parser, c: ConstItem) -> bool {
    &&& p.ahead(1).kind@ == crate::lexer::TokenView::Ident(c.kind.name@)
    &&& (p.ahead(3).kind matches TokenKind::Ident(t) && int_ty_of_name(t@) == Some(c.kind.ty))
    &&& (c.kind.expr.kind matches ConstExprKind::IntLit(w) && (p.ahead(5).kind matches TokenKind::Int(v) && w@ == v@))
}

/// Whether the tokens at index `i` on read `const N: T = V;`, with `T` the
/// name of an integer type and `V` an integer literal.
pub open spec fn const_decl_at(vs: Seq<crate::lexer::TokenView>, i: int) -> bool {
    &&& 0 <= i && i + 7 <= vs.len()
    &&& vs[i] == crate::lexer::TokenView::Keyword(Keyword::Const)
    &&& vs[i + 1] is Ident
    &&& vs[i + 2] == crate::lexer::TokenView::Symbol(TokSymbol::Colon)
    &&& (vs[i + 3] matches crate::lexer::TokenView::Ident(t) && int_type_name(t))
    &&& vs[i + 4] == crate::lexer::TokenView::Symbol(TokSymbol::Eq)
    &&& vs[i + 5] is Int
    &&& vs[i + 6] == crate::lexer::TokenView::Symbol(TokSymbol::Semi)
}

/// Whether the tokens from index `i` on are such declarations, one after
/// another, up to the closing `Eof`.
pub open spec fn const_decls_from(vs: Seq<crate::lexer::TokenView>, i: int) -> bool
    decreases vs.len() - i,
{
    if i < 0 || i >= vs.len() {
        false
    } else if vs[i] is Eof {
        true
    } else {
        const_decl_at(vs, i) && const_decls_from(vs, i + 7)
    }
}

/// Whether every item is a constant whose expression is an integer literal.
pub open spec fn literal_constants(items: Seq<Item>) -> bool {
    forall|k: int| 0 <= k < items.len() ==> ((#[trigger] items[k]).kind matches ItemKind::Const(c)
        && c.kind.expr.kind is IntLit)
}

/// Whether a text lexes without error to declarations `const N: T = V;`
/// only (`T` an integer type name, `V` an integer literal), or to nothing.
pub open spec fn const_decl_text(text: Seq<char>) -> bool {
    crate::lexer::lex_from(text, 0).1.len() == 0 && const_decls_from(
        crate::lexer::lex_from(text, 0).0.map_values(|t: (Span, crate::lexer::TokenView)| t.1), 0)
}

/// How tightly an expression operator binds, loosest first: `||`, then
/// `&&`, then the comparisons `==`, `!=`, `<`, `<=`, `>`, `>=`, then `|`,
/// then `^`, then `&`, then the shifts, then `+` and `-`, then `*`, `/` and
/// `%`.
pub open spec fn expression_operator_rank(op: BinaryOp) -> int {
    match op {
        BinaryOp::Or => 0,
        BinaryOp::And => 1,
        BinaryOp::Eq | BinaryOp::Ne | BinaryOp::Lt | BinaryOp::Le | BinaryOp::Gt | BinaryOp::Ge => 2,
        BinaryOp::BitOr => 3,
        BinaryOp::BitXor => 4,
        BinaryOp::BitAnd => 5,
        BinaryOp::Shl | BinaryOp::Shr => 6,
        BinaryOp::Add | BinaryOp::Sub => 7,
        BinaryOp::Mul | BinaryOp::Div | BinaryOp::Rem => 8,
    }
}

/// The parser's binding strengths order expression operators as
/// `expression_operator_rank` does: one operator binds more tightly than
/// another exactly when it comes later in that list, so `&&` binds less
/// tightly than every comparison and `||` less tightly than `&&`.
pub proof fn law_expression_operator_precedence(a: TokenKind, b: TokenKind)
    requires
        binary_op_of(a) is Some,
        binary_op_of(b) is Some,
    ensures
        (binary_op_of(a)->0).1 < (binary_op_of(b)->0).1
            <==> expression_operator_rank((binary_op_of(a)->0).0) < expression_operator_rank((binary_op_of(b)->0).0),
        (binary_op_of(a)->0).1 == (binary_op_of(b)->0).1
            <==> expression_operator_rank((binary_op_of(a)->0).0) == expression_operator_rank((binary_op_of(b)->0).0),
{
}

/// Whether `k` is one of the comparison symbols `==`, `!=`, `<`, `<=`,
/// `>`, `>=`.
pub open spec fn is_comparison_symbol(k: TokenKind) -> bool {
    ||| is_symbol(k, TokSymbol::EqEq)
    ||| is_symbol(k, TokSymbol::Ne)
    ||| is_symbol(k, TokSymbol::Lt)
    ||| is_symbol(k, TokSymbol::Le)
    ||| is_symbol(k, TokSymbol::Gt)
    ||| is_symbol(k, TokSymbol::Ge)
}

/// Whether `op` is a comparison.
pub open spec fn is_comparison_op(op: BinaryOp) -> bool {
    match op {
        BinaryOp::Eq | BinaryOp::Ne | BinaryOp::Lt | BinaryOp::Le | BinaryOp::Gt | BinaryOp::Ge => true,
        _ => false,
    }
}

/// Two comparisons joined by `&&` or `||`, as in `a == b && c == d`, read
/// as the logical operator applied to the two comparisons: the parser
/// takes such tokens as `(x o y) p (z r w)` (see `expr_quad_tree`), with
/// `p` the logical operator at the root.
pub proof fn law_logical_operators_join_comparisons(p: Parser)
    requires
        p.ahead(0).kind is Int,
        is_comparison_symbol(p.ahead(1).kind),
        p.ahead(2).kind is Int,
        is_symbol(p.ahead(3).kind, TokSymbol::AmpAmp) || is_symbol(p.ahead(3).kind, TokSymbol::PipePipe),
        p.ahead(4).kind is Int,
        is_comparison_symbol(p.ahead(5).kind),
        p.ahead(6).kind is Int,
        ends_expr_operand(p.ahead(7), 0),
    ensures
        expr_quad_ahead(p, 0),
        is_symbol(p.ahead(3).kind, TokSymbol::AmpAmp) ==> (binary_op_of(p.ahead(3).kind)->0).0 == BinaryOp::And,
        is_symbol(p.ahead(3).kind, TokSymbol::PipePipe) ==> (binary_op_of(p.ahead(3).kind)->0).0 == BinaryOp::Or,
        is_comparison_op((binary_op_of(p.ahead(1).kind)->0).0),
        is_comparison_op((binary_op_of(p.ahead(5).kind)->0).0),
{
}

/// How tightly a constant operator binds, loosest first: `|`, then `^`,
/// then `&`, then the shifts, then `+` and `-`, then `*`, `/` and `%`.
pub open spec fn const_operator_rank(op: ConstBinaryOp) -> int {
    match op {
        ConstBinaryOp::BitOr => 0,
        ConstBinaryOp::BitXor => 1,
        ConstBinaryOp::BitAnd => 2,
        ConstBinaryOp::Shl | ConstBinaryOp::Shr => 3,
        ConstBinaryOp::Add | ConstBinaryOp::Sub => 4,
        ConstBinaryOp::Mul | ConstBinaryOp::Div | ConstBinaryOp::Rem => 5,
    }
}

/// The parser's binding strengths order constant operators as
/// `const_operator_rank` does.
pub proof fn law_const_operator_precedence(a: TokenKind, b: TokenKind)
    requires
        const_binary_op_of(a) is Some,
        const_binary_op_of(b) is Some,
    ensures
        (const_binary_op_of(a)->0).1 < (const_binary_op_of(b)->0).1
            <==> const_operator_rank((const_binary_op_of(a)->0).0) < const_operator_rank((const_binary_op_of(b)->0).0),
        (const_binary_op_of(a)->0).1 == (const_binary_op_of(b)->0).1
            <==> const_operator_rank((const_binary_op_of(a)->0).0) == const_operator_rank((const_binary_op_of(b)->0).0),
{
}

/// Whether the token `t` ends a constant operand for operators that bind
/// at least as tightly as `min_prec`: it is not `as`, and not an operator
/// that binds so tightly.
pub open spec fn ends_const_operand(t: Token, min_prec: u8) -> bool {
    &&& t.kind@ != crate::lexer::TokenView::Keyword(Keyword::As)
    &&& match const_binary_op_of(t.kind) {
        Some((_, q)) => q < min_prec,
        None => true,
    }
}

/// Whether `e` is the integer literal that the token `t` is.
pub open spec fn const_literal_of(e: ConstExpr, t: Token) -> bool {
    e.kind matches ConstExprKind::IntLit(w) && (t.kind matches TokenKind::Int(v) && w@ == v@)
}

/// Whether the tokens from the current one read `x o y` (integers and an
/// operator binding at least as tightly as `min_prec`), then a token that
/// is neither `as` nor an operator.
pub open spec fn const_pair_ahead(p: Parser, min_prec: u8) -> bool {
    &&& p.ahead(0).kind is Int
    &&& (const_binary_op_of(p.ahead(1).kind) matches Some((_, q)) && min_prec <= q)
    &&& p.ahead(2).kind is Int
    &&& ends_const_operand(p.ahead(3), 0)
}

/// Whether the tokens from the current one read `x o y p z` (integers and
/// operators binding at least as tightly as `min_prec`), then a token that
/// is neither `as` nor an operator.
pub open spec fn const_triple_ahead(p: Parser, min_prec: u8) -> bool {
    &&& p.ahead(0).kind is Int
    &&& (const_binary_op_of(p.ahead(1).kind) matches Some((_, q)) && min_prec <= q)
    &&& p.ahead(2).kind is Int
    &&& (const_binary_op_of(p.ahead(3).kind) matches Some((_, q)) && min_prec <= q)
    &&& p.ahead(4).kind is Int
    &&& ends_const_operand(p.ahead(5), 0)
}

/// Whether `e` is the operator of token `t` applied to `l` and `r`.
pub open spec fn const_applied(e: ConstExpr, t: Token, l: ConstExpr, r: ConstExpr) -> bool {
    match e.kind {
        ConstExprKind::Binary { op, lhs, rhs } => const_binary_op_of(t.kind) matches Some((o, _)) && op == o
            && *lhs == l && *rhs == r,
        _ => false,
    }
}

/// Whether `e` is `x o y` read from the current token on.
pub open spec fn const_pair_tree(p: Parser, e: ConstExpr) -> bool {
    match e.kind {
        ConstExprKind::Binary { lhs, rhs, .. } => const_applied(e, p.ahead(1), *lhs, *rhs)
            && const_literal_of(*lhs, p.ahead(0)) && const_literal_of(*rhs, p.ahead(2)),
        _ => false,
    }
}

/// Whether `e` is `x o y` read from the current token on (the first two
/// operands of `x o y p z`).
pub open spec fn const_first_pair_tree(p: Parser, e: ConstExpr) -> bool {
    const_pair_tree(p, e)
}

/// Whether `e` is `x o y p z`, read from the current token on, grouped by
/// binding strength: `(x o y) p z` when `o` binds at least as tightly as
/// `p`, so that operators of one strength group to the left, and
/// `x o (y p z)` when `p` binds more tightly.
pub open spec fn const_triple_tree(p: Parser, e: ConstExpr) -> bool {
    let q1 = (const_binary_op_of(p.ahead(1).kind)->0).1;
    let q2 = (const_binary_op_of(p.ahead(3).kind)->0).1;
    match e.kind {
        ConstExprKind::Binary { lhs, rhs, .. } => if q2 <= q1 {
            const_applied(e, p.ahead(3), *lhs, *rhs) && const_literal_of(*rhs, p.ahead(4))
                && (match lhs.kind {
                    ConstExprKind::Binary { lhs: a, rhs: b, .. } => const_applied(*lhs, p.ahead(1), *a, *b)
                        && const_literal_of(*a, p.ahead(0)) && const_literal_of(*b, p.ahead(2)),
                    _ => false,
                })
        } else {
            const_applied(e, p.ahead(1), *lhs, *rhs) && const_literal_of(*lhs, p.ahead(0))
                && (match rhs.kind {
                    ConstExprKind::Binary { lhs: a, rhs: b, .. } => const_applied(*rhs, p.ahead(3), *a, *b)
                        && const_literal_of(*a, p.ahead(2)) && const_literal_of(*b, p.ahead(4)),
                    _ => false,
                })
        },
        _ => false,
    }
}

/// An operator token is not the closing `Eof`.
proof fn lemma_op_token_not_eof(t: Token)
    ensures
        const_binary_op_of(t.kind) is Some ==> !(t.kind is Eof) && t.kind@ != crate::lexer::TokenView::Keyword(Keyword::As),
{
}

/// Whether the token `t` opens no call, field access or index.
pub open spec fn ends_postfix(t: Token) -> bool {
    &&& !is_symbol(t.kind, TokSymbol::LParen)
    &&& !is_symbol(t.kind, TokSymbol::Dot)
    &&& !is_symbol(t.kind, TokSymbol::LBracket)
}

/// Whether the token `t` ends an expression operand for operators that
/// bind at least as tightly as `min_prec`: it opens no call, field or
/// index, and is not an operator that binds so tightly.
pub open spec fn ends_expr_operand(t: Token, min_prec: u8) -> bool {
    &&& ends_postfix(t)
    &&& match binary_op_of(t.kind) {
        Some((_, q)) => q < min_prec,
        None => true,
    }
}

/// Whether `e` is the integer literal that the token `t` is.
pub open spec fn expr_literal_of(e: Expr, t: Token) -> bool {
    e.kind matches ExprKind::IntLit(w) && (t.kind matches TokenKind::Int(v) && w@ == v@)
}

/// Whether parsing from `before` to `after` took the integer literal that
/// is the current token of `before` as the expression `r`, consuming just
/// that token over the same tokens and reporting nothing.
pub open spec fn expr_literal_parsed(before: Parser, after: Parser, r: Option<Expr>) -> bool {
    &&& r matches Some(e) && expr_literal_of(e, before.current())
    &&& after.position() == before.position() + 1
    &&& after.same_tokens(before)
    &&& after.diagnostic_count() == before.diagnostic_count()
}

/// Whether the tokens from the current one read `x o y` (integers and an
/// operator binding at least as tightly as `min_prec`), then a token that
/// ends the expression.
pub open spec fn expr_pair_ahead(p: Parser, min_prec: u8) -> bool {
    &&& p.ahead(0).kind is Int
    &&& (binary_op_of(p.ahead(1).kind) matches Some((_, q)) && min_prec <= q)
    &&& p.ahead(2).kind is Int
    &&& ends_expr_operand(p.ahead(3), 0)
}

/// Whether the tokens from the current one read `x o y p z` (integers and
/// operators binding at least as tightly as `min_prec`), then a token that
/// ends the expression.
pub open spec fn expr_triple_ahead(p: Parser, min_prec: u8) -> bool {
    &&& p.ahead(0).kind is Int
    &&& (binary_op_of(p.ahead(1).kind) matches Some((_, q)) && min_prec <= q)
    &&& p.ahead(2).kind is Int
    &&& (binary_op_of(p.ahead(3).kind) matches Some((_, q)) && min_prec <= q)
    &&& p.ahead(4).kind is Int
    &&& ends_expr_operand(p.ahead(5), 0)
}

/// Whether `e` is the operator of token `t` applied to `l` and `r`.
pub open spec fn expr_applied(e: Expr, t: Token, l: Expr, r: Expr) -> bool {
    match e.kind {
        ExprKind::Binary { op, lhs, rhs } => binary_op_of(t.kind) matches Some((o, _)) && op == o
            && *lhs == l && *rhs == r,
        _ => false,
    }
}

/// Whether `e` is `x o y` read from the current token on.
pub open spec fn expr_pair_tree(p: Parser, e: Expr) -> bool {
    match e.kind {
        ExprKind::Binary { lhs, rhs, .. } => expr_applied(e, p.ahead(1), *lhs, *rhs)
            && expr_literal_of(*lhs, p.ahead(0)) && expr_literal_of(*rhs, p.ahead(2)),
        _ => false,
    }
}

/// Whether `e` is `x o y p z`, read from the current token on, grouped by
/// binding strength: `(x o y) p z` when `o` binds at least as tightly as
/// `p`, so that operators of one strength group to the left, and
/// `x o (y p z)` when `p` binds more tightly (so `x == y && z` is
/// `(x == y) && z` and `x && y == z` is `x && (y == z)`).
pub open spec fn expr_triple_tree(p: Parser, e: Expr) -> bool {
    let q1 = (binary_op_of(p.ahead(1).kind)->0).1;
    let q2 = (binary_op_of(p.ahead(3).kind)->0).1;
    match e.kind {
        ExprKind::Binary { lhs, rhs, .. } => if q2 <= q1 {
            expr_applied(e, p.ahead(3), *lhs, *rhs) && expr_literal_of(*rhs, p.ahead(4))
                && expr_pair_tree(p, *lhs)
        } else {
            expr_applied(e, p.ahead(1), *lhs, *rhs) && expr_literal_of(*lhs, p.ahead(0))
                && (match rhs.kind {
                    ExprKind::Binary { lhs: a, rhs: b, .. } => expr_applied(*rhs, p.ahead(3), *a, *b)
                        && expr_literal_of(*a, p.ahead(2)) && expr_literal_of(*b, p.ahead(4)),
                    _ => false,
                })
        },
        _ => false,
    }
}

/// Whether the tokens from the current one read `x o y p z r w`
/// (integers and operators), then a token that ends the expression, where
/// `p` binds at least as tightly as `min_prec` and less tightly than both
/// `o` and `r`.
pub open spec fn expr_quad_ahead(p: Parser, min_prec: u8) -> bool {
    &&& p.ahead(0).kind is Int
    &&& binary_op_of(p.ahead(1).kind) is Some
    &&& p.ahead(2).kind is Int
    &&& binary_op_of(p.ahead(3).kind) is Some
    &&& p.ahead(4).kind is Int
    &&& binary_op_of(p.ahead(5).kind) is Some
    &&& p.ahead(6).kind is Int
    &&& ends_expr_operand(p.ahead(7), 0)
    &&& min_prec <= (binary_op_of(p.ahead(3).kind)->0).1
    &&& (binary_op_of(p.ahead(3).kind)->0).1 < (binary_op_of(p.ahead(1).kind)->0).1
    &&& (binary_op_of(p.ahead(3).kind)->0).1 < (binary_op_of(p.ahead(5).kind)->0).1
}

/// Whether `e` is `(x o y) p (z r w)` read from the current token on.
pub open spec fn expr_quad_tree(p: Parser, e: Expr) -> bool {
    match e.kind {
        ExprKind::Binary { lhs, rhs, .. } => expr_applied(e, p.ahead(3), *lhs, *rhs) && expr_pair_tree(p, *lhs)
            && (match rhs.kind {
                ExprKind::Binary { lhs: a, rhs: b, .. } => expr_applied(*rhs, p.ahead(5), *a, *b)
                    && expr_literal_of(*a, p.ahead(4)) && expr_literal_of(*b, p.ahead(6)),
                _ => false,
            }),
        _ => false,
    }
}

/// An expression operator token is not the closing `Eof`.
proof fn lemma_expr_op_token_not_eof(t: Token)
    ensures
        binary_op_of(t.kind) is Some ==> !(t.kind is Eof),
{
}

/// Whether the current token starts a top-level item.
pub open spec fn at_item_start(p: Parser) -> bool {
    ||| at_kw(p, Keyword::Use)
    ||| at_kw(p, Keyword::Const)
    ||| at_kw(p, Keyword::Struct)
    ||| at_kw(p, Keyword::Enum)
    ||| at_kw(p, Keyword::Interface)
    ||| at_kw(p, Keyword::Impl)
    ||| at_kw(p, Keyword::Fn)
}

impl Parser {
    /// There is a current token, the last token is `Eof`, and every
    /// diagnostic reported so far is an error.
    pub closed spec fn wf(self) -> bool {
        &&& self.tokens@.len() > 0
        &&& self.pos < self.tokens@.len()
        &&& self.tokens@.last().kind is Eof
        &&& forall|k: int| 0 <= k < self.diagnostics@.len() ==>
            (#[trigger] self.diagnostics@[k]).severity == crate::diagnostic::DiagnosticSeverity::Error
        &&& self.spans_wf()
    }

    /// Token spans are ordered, follow one another and lie within the
    /// source, and every diagnostic's span lies within the source.
    closed spec fn spans_wf(self) -> bool {
        &&& forall|k: int| 0 <= k < self.tokens@.len() ==> span_in(#[trigger] self.tokens@[k].span, self.source_end())
        &&& forall|a: int, b: int| 0 <= a < b < self.tokens@.len()
            ==> (#[trigger] self.tokens@[a]).span.end <= (#[trigger] self.tokens@[b]).span.start
        &&& forall|k: int| 0 <= k < self.diagnostics@.len() ==> span_in(#[trigger] self.diagnostics@[k].span, self.source_end())
        &&& forall|k: int| 0 <= k < self.diagnostics@.len() ==> (#[trigger] self.diagnostics@[k]).message@.len() > 0
    }

    /// The byte offset where the source ends: where its `Eof` token stands.
    pub closed spec fn source_end(self) -> int {
        self.tokens@.last().span.end as int
    }

    /// The span of the token before the current one.
    pub closed spec fn previous(self) -> Span {
        if self.pos > 0 { self.tokens@[self.pos - 1].span } else { Span::default_spec() }
    }

    /// The spans of the diagnostics reported so far.
    pub closed spec fn report_spans(self) -> Seq<Span> {
        self.diagnostics@.map_values(|d: Diagnostic| d.span)
    }

    /// What `wf` says of the diagnostics: each is an error with a message,
    /// at an ordered span within the source.
    proof fn lemma_diagnostics_well_formed(&self)
        requires
            self.wf(),
        ensures
            forall|k: int| 0 <= k < self.diagnostics@.len() ==>
                (#[trigger] self.diagnostics@[k]).severity == crate::diagnostic::DiagnosticSeverity::Error,
            forall|k: int| 0 <= k < self.diagnostics@.len() ==> span_in(#[trigger] self.diagnostics@[k].span, self.source_end()),
            forall|k: int| 0 <= k < self.diagnostics@.len() ==> (#[trigger] self.diagnostics@[k]).message@.len() > 0,
    {
    }

    pub closed spec fn token_count(self) -> nat {
        self.tokens@.len()
    }

    pub closed spec fn position(self) -> int {
        self.pos as int
    }

    pub closed spec fn diagnostic_count(self) -> nat {
        self.diagnostics@.len()
    }

    /// The number of tokens not yet consumed.
    pub closed spec fn remaining(self) -> int {
        self.tokens@.len() - self.pos
    }

    pub closed spec fn current(self) -> Token {
        self.tokens@[self.pos as int]
    }

    /// The token `k` places after the current one, or the closing `Eof`
    /// where the stream ends before it.
    pub closed spec fn ahead(self, k: int) -> Token {
        if 0 <= self.pos + k < self.tokens@.len() { self.tokens@[self.pos + k] } else { self.tokens@.last() }
    }

    /// Whether two parser states hold the same token stream.
    pub closed spec fn same_tokens(self, other: Parser) -> bool {
        self.tokens@ == other.tokens@
    }

    /// The kinds of the tokens, as views.
    pub closed spec fn kinds(self) -> Seq<crate::lexer::TokenView> {
        self.tokens@.map_values(|t: Token| t.kind@)
    }

    /// A declaration read at the current position is one ahead of it.
    proof fn lemma_const_decl_ahead(self)
        requires
            self.wf(),
            const_decl_at(self.kinds(), self.position()),
        ensures
            simple_const_ahead(self),
    {
        let vs = self.kinds();
        let i = self.position();
        assert(vs[i] == self.tokens@[i].kind@);
        assert(vs[i + 1] == self.tokens@[i + 1].kind@);
        assert(vs[i + 2] == self.tokens@[i + 2].kind@);
        assert(vs[i + 3] == self.tokens@[i + 3].kind@);
        assert(vs[i + 4] == self.tokens@[i + 4].kind@);
        assert(vs[i + 5] == self.tokens@[i + 5].kind@);
        assert(vs[i + 6] == self.tokens@[i + 6].kind@);
    }

    /// Over the same tokens, looking ahead from a later position is looking
    /// further ahead from an earlier one.
    proof fn lemma_ahead_shift(self, earlier: Parser, d: int)
        requires
            self.same_tokens(earlier),
            self.position() == earlier.position() + d,
        ensures
            forall|k: int| k >= 0 ==> #[trigger] self.ahead(k) == earlier.ahead(d + k),
    {
    }

    /// Over the same tokens, the current token is the one as many places
    /// ahead of an earlier state as the position moved.
    proof fn lemma_current_ahead(self, earlier: Parser)
        requires
            self.wf(),
            self.same_tokens(earlier),
            earlier.position() <= self.position(),
        ensures
            self.current() == earlier.ahead(self.position() - earlier.position()),
    {
    }

    /// The span and message of the last diagnostic reported.
    pub closed spec fn last_report(self) -> (Span, Seq<char>) {
        (self.diagnostics@.last().span, self.diagnostics@.last().message@)
    }

    fn parse_program(&mut self) -> (r: Program)
        requires
            old(self).wf(),
        ensures
            steps(*old(self), *final(self)),
            forall|k: int| 0 <= k < r.kind.items@.len() ==> span_in(#[trigger] r.kind.items@[k].span, final(self).source_end()),
            old(self).current().kind is Eof ==> r.kind.items@.len() == 0 && final(self).diagnostic_count() == old(self).diagnostic_count(),
            !(old(self).current().kind is Eof) && final(self).diagnostic_count() == old(self).diagnostic_count()
                ==> r.kind.items@.len() > 0 && item_led_by(old(self).current().kind@, r.kind.items@[0]),
            const_decls_from(old(self).kinds(), old(self).position())
                ==> final(self).diagnostic_count() == old(self).diagnostic_count() && literal_constants(r.kind.items@),
    {
        let ghost decls = const_decls_from(old(self).kinds(), old(self).position());
        let start = self.peek().span.start;
        let mut items: Vec<Item> = Vec::new();
        while !self.at_eof()
            invariant
                steps(*old(self), *self),
                forall|k: int| 0 <= k < items@.len() ==> span_in(#[trigger] items@[k].span, self.source_end())
                    && items@[k].span.end <= self.current().span.start,
                items@.len() == 0 ==> (self.current() == old(self).current() && self.diagnostic_count() == old(self).diagnostic_count())
                    || self.diagnostic_count() > old(self).diagnostic_count(),
                items@.len() > 0 && self.diagnostic_count() == old(self).diagnostic_count()
                    ==> item_led_by(old(self).current().kind@, items@[0]),
                old(self).current().kind is Eof ==> items@.len() == 0 && self.current() == old(self).current()
                    && self.diagnostic_count() == old(self).diagnostic_count(),
                decls == const_decls_from(old(self).kinds(), old(self).position()),
                decls ==> self.same_tokens(*old(self)) && const_decls_from(self.kinds(), self.position())
                    && self.diagnostic_count() == old(self).diagnostic_count() && literal_constants(items@),
            decreases self.remaining(),
        {
            let ghost before = *self;
            proof {
                if decls {
                    assert(self.kinds() == old(self).kinds());
                    assert(self.kinds()[self.position()] == self.current().kind@);
                    self.lemma_const_decl_ahead();
                }
            }
            let at_item = self.at_item_keyword();
            match self.parse_item() {
                Some(item) => {
                    proof {
                        if items@.len() == 0 && self.diagnostic_count() == old(self).diagnostic_count() {
                            assert(before.current() == old(self).current());
                        }
                    }
                    items.push(item);
                },
                None => {
                    let ghost mid = *self;
                    self.synchronize_item();
                    proof {
                        if !at_item {
                            assert(mid.position() == before.position());
                            assert(mid.current() == before.current());
                            assert(!at_sync_item(mid));
                        }
                    }
                },
            }
        }
        let end = if items.len() > 0 { items[items.len() - 1].span.end } else { start };
        Node::new(Span::new(start, end), ProgramKind { items })
    }

    /// Whether the current token starts a top-level item.
    fn at_item_keyword(&self) -> (r: bool)
        requires
            self.wf(),
        ensures
            r == at_item_start(*self),
    {
        match &self.peek().kind {
            TokenKind::Keyword(k) => *k == Keyword::Use || *k == Keyword::Const || *k
                == Keyword::Struct || *k == Keyword::Enum || *k == Keyword::Interface || *k
                == Keyword::Impl || *k == Keyword::Fn,
            _ => false,
        }
    }

    fn parse_item(&mut self) -> (r: Option<Item>)
        requires
            old(self).wf(),
        ensures
            r matches Some(x) ==> node_in(*old(self), *final(self), x.span),
            parsed(*old(self), *final(self), r),
            at_item_start(*old(self)) ==> old(self).position() < final(self).position(),
            !at_item_start(*old(self)) ==> old(self).position() == final(self).position(),
            !at_item_start(*old(self)) ==> final(self).current() == old(self).current(),
            !at_item_start(*old(self)) ==> r is None
                && final(self).last_report() == (old(self).current().span, "expected top-level item"@),
            r matches Some(item) ==> {
                &&& at_kw(*old(self), Keyword::Use) <==> item.kind is Use
                &&& at_kw(*old(self), Keyword::Const) <==> item.kind is Const
                &&& at_kw(*old(self), Keyword::Struct) <==> item.kind is Struct
                &&& at_kw(*old(self), Keyword::Enum) <==> item.kind is Enum
                &&& at_kw(*old(self), Keyword::Interface) <==> item.kind is Interface
                &&& at_kw(*old(self), Keyword::Impl) <==> item.kind is Impl
                &&& at_kw(*old(self), Keyword::Fn) <==> item.kind is Fn
            },
            simple_const_ahead(*old(self)) ==> (r matches Some(item) && (item.kind matches ItemKind::Const(c)
                && simple_const_parsed(*old(self), c))
                && final(self).position() == old(self).position() + 7 && final(self).same_tokens(*old(self))
                && final(self).diagnostic_count() == old(self).diagnostic_count()),
    {
        if self.at_keyword(Keyword::Use) {
            let item = self.parse_use_item()?;
            return Some(Node::new(item.span, ItemKind::Use(item)));
        }
        if self.at_keyword(Keyword::Const) {
            let item = self.parse_const_item()?;
            return Some(Node::new(item.span, ItemKind::Const(item)));
        }
        if self.at_keyword(Keyword::Struct) {
            let item = self.parse_struct_item()?;
            return Some(Node::new(item.span, ItemKind::Struct(item)));
        }
        if self.at_keyword(Keyword::Enum) {
            let item = self.parse_enum_item()?;
            return Some(Node::new(item.span, ItemKind::Enum(item)));
        }
        if self.at_keyword(Keyword::Interface) {
            let item = self.parse_interface_item()?;
            return Some(Node::new(item.span, ItemKind::Interface(item)));
        }
        if self.at_keyword(Keyword::Impl) {
            let item = self.parse_impl_item()?;
            return Some(Node::new(item.span, ItemKind::Impl(item)));
        }
        if self.at_keyword(Keyword::Fn) {
            let item = self.parse_fn_item()?;
            return Some(Node::new(item.span, ItemKind::Fn(item)));
        }
        let span = self.peek().span;
        proof {
            reveal_strlit("expected top-level item");
        }
        self.error(span, owned("expected top-level item"));
        None
    }

    // -----------------------------------------------------------------
    // Items

    fn parse_use_item(&mut self) -> (r: Option<UseItem>)
        requires
            old(self).wf(),
        ensures
            r matches Some(x) ==> node_in(*old(self), *final(self), x.span),
            parsed(*old(self), *final(self), r),
            at_kw(*old(self), Keyword::Use) ==> old(self).position() < final(self).position(),
    {
        let start = self.expect_keyword(Keyword::Use)?.span.start;
        let path = self.parse_path()?;
        let end = self.expect_symbol(TokSymbol::Semi)?.span.end;
        Some(Node::new(Span::new(start, end), UseItemKind { path }))
    }

    fn parse_const_item(&mut self) -> (r: Option<ConstItem>)
        requires
            old(self).wf(),
        ensures
            r matches Some(x) ==> node_in(*old(self), *final(self), x.span),
            parsed(*old(self), *final(self), r),
            at_kw(*old(self), Keyword::Const) ==> old(self).position() < final(self).position(),
            simple_const_ahead(*old(self)) ==> (r matches Some(c) && simple_const_parsed(*old(self), c)
                && final(self).position() == old(self).position() + 7 && final(self).same_tokens(*old(self))
                && final(self).diagnostic_count() == old(self).diagnostic_count()),
    {
        let ghost simple = simple_const_ahead(*old(self));
        let start = self.expect_keyword(Keyword::Const)?.span.start;
        proof { if simple { self.lemma_current_ahead(*old(self)); } }
        let name = self.expect_ident()?;
        proof { if simple { self.lemma_current_ahead(*old(self)); } }
        self.expect_symbol(TokSymbol::Colon)?;
        proof { if simple { self.lemma_current_ahead(*old(self)); } }
        let ty = self.parse_int_ty()?;
        proof { if simple { self.lemma_current_ahead(*old(self)); } }
        self.expect_symbol(TokSymbol::Eq)?;
        proof { if simple { self.lemma_current_ahead(*old(self)); } }
        let expr = self.parse_const_expr()?;
        proof { if simple { self.lemma_current_ahead(*old(self)); } }
        let end = self.expect_symbol(TokSymbol::Semi)?.span.end;
        Some(Node::new(Span::new(start, end), ConstItemKind { name: name.kind, ty, expr }))
    }

    fn parse_struct_item(&mut self) -> (r: Option<StructItem>)
        requires
            old(self).wf(),
        ensures
            r matches Some(x) ==> node_in(*old(self), *final(self), x.span),
            parsed(*old(self), *final(self), r),
            at_kw(*old(self), Keyword::Struct) ==> old(self).position() < final(self).position(),
    {
        let start = self.expect_keyword(Keyword::Struct)?.span.start;
        let name = self.expect_ident()?.kind;
        let generics = self.parse_generic_params();
        let where_predicates = self.parse_where_predicates();
        self.expect_symbol(TokSymbol::LBrace)?;
        let mut fields: Vec<Field> = Vec::new();
        while !self.at_symbol(TokSymbol::RBrace) && !self.at_eof()
            invariant
                parsed(*old(self), *self, Some(())),
            decreases self.remaining(),
        {
            fields.push(self.parse_field()?);
            self.eat_symbol(TokSymbol::Comma);
        }
        let end = self.expect_symbol(TokSymbol::RBrace)?.span.end;
        Some(Node::new(Span::new(start, end), StructItemKind { name, generics, where_predicates, fields }))
    }

    fn parse_enum_item(&mut self) -> (r: Option<EnumItem>)
        requires
            old(self).wf(),
        ensures
            r matches Some(x) ==> node_in(*old(self), *final(self), x.span),
            parsed(*old(self), *final(self), r),
            at_kw(*old(self), Keyword::Enum) ==> old(self).position() < final(self).position(),
    {
        let start = self.expect_keyword(Keyword::Enum)?.span.start;
        let name = self.expect_ident()?.kind;
        let generics = self.parse_generic_params();
        let repr = if self.eat_symbol(TokSymbol::Colon).is_some() {
            Some(self.parse_int_ty()?)
        } else {
            None
        };
        let where_predicates = self.parse_where_predicates();
        self.expect_symbol(TokSymbol::LBrace)?;
        let mut variants: Vec<EnumVariant> = Vec::new();
        while !self.at_symbol(TokSymbol::RBrace) && !self.at_eof()
            invariant
                parsed(*old(self), *self, Some(())),
            decreases self.remaining(),
        {
            variants.push(self.parse_enum_variant()?);
            self.eat_symbol(TokSymbol::Comma);
        }
        let end = self.expect_symbol(TokSymbol::RBrace)?.span.end;
        Some(Node::new(Span::new(start, end), EnumItemKind { name, generics, where_predicates, repr, variants }))
    }

    fn parse_enum_variant(&mut self) -> (r: Option<EnumVariant>)
        requires
            old(self).wf(),
        ensures
            parsed(*old(self), *final(self), r),
    {
        let name = self.expect_ident()?;
        let start = name.span.start;
        let payload = if self.eat_symbol(TokSymbol::LParen).is_some() {
            let mut tys: Vec<Ty> = Vec::new();
            if !self.at_symbol(TokSymbol::RParen) {
                loop
                    invariant
                        parsed(*old(self), *self, Some(())),
                    decreases self.remaining(),
                {
                    tys.push(self.parse_ty()?);
                    if self.eat_symbol(TokSymbol::Comma).is_none() {
                        break;
                    }
                    if self.at_symbol(TokSymbol::RParen) {
                        break;
                    }
                }
            }
            let end = self.expect_symbol(TokSymbol::RParen)?.span.end;
            Node::new(Span::new(start, end), VariantPayloadKind::Tuple(tys))
        } else if self.eat_symbol(TokSymbol::LBrace).is_some() {
            let mut fields: Vec<Field> = Vec::new();
            while !self.at_symbol(TokSymbol::RBrace) && !self.at_eof()
                invariant
                    parsed(*old(self), *self, Some(())),
                decreases self.remaining(),
            {
                fields.push(self.parse_field()?);
                self.eat_symbol(TokSymbol::Comma);
            }
            let end = self.expect_symbol(TokSymbol::RBrace)?.span.end;
            Node::new(Span::new(start, end), VariantPayloadKind::Struct(fields))
        } else {
            Node::new(name.span, VariantPayloadKind::Unit)
        };
        let discriminant = if self.eat_symbol(TokSymbol::Eq).is_some() {
            Some(self.parse_const_expr()?)
        } else {
            None
        };
        let end = match &discriminant {
            Some(d) => d.span.end,
            None => payload.span.end,
        };
        Some(Node::new(Span::new(start, end), EnumVariantKind { name: name.kind, payload, discriminant }))
    }

    fn parse_interface_item(&mut self) -> (r: Option<InterfaceItem>)
        requires
            old(self).wf(),
        ensures
            r matches Some(x) ==> node_in(*old(self), *final(self), x.span),
            parsed(*old(self), *final(self), r),
            at_kw(*old(self), Keyword::Interface) ==> old(self).position() < final(self).position(),
    {
        let start = self.expect_keyword(Keyword::Interface)?.span.start;
        let name = self.expect_ident()?.kind;
        let generics = self.parse_generic_params();
        let mut super_interfaces: Vec<InterfaceRef> = Vec::new();
        if self.eat_symbol(TokSymbol::Colon).is_some() {
            loop
                invariant
                    parsed(*old(self), *self, Some(())),
                decreases self.remaining(),
            {
                super_interfaces.push(self.parse_interface_ref()?);
                if self.eat_symbol(TokSymbol::Plus).is_none() {
                    break;
                }
            }
        }
        self.expect_symbol(TokSymbol::LBrace)?;
        let mut members: Vec<InterfaceMember> = Vec::new();
        while !self.at_symbol(TokSymbol::RBrace) && !self.at_eof()
            invariant
                parsed(*old(self), *self, Some(())),
            decreases self.remaining(),
        {
            if self.at_keyword(Keyword::Const) {
                let sig = self.parse_assoc_const_sig()?;
                members.push(Node::new(sig.span, InterfaceMemberKind::AssocConst(sig)));
            } else if self.at_keyword(Keyword::Fn) {
                let sig = self.parse_method_sig(true)?;
                let end = self.expect_symbol(TokSymbol::Semi)?.span.end;
                let span = Span::new(sig.span.start, end);
                members.push(Node::new(span, InterfaceMemberKind::Method(sig)));
            } else {
                let span = self.peek().span;
                proof {
                    reveal_strlit("expected interface member");
                }
                self.error(span, owned("expected interface member"));
                self.synchronize_member();
            }
        }
        let end = self.expect_symbol(TokSymbol::RBrace)?.span.end;
        Some(Node::new(Span::new(start, end), InterfaceItemKind { name, generics, super_interfaces, members }))
    }

    fn parse_assoc_const_sig(&mut self) -> (r: Option<AssocConstSig>)
        requires
            old(self).wf(),
        ensures
            parsed(*old(self), *final(self), r),
    {
        let start = self.expect_keyword(Keyword::Const)?.span.start;
        let name = self.expect_ident()?.kind;
        self.expect_symbol(TokSymbol::Colon)?;
        let ty = self.parse_int_ty()?;
        let default = if self.eat_symbol(TokSymbol::Eq).is_some() {
            Some(self.parse_const_expr()?)
        } else {
            None
        };
        let end = self.expect_symbol(TokSymbol::Semi)?.span.end;
        Some(Node::new(Span::new(start, end), AssocConstSigKind { name, ty, default }))
    }

    fn parse_impl_item(&mut self) -> (r: Option<ImplItem>)
        requires
            old(self).wf(),
        ensures
            r matches Some(x) ==> node_in(*old(self), *final(self), x.span),
            parsed(*old(self), *final(self), r),
            at_kw(*old(self), Keyword::Impl) ==> old(self).position() < final(self).position(),
    {
        let start = self.expect_keyword(Keyword::Impl)?.span.start;
        let generics = self.parse_generic_params();
        let first = self.parse_ty()?;
        let (interface, self_ty) = if self.eat_keyword(Keyword::For).is_some() {
            let first_span = first.span;
            let interface = match first.kind {
                TyKind::Path { path, args } => Node::new(first_span, InterfaceRefKind { path, args }),
                _ => {
                    proof {
                        reveal_strlit("expected interface name before `for`");
                    }
                    self.error(first_span, owned("expected interface name before `for`"));
                    return None;
                },
            };
            let self_ty = self.parse_ty()?;
            (Some(interface), self_ty)
        } else {
            (None, first)
        };
        let where_predicates = self.parse_where_predicates();
        self.expect_symbol(TokSymbol::LBrace)?;
        let mut members: Vec<ImplMember> = Vec::new();
        while !self.at_symbol(TokSymbol::RBrace) && !self.at_eof()
            invariant
                parsed(*old(self), *self, Some(())),
            decreases self.remaining(),
        {
            if self.at_keyword(Keyword::Const) {
                let assoc = self.parse_assoc_const_impl()?;
                members.push(Node::new(assoc.span, ImplMemberKind::AssocConst(assoc)));
            } else if self.at_keyword(Keyword::Fn) {
                let sig = self.parse_method_sig(true)?;
                let body = self.parse_block_expr()?;
                let span = Span::new(sig.span.start, body.span.end);
                members.push(Node::new(span, ImplMemberKind::Method(Node::new(span, MethodDefKind { sig, body }))));
            } else {
                let span = self.peek().span;
                proof {
                    reveal_strlit("expected impl member");
                }
                self.error(span, owned("expected impl member"));
                self.synchronize_member();
            }
        }
        let end = self.expect_symbol(TokSymbol::RBrace)?.span.end;
        Some(Node::new(Span::new(start, end), ImplItemKind { generics, where_predicates, interface, self_ty, members }))
    }

    fn parse_assoc_const_impl(&mut self) -> (r: Option<AssocConstImpl>)
        requires
            old(self).wf(),
        ensures
            parsed(*old(self), *final(self), r),
    {
        let start = self.expect_keyword(Keyword::Const)?.span.start;
        let name = self.expect_ident()?.kind;
        self.expect_symbol(TokSymbol::Colon)?;
        let ty = self.parse_int_ty()?;
        self.expect_symbol(TokSymbol::Eq)?;
        let expr = self.parse_const_expr()?;
        let end = self.expect_symbol(TokSymbol::Semi)?.span.end;
        Some(Node::new(Span::new(start, end), AssocConstImplKind { name, ty, expr }))
    }

    fn parse_fn_item(&mut self) -> (r: Option<FnItem>)
        requires
            old(self).wf(),
        ensures
            r matches Some(x) ==> node_in(*old(self), *final(self), x.span),
            parsed(*old(self), *final(self), r),
            at_kw(*old(self), Keyword::Fn) ==> old(self).position() < final(self).position(),
    {
        let start = self.expect_keyword(Keyword::Fn)?.span.start;
        let name = self.expect_ident()?.kind;
        let generics = self.parse_generic_params();
        let params = self.parse_param_list(false)?;
        let ret = if self.eat_symbol(TokSymbol::Arrow).is_some() {
            self.parse_ty()?
        } else {
            Node::new(self.previous_span(), TyKind::Unit)
        };
        let where_predicates = self.parse_where_predicates();
        let body = self.parse_block_expr()?;
        let end = body.span.end;
        Some(Node::new(Span::new(start, end), FnItemKind { name, generics, where_predicates, params, ret, body }))
    }

    fn parse_method_sig(&mut self, allow_receiver: bool) -> (r: Option<MethodSig>)
        requires
            old(self).wf(),
        ensures
            parsed(*old(self), *final(self), r),
    {
        let start = self.expect_keyword(Keyword::Fn)?.span.start;
        let name = self.expect_ident()?.kind;
        let generics = self.parse_generic_params();
        self.expect_symbol(TokSymbol::LParen)?;
        let mut receiver: Option<Receiver> = None;
        let mut params: Vec<Param> = Vec::new();
        if !self.at_symbol(TokSymbol::RParen) {
            loop
                invariant
                    parsed(*old(self), *self, Some(())),
                decreases self.remaining(),
            {
                if allow_receiver && receiver.is_none() && self.at_keyword(Keyword::SelfLower) {
                    let recv_start = self.bump().span.start;
                    if self.eat_symbol(TokSymbol::Colon).is_some() {
                        self.expect_symbol(TokSymbol::Amp)?;
                        let mutability = if self.eat_keyword(Keyword::Mut).is_some() {
                            Mutability::Mutable
                        } else {
                            Mutability::Shared
                        };
                        self.expect_keyword(Keyword::SelfUpper)?;
                        receiver = Some(Node::new(Span::new(recv_start, self.previous_span().end), ReceiverKind::ByRef { mutability }));
                    } else {
                        receiver = Some(Node::new(Span::new(recv_start, self.previous_span().end), ReceiverKind::ByValue));
                    }
                } else {
                    params.push(self.parse_param()?);
                }
                if self.eat_symbol(TokSymbol::Comma).is_none() {
                    break;
                }
                if self.at_symbol(TokSymbol::RParen) {
                    break;
                }
            }
        }
        self.expect_symbol(TokSymbol::RParen)?;
        let ret = if self.eat_symbol(TokSymbol::Arrow).is_some() {
            self.parse_ty()?
        } else {
            Node::new(self.previous_span(), TyKind::Unit)
        };
        let end = ret.span.end;
        Some(Node::new(Span::new(start, end), MethodSigKind { name, generics, receiver, params, ret }))
    }

    fn parse_param_list(&mut self, allow_receiver: bool) -> (r: Option<Vec<Param>>)
        requires
            old(self).wf(),
        ensures
            parsed(*old(self), *final(self), r),
    {
        self.expect_symbol(TokSymbol::LParen)?;
        let mut params: Vec<Param> = Vec::new();
        if !self.at_symbol(TokSymbol::RParen) {
            loop
                invariant
                    parsed(*old(self), *self, Some(())),
                decreases self.remaining(),
            {
                if allow_receiver && self.at_keyword(Keyword::SelfLower) {
                    let span = self.peek().span;
                    proof {
                        reveal_strlit("receiver is only valid in method signatures");
                    }
                    self.error(span, owned("receiver is only valid in method signatures"));
                    return None;
                }
                params.push(self.parse_param()?);
                if self.eat_symbol(TokSymbol::Comma).is_none() {
                    break;
                }
                if self.at_symbol(TokSymbol::RParen) {
                    break;
                }
            }
        }
        self.expect_symbol(TokSymbol::RParen)?;
        Some(params)
    }

    fn parse_param(&mut self) -> (r: Option<Param>)
        requires
            old(self).wf(),
        ensures
            parsed(*old(self), *final(self), r),
    {
        let name = self.expect_ident()?;
        let start = name.span.start;
        self.expect_symbol(TokSymbol::Colon)?;
        let ty = self.parse_ty()?;
        let end = ty.span.end;
        Some(Node::new(Span::new(start, end), ParamKind { name: name.kind, ty }))
    }

    fn parse_field(&mut self) -> (r: Option<Field>)
        requires
            old(self).wf(),
        ensures
            parsed(*old(self), *final(self), r),
    {
        let name = self.expect_ident()?;
        let start = name.span.start;
        self.expect_symbol(TokSymbol::Colon)?;
        let ty = self.parse_ty()?;
        let end = ty.span.end;
        Some(Node::new(Span::new(start, end), FieldKind { name: name.kind, ty }))
    }

    fn parse_generic_params(&mut self) -> (r: Vec<GenericParam>)
        requires
            old(self).wf(),
        ensures
            steps(*old(self), *final(self)),
            !at_sym(*old(self), TokSymbol::Lt) ==> r@.len() == 0 && *final(self) == *old(self),
            at_sym(*old(self), TokSymbol::Lt) ==> old(self).position() < final(self).position(),
    {
        let mut params: Vec<GenericParam> = Vec::new();
        if self.eat_symbol(TokSymbol::Lt).is_none() {
            return params;
        }
        while !self.at_generic_gt() && !self.at_eof()
            invariant
                steps(*old(self), *self),
                old(self).position() < self.position(),
            decreases self.remaining(),
        {
            let start = self.peek().span.start;
            if self.eat_keyword(Keyword::Const).is_some() {
                let name = match self.expect_ident() {
                    Some(name) => name,
                    None => break,
                };
                if self.expect_symbol(TokSymbol::Colon).is_none() {
                    break;
                }
                let ty = match self.parse_int_ty() {
                    Some(ty) => ty,
                    None => break,
                };
                params.push(Node::new(Span::new(start, self.previous_span().end), GenericParamKind::Const { name: name.kind, ty }));
            } else {
                let name = match self.expect_ident() {
                    Some(name) => name,
                    None => break,
                };
                let mut bounds: Vec<InterfaceRef> = Vec::new();
                let ghost iter_start = *self;
                if self.eat_symbol(TokSymbol::Colon).is_some() {
                    loop
                        invariant
                            steps(*old(self), *self),
                            steps(iter_start, *self),
                        decreases self.remaining(),
                    {
                        if let Some(bound) = self.parse_interface_ref() {
                            bounds.push(bound);
                        }
                        if self.eat_symbol(TokSymbol::Plus).is_none() {
                            break;
                        }
                    }
                }
                params.push(Node::new(Span::new(start, self.previous_span().end), GenericParamKind::Type { name: name.kind, bounds }));
            }
            if self.eat_symbol(TokSymbol::Comma).is_none() {
                break;
            }
            if self.at_generic_gt() {
                break;
            }
        }
        self.expect_generic_gt();
        params
    }

    fn parse_where_predicates(&mut self) -> (r: Vec<WherePredicate>)
        requires
            old(self).wf(),
        ensures
            steps(*old(self), *final(self)),
            !at_kw(*old(self), Keyword::Where) ==> r@.len() == 0 && *final(self) == *old(self),
            at_kw(*old(self), Keyword::Where) ==> old(self).position() < final(self).position(),
    {
        let mut predicates: Vec<WherePredicate> = Vec::new();
        if self.eat_keyword(Keyword::Where).is_none() {
            return predicates;
        }
        loop
            invariant
                steps(*old(self), *self),
                old(self).position() < self.position(),
            decreases self.remaining(),
        {
            let start = self.peek().span.start;
            if self.looks_like_const_eq() {
                let lhs = match self.parse_const_expr() {
                    Some(e) => e,
                    None => break,
                };
                if self.expect_symbol(TokSymbol::EqEq).is_none() {
                    break;
                }
                let rhs = match self.parse_const_expr() {
                    Some(e) => e,
                    None => break,
                };
                let end = rhs.span.end;
                predicates.push(Node::new(Span::new(start, end), WherePredicateKind::ConstEq { lhs, rhs }));
            } else {
                let ty = match self.parse_ty() {
                    Some(t) => t,
                    None => break,
                };
                if self.expect_symbol(TokSymbol::Colon).is_none() {
                    break;
                }
                let interface = match self.parse_interface_ref() {
                    Some(i) => i,
                    None => break,
                };
                let end = interface.span.end;
                predicates.push(Node::new(Span::new(start, end), WherePredicateKind::Implements { ty, interface }));
            }
            if self.eat_symbol(TokSymbol::Comma).is_none() {
                break;
            }
        }
        predicates
    }

    /// Whether an `==` comes before the next `,`, `{` or the end.
    fn looks_like_const_eq(&self) -> (r: bool)
        requires
            self.wf(),
        ensures
            r == exists|j: int| self.pos <= j < self.tokens@.len()
                && is_symbol(#[trigger] self.tokens@[j].kind, TokSymbol::EqEq)
                && forall|k: int| self.pos <= k < j ==> !ends_const_eq_search(#[trigger] self.tokens@[k].kind),
    {
        let mut idx = self.pos;
        while idx < self.tokens.len()
            invariant
                self.wf(),
                self.pos <= idx <= self.tokens@.len(),
                forall|k: int| self.pos <= k < idx ==> !ends_const_eq_search(#[trigger] self.tokens@[k].kind)
                    && !is_symbol(self.tokens@[k].kind, TokSymbol::EqEq),
            decreases self.tokens@.len() - idx,
        {
            match &self.tokens[idx].kind {
                TokenKind::Symbol(TokSymbol::EqEq) => return true,
                TokenKind::Symbol(TokSymbol::Comma) | TokenKind::Symbol(TokSymbol::LBrace) | TokenKind::Eof => return false,
                _ => {
                    idx = idx + 1;
                },
            }
        }
        false
    }

    fn parse_interface_ref(&mut self) -> (r: Option<InterfaceRef>)
        requires
            old(self).wf(),
        ensures
            parsed(*old(self), *final(self), r),
    {
        let path = self.parse_path()?;
        let start = path.span.start;
        let path_end = path.span.end;
        let args = self.parse_generic_args();
        let end = if args.len() > 0 { args[args.len() - 1].span.end } else { path_end };
        Some(Node::new(Span::new(start, end), InterfaceRefKind { path, args }))
    }

    fn parse_int_ty(&mut self) -> (r: Option<IntTy>)
        requires
            old(self).wf(),
        ensures
            parsed(*old(self), *final(self), r),
            r is Some ==> final(self).previous() == old(self).current().span,
            old(self).current().kind matches TokenKind::Ident(t) ==> (int_type_name(t@) ==> (r == int_ty_of_name(t@)
                && final(self).position() == old(self).position() + 1 && final(self).same_tokens(*old(self))
                && final(self).diagnostic_count() == old(self).diagnostic_count())),
    {
        if let Some(ty) = self.try_parse_int_ty() {
            Some(ty)
        } else {
            let span = self.peek().span;
            proof {
                reveal_strlit("expected integer type");
            }
            self.error(span, owned("expected integer type"));
            None
        }
    }

    fn try_parse_int_ty(&mut self) -> (r: Option<IntTy>)
        requires
            old(self).wf(),
        ensures
            r is Some ==> final(self).previous() == old(self).current().span,
            steps(*old(self), *final(self)),
            final(self).diagnostic_count() == old(self).diagnostic_count(),
            r is Some ==> final(self).position() == old(self).position() + 1,
            r is Some ==> old(self).current().kind is Ident,
            r is None ==> *final(self) == *old(self),
            r is Some <==> (old(self).current().kind matches TokenKind::Ident(t) && int_type_name(t@)),
            old(self).current().kind matches TokenKind::Ident(t) ==> r == int_ty_of_name(t@),
            final(self).same_tokens(*old(self)),
    {
        let is_ident = self.at_ident();
        if !is_ident {
            return None;
        }
        let ty = match &self.peek().kind {
            TokenKind::Ident(text) => int_ty_named(text.as_str()),
            _ => None,
        };
        match ty {
            Some(t) => {
                self.bump();
                Some(t)
            },
            None => None,
        }
    }

    // -----------------------------------------------------------------
    // Types and constant expressions

    fn parse_ty(&mut self) -> (r: Option<Ty>)
        requires
            old(self).wf(),
        ensures
            r matches Some(t) ==> node_in(*old(self), *final(self), t.span),
            parsed(*old(self), *final(self), r),
            r matches Some(t) ==> t.span.start == old(self).current().span.start && ty_led_by(old(self).current(), t),
            r matches Some(t) ==> (t.kind matches TyKind::Ref { mutability, ty } ==> ({
                let inner = if mutability is Mutable { 2int } else { 1int };
                &&& (mutability is Mutable <==> old(self).ahead(1).kind@ == crate::lexer::TokenView::Keyword(Keyword::Mut))
                &&& ty.span.start == old(self).ahead(inner).span.start
                &&& ty_led_by(old(self).ahead(inner), *ty)
                &&& ty.span.end == t.span.end
            })),
            r matches Some(t) ==> (t.kind matches TyKind::Array { elem, len } ==> {
                &&& elem.span.start == old(self).ahead(1).span.start
                &&& ty_led_by(old(self).ahead(1), *elem)
                &&& elem.span.end <= len.span.start
                &&& len.span.end <= t.span.end
            }),
            at_sym(*old(self), TokSymbol::Bang) ==> (r matches Some(t) && t.kind is Never),
            at_kw(*old(self), Keyword::SelfUpper) ==> (r matches Some(t) && t.kind is SelfTy),
            r matches Some(t) ==> {
                &&& at_sym(*old(self), TokSymbol::LParen) ==> t.kind is Unit
                &&& at_sym(*old(self), TokSymbol::Amp) ==> t.kind is Ref
                &&& at_sym(*old(self), TokSymbol::LBracket) ==> t.kind is Array
                &&& at_kw(*old(self), Keyword::Fn) ==> t.kind is Fn
                &&& old(self).current().kind is Ident ==> (t.kind is Int || t.kind is Bool || t.kind is Path)
            },
            !(at_sym(*old(self), TokSymbol::LParen) || at_sym(*old(self), TokSymbol::Bang)
                || at_sym(*old(self), TokSymbol::Amp) || at_sym(*old(self), TokSymbol::LBracket)
                || at_kw(*old(self), Keyword::Fn) || at_kw(*old(self), Keyword::SelfUpper)
                || old(self).current().kind is Ident)
                ==> r is None && final(self).last_report() == (old(self).current().span, "expected type"@),
        decreases old(self).remaining(), 0nat,
    {
        let start = self.peek().span.start;
        if self.eat_symbol(TokSymbol::LParen).is_some() {
            if self.eat_symbol(TokSymbol::RParen).is_some() {
                return Some(Node::new(Span::new(start, self.previous_span().end), TyKind::Unit));
            }
            let end = self.peek().span.end;
            proof {
                reveal_strlit("expected unit type `()`");
            }
            self.error(Span::new(start, end), owned("expected unit type `()`"));
            return None;
        }
        if self.eat_symbol(TokSymbol::Bang).is_some() {
            return Some(Node::new(Span::new(start, self.previous_span().end), TyKind::Never));
        }
        if self.eat_symbol(TokSymbol::Amp).is_some() {
            let mutability = if self.eat_keyword(Keyword::Mut).is_some() {
                Mutability::Mutable
            } else {
                Mutability::Shared
            };
            let ty = self.parse_ty()?;
            let end = ty.span.end;
            return Some(Node::new(Span::new(start, end), TyKind::Ref { mutability, ty: Box::new(ty) }));
        }
        if self.eat_symbol(TokSymbol::LBracket).is_some() {
            let elem = self.parse_ty()?;
            self.expect_symbol(TokSymbol::Semi)?;
            let len = self.parse_const_expr()?;
            let end = self.expect_symbol(TokSymbol::RBracket)?.span.end;
            return Some(Node::new(Span::new(start, end), TyKind::Array { elem: Box::new(elem), len }));
        }
        if self.at_keyword(Keyword::Fn) {
            self.bump();
            self.expect_symbol(TokSymbol::LParen)?;
            let mut params: Vec<Ty> = Vec::new();
            if !self.at_symbol(TokSymbol::RParen) {
                loop
                    invariant
                        parsed(*old(self), *self, Some(())),
                        at_kw(*old(self), Keyword::Fn),
                    decreases self.remaining(),
                {
                    params.push(self.parse_ty()?);
                    if self.eat_symbol(TokSymbol::Comma).is_none() {
                        break;
                    }
                }
            }
            self.expect_symbol(TokSymbol::RParen)?;
            self.expect_symbol(TokSymbol::Arrow)?;
            let ret = self.parse_ty()?;
            let end = ret.span.end;
            return Some(Node::new(Span::new(start, end), TyKind::Fn { params, ret: Box::new(ret) }));
        }
        if self.eat_keyword(Keyword::SelfUpper).is_some() {
            return Some(Node::new(Span::new(start, self.previous_span().end), TyKind::SelfTy));
        }
        if let Some(int_ty) = self.try_parse_int_ty() {
            return Some(Node::new(Span::new(start, self.previous_span().end), TyKind::Int(int_ty)));
        }
        if self.at_ident() {
            let path = self.parse_path()?;
            if path.kind.segments.len() == 1 && crate::text::str_eq(path.kind.segments[0].as_str(), "bool") {
                return Some(Node::new(path.span, TyKind::Bool));
            }
            let path_span = path.span;
            let args = self.parse_generic_args();
            let end = if args.len() > 0 { args[args.len() - 1].span.end } else { path_span.end };
            return Some(Node::new(Span::new(path_span.start, end), TyKind::Path { path, args }));
        }
        let span = self.peek().span;
        proof {
            reveal_strlit("expected type");
        }
        self.error(span, owned("expected type"));
        None
    }

    fn parse_generic_args(&mut self) -> (r: Vec<GenericArg>)
        requires
            old(self).wf(),
        ensures
            !at_sym(*old(self), TokSymbol::Lt) ==> r@.len() == 0 && *final(self) == *old(self),
            at_sym(*old(self), TokSymbol::Lt) ==> old(self).position() < final(self).position(),
            forall|k: int| 0 <= k < r@.len() ==> node_in(*old(self), *final(self), #[trigger] r@[k].span),
            steps(*old(self), *final(self)),
        decreases old(self).remaining(), 0nat,
    {
        let mut args: Vec<GenericArg> = Vec::new();
        if self.eat_symbol(TokSymbol::Lt).is_none() {
            return args;
        }
        while !self.at_generic_gt() && !self.at_eof()
            invariant
                steps(*old(self), *self),
                old(self).position() < self.position(),
                forall|k: int| 0 <= k < args@.len() ==> node_in(*old(self), *self, #[trigger] args@[k].span),
            decreases self.remaining(),
        {
            let start = self.peek().span.start;
            let arg = if self.looks_like_const_generic_arg() {
                let expr = match self.parse_const_expr() {
                    Some(e) => e,
                    None => break,
                };
                let end = expr.span.end;
                Node::new(Span::new(start, end), GenericArgKind::Const(expr))
            } else {
                let ty = match self.parse_ty() {
                    Some(t) => t,
                    None => break,
                };
                let end = ty.span.end;
                Node::new(Span::new(start, end), GenericArgKind::Ty(ty))
            };
            args.push(arg);
            if self.eat_symbol(TokSymbol::Comma).is_none() {
                break;
            }
            if self.at_generic_gt() {
                break;
            }
        }
        self.expect_generic_gt();
        args
    }

    /// Whether the generic argument that starts here is a constant
    /// expression rather than a type.
    fn looks_like_const_generic_arg(&self) -> (r: bool)
        requires
            self.wf(),
        ensures
            r == (self.current().kind is Int || at_sym(*self, TokSymbol::Minus) || at_sym(*self, TokSymbol::Plus)
                || at_sym(*self, TokSymbol::Lt) || const_arg_ahead(self.tokens@, self.pos as int, 0)),
    {
        if self.at_int() || self.at_symbol(TokSymbol::Minus) || self.at_symbol(TokSymbol::Plus)
            || self.at_symbol(TokSymbol::Lt) {
            return true;
        }
        let mut depth: usize = 0;
        let mut idx = self.pos;
        while idx < self.tokens.len()
            invariant
                self.wf(),
                self.pos <= idx <= self.tokens@.len(),
                depth <= idx - self.pos,
                const_arg_ahead(self.tokens@, idx as int, depth as int) == const_arg_ahead(self.tokens@, self.pos as int, 0),
                !(self.current().kind is Int || at_sym(*self, TokSymbol::Minus) || at_sym(*self, TokSymbol::Plus)
                    || at_sym(*self, TokSymbol::Lt)),
            decreases self.tokens@.len() - idx,
        {
            match &self.tokens[idx].kind {
                TokenKind::Symbol(TokSymbol::Lt) | TokenKind::Symbol(TokSymbol::LParen) | TokenKind::Symbol(TokSymbol::LBracket) => {
                    depth = depth + 1;
                },
                TokenKind::Symbol(TokSymbol::Gt) | TokenKind::Symbol(TokSymbol::RParen) | TokenKind::Symbol(TokSymbol::RBracket) => {
                    if depth == 0 {
                        return false;
                    }
                    depth = depth - 1;
                },
                TokenKind::Symbol(TokSymbol::Shr) => {
                    if depth == 0 {
                        return self.token_starts_const_expr(idx + 1);
                    }
                    if depth <= 1 {
                        return false;
                    }
                    depth = depth - 2;
                },
                TokenKind::Symbol(TokSymbol::Comma) => {
                    if depth == 0 {
                        return false;
                    }
                },
                TokenKind::Symbol(TokSymbol::Plus) | TokenKind::Symbol(TokSymbol::Minus) | TokenKind::Symbol(TokSymbol::Star)
                | TokenKind::Symbol(TokSymbol::Slash) | TokenKind::Symbol(TokSymbol::Percent) | TokenKind::Symbol(TokSymbol::Shl)
                | TokenKind::Symbol(TokSymbol::Amp) | TokenKind::Symbol(TokSymbol::Pipe) | TokenKind::Symbol(TokSymbol::Caret) => {
                    if depth == 0 {
                        return true;
                    }
                },
                TokenKind::Keyword(Keyword::As) => {
                    if depth == 0 {
                        return true;
                    }
                },
                TokenKind::Eof => {
                    return false;
                },
                _ => {},
            }
            idx = idx + 1;
        }
        false
    }

    fn token_starts_const_expr(&self, idx: usize) -> (r: bool)
        requires
            self.wf(),
        ensures
            r == (idx < self.tokens@.len() && starts_const_expr(self.tokens@[idx as int].kind)),
    {
        if idx >= self.tokens.len() {
            return false;
        }
        match &self.tokens[idx].kind {
            TokenKind::Int(_) | TokenKind::Ident(_) => true,
            TokenKind::Symbol(TokSymbol::Plus) | TokenKind::Symbol(TokSymbol::Minus)
            | TokenKind::Symbol(TokSymbol::LParen) | TokenKind::Symbol(TokSymbol::Lt) => true,
            _ => false,
        }
    }

    fn at_generic_gt(&self) -> (r: bool)
        requires
            self.wf(),
        ensures
            r == (at_sym(*self, TokSymbol::Gt) || at_sym(*self, TokSymbol::Shr)),
    {
        self.at_symbol(TokSymbol::Gt) || self.at_symbol(TokSymbol::Shr)
    }

    /// Consumes a `>`; a `>>` is split, and its second half stays as the
    /// current token.
    fn expect_generic_gt(&mut self) -> (r: Option<Token>)
        requires
            old(self).wf(),
        ensures
            steps(*old(self), *final(self)),
            at_sym(*old(self), TokSymbol::Gt) ==> (r matches Some(t) && t.span == old(self).current().span
                && final(self).position() == old(self).position() + 1
                && final(self).diagnostic_count() == old(self).diagnostic_count()),
            at_sym(*old(self), TokSymbol::Shr) ==> (r matches Some(t) && is_symbol(t.kind, TokSymbol::Gt)
                && t.span.start == old(self).current().span.start
                && final(self).position() == old(self).position() && at_sym(*final(self), TokSymbol::Gt)
                && final(self).diagnostic_count() == old(self).diagnostic_count()),
            !(at_sym(*old(self), TokSymbol::Gt) || at_sym(*old(self), TokSymbol::Shr)) ==> (r is None
                && final(self).diagnostic_count() == old(self).diagnostic_count() + 1),
    {
        if self.at_symbol(TokSymbol::Gt) {
            return Some(self.bump());
        }
        if self.at_symbol(TokSymbol::Shr) {
            let span = self.peek().span;
            let mid = if span.start < span.end { span.start + 1 } else { span.start };
            let pos = self.pos;
            self.tokens.set(pos, Node::new(Span::new(mid, span.end), TokenKind::Symbol(TokSymbol::Gt)));
            return Some(Node::new(Span::new(span.start, mid), TokenKind::Symbol(TokSymbol::Gt)));
        }
        let span = self.peek().span;
        proof {
            reveal_strlit("expected symbol `Gt`");
        }
        self.error(span, owned("expected symbol `Gt`"));
        None
    }

    fn parse_const_expr(&mut self) -> (r: Option<ConstExpr>)
        requires
            old(self).wf(),
        ensures
            r matches Some(e) ==> node_in(*old(self), *final(self), e.span),
            parsed(*old(self), *final(self), r),
            (old(self).current().kind is Int && is_symbol(old(self).ahead(1).kind, TokSymbol::Semi))
                ==> int_literal_parsed(*old(self), *final(self), r),
            const_pair_ahead(*old(self), 0) ==> (r matches Some(e) && const_pair_tree(*old(self), e)
                && final(self).position() == old(self).position() + 3),
            const_triple_ahead(*old(self), 0) ==> (r matches Some(e) && const_triple_tree(*old(self), e)
                && final(self).position() == old(self).position() + 5),
        decreases old(self).remaining(), 4nat,
    {
        self.parse_const_binary(0)
    }

    fn parse_const_binary(&mut self, min_prec: u8) -> (r: Option<ConstExpr>)
        requires
            old(self).wf(),
            min_prec <= 8,
        ensures
            r matches Some(e) ==> node_in(*old(self), *final(self), e.span),
            parsed(*old(self), *final(self), r),
            (old(self).current().kind is Int && is_symbol(old(self).ahead(1).kind, TokSymbol::Semi))
                ==> int_literal_parsed(*old(self), *final(self), r),
            (old(self).current().kind is Int && ends_const_operand(old(self).ahead(1), min_prec))
                ==> int_literal_parsed(*old(self), *final(self), r),
            const_pair_ahead(*old(self), min_prec) ==> (r matches Some(e) && const_pair_tree(*old(self), e)
                && final(self).position() == old(self).position() + 3 && final(self).same_tokens(*old(self))
                && final(self).diagnostic_count() == old(self).diagnostic_count()),
            const_triple_ahead(*old(self), min_prec) ==> (r matches Some(e) && const_triple_tree(*old(self), e)
                && final(self).position() == old(self).position() + 5 && final(self).same_tokens(*old(self))
                && final(self).diagnostic_count() == old(self).diagnostic_count()),
        decreases old(self).remaining(), 3nat,
    {
        let ghost start = *old(self);
        let ghost single = start.current().kind is Int && ends_const_operand(start.ahead(1), min_prec);
        let ghost pair = const_pair_ahead(start, min_prec);
        let ghost triple = const_triple_ahead(start, min_prec);
        let mut lhs = self.parse_const_unary()?;
        let ghost s1 = *self;
        let ghost lhs0 = lhs;
        proof {
            if single || pair || triple {
                self.lemma_current_ahead(start);
            }
        }
        loop
            invariant
                parsed(start, *self, Some(())),
                min_prec <= 8,
                node_in(start, *self, lhs.span),
                start == *old(self),
                single == (start.current().kind is Int && ends_const_operand(start.ahead(1), min_prec)),
                pair == const_pair_ahead(start, min_prec),
                triple == const_triple_ahead(start, min_prec),
                single ==> *self == s1 && lhs == lhs0 && int_literal_parsed(start, s1, Some(lhs0))
                    && self.current() == start.ahead(1),
                (pair || triple) ==> self.same_tokens(start) && self.diagnostic_count() == start.diagnostic_count()
                    && self.current() == start.ahead(self.position() - start.position()),
                pair ==> ((self.position() == start.position() + 1 && const_literal_of(lhs, start.ahead(0)))
                    || (self.position() == start.position() + 3 && const_pair_tree(start, lhs))),
                triple ==> ((self.position() == start.position() + 1 && const_literal_of(lhs, start.ahead(0)))
                    || (self.position() == start.position() + 3 && const_first_pair_tree(start, lhs)
                        && (const_binary_op_of(start.ahead(3).kind)->0).1 <= (const_binary_op_of(start.ahead(1).kind)->0).1)
                    || (self.position() == start.position() + 5 && const_triple_tree(start, lhs))),
            ensures
                parsed(start, *self, Some(())),
                node_in(start, *self, lhs.span),
                single ==> *self == s1 && lhs == lhs0 && self.current() == start.ahead(1),
                pair ==> self.same_tokens(start) && self.diagnostic_count() == start.diagnostic_count()
                    && self.position() == start.position() + 3 && const_pair_tree(start, lhs)
                    && self.current() == start.ahead(3),
                triple ==> self.same_tokens(start) && self.diagnostic_count() == start.diagnostic_count()
                    && self.position() == start.position() + 5 && const_triple_tree(start, lhs)
                    && self.current() == start.ahead(5),
            decreases self.remaining(),
        {
            let (op, prec) = match self.peek_const_binary_op() {
                Some(p) => p,
                None => break,
            };
            if prec < min_prec {
                break;
            }
            let ghost at_op = *self;
            self.bump();
            let ghost b = *self;
            proof {
                if pair || triple {
                    lemma_op_token_not_eof(at_op.current());
                    self.lemma_ahead_shift(start, self.position() - start.position());
                    self.lemma_current_ahead(start);
                }
            }
            let rhs = self.parse_const_binary(prec + 1)?;
            let span = lhs.span.join(rhs.span);
            let ghost lhs_before = lhs;
            lhs = Node::new(span, ConstExprKind::Binary { op, lhs: Box::new(lhs), rhs: Box::new(rhs) });
            proof {
                if pair || triple {
                    self.lemma_current_ahead(start);
                }
            }
        }
        let ghost s2 = *self;
        if self.eat_keyword(Keyword::As).is_some() {
            let ty = self.parse_int_ty()?;
            let span = Span::new(lhs.span.start, self.previous_span().end);
            lhs = Node::new(span, ConstExprKind::Cast { expr: Box::new(lhs), ty });
        }
        Some(lhs)
    }

    fn parse_const_unary(&mut self) -> (r: Option<ConstExpr>)
        requires
            old(self).wf(),
        ensures
            r matches Some(e) ==> node_in(*old(self), *final(self), e.span),
            parsed(*old(self), *final(self), r),
            old(self).current().kind is Int ==> int_literal_parsed(*old(self), *final(self), r),
        decreases old(self).remaining(), 2nat,
    {
        if self.at_symbol(TokSymbol::Plus) {
            let start = self.bump().span.start;
            let expr = self.parse_const_unary()?;
            let end = expr.span.end;
            return Some(Node::new(Span::new(start, end), ConstExprKind::Unary { op: ConstUnaryOp::Plus, expr: Box::new(expr) }));
        }
        if self.at_symbol(TokSymbol::Minus) {
            let start = self.bump().span.start;
            let expr = self.parse_const_unary()?;
            let end = expr.span.end;
            return Some(Node::new(Span::new(start, end), ConstExprKind::Unary { op: ConstUnaryOp::Neg, expr: Box::new(expr) }));
        }
        self.parse_const_primary()
    }

    fn parse_const_primary(&mut self) -> (r: Option<ConstExpr>)
        requires
            old(self).wf(),
        ensures
            r matches Some(e) ==> node_in(*old(self), *final(self), e.span),
            parsed(*old(self), *final(self), r),
            old(self).current().kind is Int ==> int_literal_parsed(*old(self), *final(self), r),
        decreases old(self).remaining(), 1nat,
    {
        let token = copy_token(self.peek());
        match token.kind {
            TokenKind::Int(value) => {
                self.bump();
                Some(Node::new(token.span, ConstExprKind::IntLit(value)))
            },
            TokenKind::Ident(_) => {
                let path = self.parse_path()?;
                let span = path.span;
                Some(Node::new(span, ConstExprKind::Path(path)))
            },
            TokenKind::Symbol(TokSymbol::LParen) => {
                self.bump();
                let expr = self.parse_const_expr()?;
                let end = self.expect_symbol(TokSymbol::RParen)?.span.end;
                Some(Node::new(Span::new(token.span.start, end), expr.kind))
            },
            TokenKind::Symbol(TokSymbol::Lt) => self.parse_assoc_const_expr(),
            _ => {
                proof {
                    reveal_strlit("expected const expression");
                }
                self.error(token.span, owned("expected const expression"));
                None
            },
        }
    }

    fn parse_assoc_const_expr(&mut self) -> (r: Option<ConstExpr>)
        requires
            old(self).wf(),
        ensures
            r matches Some(e) ==> node_in(*old(self), *final(self), e.span),
            parsed(*old(self), *final(self), r),
        decreases old(self).remaining(), 0nat,
    {
        let start = self.expect_symbol(TokSymbol::Lt)?.span.start;
        let ty = self.parse_ty()?;
        self.expect_keyword(Keyword::As)?;
        let interface = self.parse_path()?;
        self.expect_symbol(TokSymbol::Gt)?;
        self.expect_symbol(TokSymbol::ColonColon)?;
        let name = self.expect_ident()?;
        Some(Node::new(Span::new(start, name.span.end), ConstExprKind::AssocConst { ty: Box::new(ty), interface, name: name.kind }))
    }

    fn peek_const_binary_op(&self) -> (r: Option<(ConstBinaryOp, u8)>)
        requires
            self.wf(),
        ensures
            r == const_binary_op_of(self.current().kind),
            r matches Some((_, p)) ==> 2 <= p <= 7,
    {
        match &self.peek().kind {
            TokenKind::Symbol(TokSymbol::Star) => Some((ConstBinaryOp::Mul, 7)),
            TokenKind::Symbol(TokSymbol::Slash) => Some((ConstBinaryOp::Div, 7)),
            TokenKind::Symbol(TokSymbol::Percent) => Some((ConstBinaryOp::Rem, 7)),
            TokenKind::Symbol(TokSymbol::Plus) => Some((ConstBinaryOp::Add, 6)),
            TokenKind::Symbol(TokSymbol::Minus) => Some((ConstBinaryOp::Sub, 6)),
            TokenKind::Symbol(TokSymbol::Shl) => Some((ConstBinaryOp::Shl, 5)),
            TokenKind::Symbol(TokSymbol::Shr) => Some((ConstBinaryOp::Shr, 5)),
            TokenKind::Symbol(TokSymbol::Amp) => Some((ConstBinaryOp::BitAnd, 4)),
            TokenKind::Symbol(TokSymbol::Caret) => Some((ConstBinaryOp::BitXor, 3)),
            TokenKind::Symbol(TokSymbol::Pipe) => Some((ConstBinaryOp::BitOr, 2)),
            _ => None,
        }
    }

    // -----------------------------------------------------------------
    // Blocks and expressions

    fn parse_block_expr(&mut self) -> (r: Option<Expr>)
        requires
            old(self).wf(),
        ensures
            r matches Some(b) ==> node_in(*old(self), *final(self), b.span),
            parsed(*old(self), *final(self), r),
        decreases old(self).remaining(), 1nat,
    {
        let block = self.parse_block()?;
        let span = block.span;
        Some(Node::new(span, ExprKind::Block(block)))
    }

    fn parse_block(&mut self) -> (r: Option<Block>)
        requires
            old(self).wf(),
        ensures
            r matches Some(b) ==> node_in(*old(self), *final(self), b.span),
            parsed(*old(self), *final(self), r),
        decreases old(self).remaining(), 0nat,
    {
        let start = self.expect_symbol(TokSymbol::LBrace)?.span.start;
        let mut stmts: Vec<Stmt> = Vec::new();
        let mut tail: Option<Box<Expr>> = None;
        while !self.at_symbol(TokSymbol::RBrace) && !self.at_eof()
            invariant
                parsed(*old(self), *self, Some(())),
            decreases self.remaining(),
        {
            if self.at_keyword(Keyword::Let) {
                let let_stmt = self.parse_let_stmt()?;
                let end = self.expect_symbol(TokSymbol::Semi)?.span.end;
                let span = Span::new(let_stmt.span.start, end);
                stmts.push(Node::new(span, StmtKind::Let(let_stmt)));
                continue;
            }
            let expr = self.parse_expr()?;
            if self.eat_symbol(TokSymbol::Semi).is_some() {
                let span = Span::new(expr.span.start, self.previous_span().end);
                stmts.push(Node::new(span, StmtKind::Semi(expr)));
            } else if self.at_symbol(TokSymbol::RBrace) {
                tail = Some(Box::new(expr));
                break;
            } else {
                let span = expr.span;
                stmts.push(Node::new(span, StmtKind::Expr(expr)));
            }
        }
        let end = self.expect_symbol(TokSymbol::RBrace)?.span.end;
        Some(Node::new(Span::new(start, end), BlockKind { stmts, tail }))
    }

    fn parse_let_stmt(&mut self) -> (r: Option<LetStmt>)
        requires
            old(self).wf(),
        ensures
            parsed(*old(self), *final(self), r),
        decreases old(self).remaining(), 0nat,
    {
        let start = self.expect_keyword(Keyword::Let)?.span.start;
        let name = self.expect_ident()?.kind;
        let ty = if self.eat_symbol(TokSymbol::Colon).is_some() {
            Some(self.parse_ty()?)
        } else {
            None
        };
        let init = if self.eat_symbol(TokSymbol::Eq).is_some() {
            Some(self.parse_expr()?)
        } else {
            None
        };
        let end = match &init {
            Some(e) => e.span.end,
            None => match &ty {
                Some(t) => t.span.end,
                None => start,
            },
        };
        Some(Node::new(Span::new(start, end), LetStmtKind { name, ty, init }))
    }

    fn parse_expr(&mut self) -> (r: Option<Expr>)
        requires
            old(self).wf(),
        ensures
            parsed(*old(self), *final(self), r),
        decreases old(self).remaining(), 7nat,
    {
        self.parse_assign()
    }

    fn parse_assign(&mut self) -> (r: Option<Expr>)
        requires
            old(self).wf(),
        ensures
            parsed(*old(self), *final(self), r),
        decreases old(self).remaining(), 6nat,
    {
        let lhs = self.parse_binary_expr(0)?;
        if self.eat_symbol(TokSymbol::Eq).is_some() {
            let rhs = self.parse_assign()?;
            let span = lhs.span.join(rhs.span);
            Some(Node::new(span, ExprKind::Assign { lhs: Box::new(lhs), rhs: Box::new(rhs) }))
        } else {
            Some(lhs)
        }
    }

    fn parse_binary_expr(&mut self, min_prec: u8) -> (r: Option<Expr>)
        requires
            old(self).wf(),
            min_prec <= 10,
        ensures
            parsed(*old(self), *final(self), r),
            (old(self).current().kind is Int && ends_expr_operand(old(self).ahead(1), min_prec))
                ==> expr_literal_parsed(*old(self), *final(self), r),
            expr_pair_ahead(*old(self), min_prec) ==> (r matches Some(e) && expr_pair_tree(*old(self), e)
                && final(self).position() == old(self).position() + 3 && final(self).same_tokens(*old(self))
                && final(self).diagnostic_count() == old(self).diagnostic_count()),
            expr_triple_ahead(*old(self), min_prec) ==> (r matches Some(e) && expr_triple_tree(*old(self), e)
                && final(self).position() == old(self).position() + 5 && final(self).same_tokens(*old(self))
                && final(self).diagnostic_count() == old(self).diagnostic_count()),
            expr_quad_ahead(*old(self), min_prec) ==> (r matches Some(e) && expr_quad_tree(*old(self), e)
                && final(self).position() == old(self).position() + 7 && final(self).same_tokens(*old(self))
                && final(self).diagnostic_count() == old(self).diagnostic_count()),
        decreases old(self).remaining(), 5nat,
    {
        let ghost start = *old(self);
        let ghost single = start.current().kind is Int && ends_expr_operand(start.ahead(1), min_prec);
        let ghost pair = expr_pair_ahead(start, min_prec);
        let ghost triple = expr_triple_ahead(start, min_prec);
        let ghost quad = expr_quad_ahead(start, min_prec);
        let mut lhs = self.parse_unary_expr()?;
        let ghost s1 = *self;
        let ghost lhs0 = lhs;
        proof {
            if single || pair || triple || quad {
                self.lemma_current_ahead(start);
            }
        }
        loop
            invariant
                parsed(start, *self, Some(())),
                min_prec <= 10,
                start == *old(self),
                single == (start.current().kind is Int && ends_expr_operand(start.ahead(1), min_prec)),
                pair == expr_pair_ahead(start, min_prec),
                triple == expr_triple_ahead(start, min_prec),
                quad == expr_quad_ahead(start, min_prec),
                single ==> *self == s1 && lhs == lhs0 && expr_literal_parsed(start, s1, Some(lhs0))
                    && self.current() == start.ahead(1),
                (pair || triple || quad) ==> self.same_tokens(start) && self.diagnostic_count() == start.diagnostic_count()
                    && self.current() == start.ahead(self.position() - start.position()),
                quad ==> ((self.position() == start.position() + 1 && expr_literal_of(lhs, start.ahead(0)))
                    || (self.position() == start.position() + 3 && expr_pair_tree(start, lhs))
                    || (self.position() == start.position() + 7 && expr_quad_tree(start, lhs))),
                pair ==> ((self.position() == start.position() + 1 && expr_literal_of(lhs, start.ahead(0)))
                    || (self.position() == start.position() + 3 && expr_pair_tree(start, lhs))),
                triple ==> ((self.position() == start.position() + 1 && expr_literal_of(lhs, start.ahead(0)))
                    || (self.position() == start.position() + 3 && expr_pair_tree(start, lhs)
                        && (binary_op_of(start.ahead(3).kind)->0).1 <= (binary_op_of(start.ahead(1).kind)->0).1)
                    || (self.position() == start.position() + 5 && expr_triple_tree(start, lhs))),
            ensures
                parsed(start, *self, Some(())),
                single ==> *self == s1 && lhs == lhs0,
                pair ==> self.same_tokens(start) && self.diagnostic_count() == start.diagnostic_count()
                    && self.position() == start.position() + 3 && expr_pair_tree(start, lhs),
                triple ==> self.same_tokens(start) && self.diagnostic_count() == start.diagnostic_count()
                    && self.position() == start.position() + 5 && expr_triple_tree(start, lhs),
                quad ==> self.same_tokens(start) && self.diagnostic_count() == start.diagnostic_count()
                    && self.position() == start.position() + 7 && expr_quad_tree(start, lhs),
            decreases self.remaining(),
        {
            let (op, prec) = match self.peek_binary_op() {
                Some(p) => p,
                None => break,
            };
            if prec < min_prec {
                break;
            }
            let ghost at_op = *self;
            self.bump();
            proof {
                if pair || triple || quad {
                    lemma_expr_op_token_not_eof(at_op.current());
                    self.lemma_ahead_shift(start, self.position() - start.position());
                    self.lemma_current_ahead(start);
                }
            }
            let rhs = self.parse_binary_expr(prec + 1)?;
            let span = lhs.span.join(rhs.span);
            lhs = Node::new(span, ExprKind::Binary { op, lhs: Box::new(lhs), rhs: Box::new(rhs) });
            proof {
                if pair || triple || quad {
                    self.lemma_current_ahead(start);
                }
            }
        }
        Some(lhs)
    }

    fn parse_unary_expr(&mut self) -> (r: Option<Expr>)
        requires
            old(self).wf(),
        ensures
            parsed(*old(self), *final(self), r),
            (old(self).current().kind is Int && ends_postfix(old(self).ahead(1)))
                ==> expr_literal_parsed(*old(self), *final(self), r),
        decreases old(self).remaining(), 4nat,
    {
        if self.at_symbol(TokSymbol::Minus) {
            let start = self.bump().span.start;
            let expr = self.parse_unary_expr()?;
            let end = expr.span.end;
            return Some(Node::new(Span::new(start, end), ExprKind::Unary { op: UnaryOp::Neg, expr: Box::new(expr) }));
        }
        if self.at_symbol(TokSymbol::Bang) {
            let start = self.bump().span.start;
            let expr = self.parse_unary_expr()?;
            let end = expr.span.end;
            return Some(Node::new(Span::new(start, end), ExprKind::Unary { op: UnaryOp::Not, expr: Box::new(expr) }));
        }
        self.parse_postfix_expr()
    }

    fn parse_postfix_expr(&mut self) -> (r: Option<Expr>)
        requires
            old(self).wf(),
        ensures
            parsed(*old(self), *final(self), r),
            (old(self).current().kind is Int && ends_postfix(old(self).ahead(1)))
                ==> expr_literal_parsed(*old(self), *final(self), r),
        decreases old(self).remaining(), 3nat,
    {
        let ghost start = *old(self);
        let ghost single = start.current().kind is Int && ends_postfix(start.ahead(1));
        let mut expr = self.parse_primary_expr()?;
        let ghost s1 = *self;
        let ghost expr0 = expr;
        proof {
            if single {
                self.lemma_current_ahead(start);
            }
        }
        loop
            invariant
                parsed(*old(self), *self, Some(())),
                start == *old(self),
                single == (start.current().kind is Int && ends_postfix(start.ahead(1))),
                single ==> *self == s1 && expr == expr0 && expr_literal_parsed(start, s1, Some(expr0))
                    && self.current() == start.ahead(1),
            ensures
                parsed(*old(self), *self, Some(())),
                single ==> *self == s1 && expr == expr0,
            decreases self.remaining(),
        {
            if self.eat_symbol(TokSymbol::LParen).is_some() {
                let args = self.parse_expr_list(TokSymbol::RParen)?;
                let end = self.expect_symbol(TokSymbol::RParen)?.span.end;
                let span = Span::new(expr.span.start, end);
                expr = Node::new(span, ExprKind::Call { callee: Box::new(expr), args });
                continue;
            }
            if self.eat_symbol(TokSymbol::Dot).is_some() {
                let method_or_field = self.expect_ident()?;
                if self.eat_symbol(TokSymbol::LParen).is_some() {
                    let args = self.parse_expr_list(TokSymbol::RParen)?;
                    let end = self.expect_symbol(TokSymbol::RParen)?.span.end;
                    let span = Span::new(expr.span.start, end);
                    expr = Node::new(span, ExprKind::MethodCall { receiver: Box::new(expr), method: method_or_field.kind, args });
                } else {
                    let span = Span::new(expr.span.start, method_or_field.span.end);
                    expr = Node::new(span, ExprKind::Field { base: Box::new(expr), name: method_or_field.kind });
                }
                continue;
            }
            if self.eat_symbol(TokSymbol::LBracket).is_some() {
                let index = self.parse_expr()?;
                let end = self.expect_symbol(TokSymbol::RBracket)?.span.end;
                let span = Span::new(expr.span.start, end);
                expr = Node::new(span, ExprKind::Index { base: Box::new(expr), index: Box::new(index) });
                continue;
            }
            break;
        }
        Some(expr)
    }

    fn parse_primary_expr(&mut self) -> (r: Option<Expr>)
        requires
            old(self).wf(),
        ensures
            parsed(*old(self), *final(self), r),
            old(self).current().kind matches TokenKind::Int(v) ==> (r matches Some(e)
                && e.span == old(self).current().span && (e.kind matches ExprKind::IntLit(w) && w@ == v@)),
            at_kw(*old(self), Keyword::True) ==> (r matches Some(e) && e.kind == ExprKind::BoolLit(true)
                && e.span == old(self).current().span),
            at_kw(*old(self), Keyword::False) ==> (r matches Some(e) && e.kind == ExprKind::BoolLit(false)
                && e.span == old(self).current().span),
            at_kw(*old(self), Keyword::Todo) ==> (r matches Some(e) && e.kind is Todo
                && e.span == old(self).current().span),
            at_kw(*old(self), Keyword::SelfLower) ==> (r matches Some(e)
                && (e.kind matches ExprKind::Var(name) && name@ == "self"@)),
            r matches Some(e) ==> (at_kw(*old(self), Keyword::Return) ==> e.kind is Return),
            old(self).current().kind is Int ==> expr_literal_parsed(*old(self), *final(self), r),
            !(old(self).current().kind is Int || old(self).current().kind is Ident
                || at_kw(*old(self), Keyword::True) || at_kw(*old(self), Keyword::False)
                || at_kw(*old(self), Keyword::Todo) || at_kw(*old(self), Keyword::SelfLower)
                || at_kw(*old(self), Keyword::Return) || at_kw(*old(self), Keyword::If)
                || at_kw(*old(self), Keyword::Match) || at_sym(*old(self), TokSymbol::LBrace)
                || at_sym(*old(self), TokSymbol::LParen))
                ==> r is None && final(self).last_report() == (old(self).current().span, "expected expression"@),
        decreases old(self).remaining(), 2nat,
    {
        let token = copy_token(self.peek());
        match token.kind {
            TokenKind::Int(value) => {
                self.bump();
                Some(Node::new(token.span, ExprKind::IntLit(value)))
            },
            TokenKind::Keyword(Keyword::True) => {
                self.bump();
                Some(Node::new(token.span, ExprKind::BoolLit(true)))
            },
            TokenKind::Keyword(Keyword::False) => {
                self.bump();
                Some(Node::new(token.span, ExprKind::BoolLit(false)))
            },
            TokenKind::Keyword(Keyword::Todo) => {
                self.bump();
                Some(Node::new(token.span, ExprKind::Todo))
            },
            TokenKind::Keyword(Keyword::SelfLower) => {
                self.bump();
                Some(Node::new(token.span, ExprKind::Var(owned("self"))))
            },
            TokenKind::Keyword(Keyword::Return) => {
                self.bump();
                let expr = if self.at_symbol(TokSymbol::Semi) || self.at_symbol(TokSymbol::RBrace) {
                    None
                } else {
                    Some(Box::new(self.parse_expr()?))
                };
                let end = match &expr {
                    Some(e) => e.span.end,
                    None => token.span.end,
                };
                Some(Node::new(Span::new(token.span.start, end), ExprKind::Return(expr)))
            },
            TokenKind::Keyword(Keyword::If) => self.parse_if_expr(),
            TokenKind::Keyword(Keyword::Match) => self.parse_match_expr(),
            TokenKind::Symbol(TokSymbol::LBrace) => self.parse_block_expr(),
            TokenKind::Symbol(TokSymbol::LParen) => {
                let start = self.bump().span.start;
                if self.eat_symbol(TokSymbol::RParen).is_some() {
                    Some(Node::new(Span::new(start, self.previous_span().end), ExprKind::UnitLit))
                } else {
                    let expr = self.parse_expr()?;
                    let end = self.expect_symbol(TokSymbol::RParen)?.span.end;
                    Some(Node::new(Span::new(start, end), expr.kind))
                }
            },
            TokenKind::Ident(_) => self.parse_path_expr(),
            _ => {
                proof {
                    reveal_strlit("expected expression");
                }
                self.error(token.span, owned("expected expression"));
                None
            },
        }
    }

    fn parse_path_expr(&mut self) -> (r: Option<Expr>)
        requires
            old(self).wf(),
        ensures
            parsed(*old(self), *final(self), r),
        decreases old(self).remaining(), 1nat,
    {
        let path = self.parse_path()?;
        if self.at_symbol(TokSymbol::LBrace) && self.looks_like_record_literal_body() {
            self.bump();
            let fields = self.parse_field_expr_list(TokSymbol::RBrace)?;
            let end = self.expect_symbol(TokSymbol::RBrace)?.span.end;
            if path.kind.segments.len() >= 2 {
                let (enum_path, variant) = split_variant_path(&path);
                return Some(Node::new(Span::new(path.span.start, end), ExprKind::EnumCtor {
                    enum_path,
                    variant,
                    args: Node::new(Span::new(path.span.end, end), EnumCtorArgsKind::Struct(fields)),
                }));
            }
            let span = Span::new(path.span.start, end);
            return Some(Node::new(span, ExprKind::StructLit { path, fields }));
        }
        if path.kind.segments.len() >= 2 {
            let (enum_path, variant) = split_variant_path(&path);
            if self.eat_symbol(TokSymbol::LParen).is_some() {
                let args = self.parse_expr_list(TokSymbol::RParen)?;
                let end = self.expect_symbol(TokSymbol::RParen)?.span.end;
                return Some(Node::new(Span::new(path.span.start, end), ExprKind::EnumCtor {
                    enum_path,
                    variant,
                    args: Node::new(Span::new(path.span.end, end), EnumCtorArgsKind::Tuple(args)),
                }));
            }
            return Some(Node::new(path.span, ExprKind::EnumCtor {
                enum_path,
                variant,
                args: Node::new(path.span, EnumCtorArgsKind::Unit),
            }));
        }
        let name = path.kind.segments[0].clone();
        Some(Node::new(path.span, ExprKind::Var(name)))
    }

    fn parse_if_expr(&mut self) -> (r: Option<Expr>)
        requires
            old(self).wf(),
        ensures
            parsed(*old(self), *final(self), r),
        decreases old(self).remaining(), 1nat,
    {
        let start = self.expect_keyword(Keyword::If)?.span.start;
        let cond = self.parse_expr()?;
        let then_branch = self.parse_block()?;
        let else_branch = if self.eat_keyword(Keyword::Else).is_some() {
            Some(self.parse_block()?)
        } else {
            None
        };
        let end = match &else_branch {
            Some(b) => b.span.end,
            None => then_branch.span.end,
        };
        Some(Node::new(Span::new(start, end), ExprKind::If { cond: Box::new(cond), then_branch, else_branch }))
    }

    fn parse_match_expr(&mut self) -> (r: Option<Expr>)
        requires
            old(self).wf(),
        ensures
            parsed(*old(self), *final(self), r),
        decreases old(self).remaining(), 1nat,
    {
        let start = self.expect_keyword(Keyword::Match)?.span.start;
        let scrutinee = self.parse_expr()?;
        self.expect_symbol(TokSymbol::LBrace)?;
        let mut arms: Vec<MatchArm> = Vec::new();
        while !self.at_symbol(TokSymbol::RBrace) && !self.at_eof()
            invariant
                parsed(*old(self), *self, Some(())),
            decreases self.remaining(),
        {
            let pat = self.parse_pat()?;
            self.expect_symbol(TokSymbol::FatArrow)?;
            let body = self.parse_expr()?;
            let span = Span::new(pat.span.start, body.span.end);
            arms.push(Node::new(span, MatchArmKind { pat, body }));
            self.eat_symbol(TokSymbol::Comma);
        }
        let end = self.expect_symbol(TokSymbol::RBrace)?.span.end;
        Some(Node::new(Span::new(start, end), ExprKind::Match { scrutinee: Box::new(scrutinee), arms }))
    }

    fn parse_expr_list(&mut self, end_symbol: TokSymbol) -> (r: Option<Vec<Expr>>)
        requires
            old(self).wf(),
        ensures
            steps(*old(self), *final(self)),
            r is None ==> old(self).diagnostic_count() < final(self).diagnostic_count(),
            at_sym(*old(self), end_symbol) ==> (r matches Some(v) && v@.len() == 0 && *final(self) == *old(self)),
            !at_sym(*old(self), end_symbol) ==> (r matches Some(v) ==> (v@.len() > 0
                && old(self).position() < final(self).position())),
        decreases old(self).remaining(), 8nat,
    {
        let mut args: Vec<Expr> = Vec::new();
        if self.at_symbol(end_symbol) {
            return Some(args);
        }
        loop
            invariant_except_break
                steps(*old(self), *self),
                !at_sym(*old(self), end_symbol),
                args@.len() == 0 ==> *self == *old(self),
                args@.len() > 0 ==> old(self).position() < self.position(),
            ensures
                steps(*old(self), *self),
                args@.len() > 0,
                old(self).position() < self.position(),
            decreases self.remaining(),
        {
            args.push(self.parse_expr()?);
            if self.eat_symbol(TokSymbol::Comma).is_none() {
                break;
            }
            if self.at_symbol(end_symbol) {
                break;
            }
        }
        Some(args)
    }

    fn parse_field_expr_list(&mut self, end_symbol: TokSymbol) -> (r: Option<Vec<FieldExpr>>)
        requires
            old(self).wf(),
        ensures
            steps(*old(self), *final(self)),
            r is None ==> old(self).diagnostic_count() < final(self).diagnostic_count(),
            at_sym(*old(self), end_symbol) ==> (r matches Some(v) && v@.len() == 0 && *final(self) == *old(self)),
            !at_sym(*old(self), end_symbol) ==> (r matches Some(v) ==> (v@.len() > 0
                && old(self).position() < final(self).position())),
        decreases old(self).remaining(), 0nat,
    {
        let mut fields: Vec<FieldExpr> = Vec::new();
        if self.at_symbol(end_symbol) {
            return Some(fields);
        }
        loop
            invariant_except_break
                steps(*old(self), *self),
                !at_sym(*old(self), end_symbol),
                fields@.len() == 0 ==> *self == *old(self),
                fields@.len() > 0 ==> old(self).position() < self.position(),
            ensures
                steps(*old(self), *self),
                fields@.len() > 0,
                old(self).position() < self.position(),
            decreases self.remaining(),
        {
            let name = self.expect_ident()?;
            let start = name.span.start;
            self.expect_symbol(TokSymbol::Colon)?;
            let expr = self.parse_expr()?;
            let end = expr.span.end;
            fields.push(Node::new(Span::new(start, end), FieldExprKind { name: name.kind, expr }));
            if self.eat_symbol(TokSymbol::Comma).is_none() {
                break;
            }
            if self.at_symbol(end_symbol) {
                break;
            }
        }
        Some(fields)
    }

    fn peek_binary_op(&self) -> (r: Option<(BinaryOp, u8)>)
        requires
            self.wf(),
        ensures
            r == binary_op_of(self.current().kind),
            r matches Some((_, p)) ==> 1 <= p <= 9,
    {
        match &self.peek().kind {
            TokenKind::Symbol(TokSymbol::PipePipe) => Some((BinaryOp::Or, 1)),
            TokenKind::Symbol(TokSymbol::AmpAmp) => Some((BinaryOp::And, 2)),
            TokenKind::Symbol(TokSymbol::EqEq) => Some((BinaryOp::Eq, 3)),
            TokenKind::Symbol(TokSymbol::Ne) => Some((BinaryOp::Ne, 3)),
            TokenKind::Symbol(TokSymbol::Lt) => Some((BinaryOp::Lt, 3)),
            TokenKind::Symbol(TokSymbol::Le) => Some((BinaryOp::Le, 3)),
            TokenKind::Symbol(TokSymbol::Gt) => Some((BinaryOp::Gt, 3)),
            TokenKind::Symbol(TokSymbol::Ge) => Some((BinaryOp::Ge, 3)),
            TokenKind::Symbol(TokSymbol::Pipe) => Some((BinaryOp::BitOr, 4)),
            TokenKind::Symbol(TokSymbol::Caret) => Some((BinaryOp::BitXor, 5)),
            TokenKind::Symbol(TokSymbol::Amp) => Some((BinaryOp::BitAnd, 6)),
            TokenKind::Symbol(TokSymbol::Shl) => Some((BinaryOp::Shl, 7)),
            TokenKind::Symbol(TokSymbol::Shr) => Some((BinaryOp::Shr, 7)),
            TokenKind::Symbol(TokSymbol::Plus) => Some((BinaryOp::Add, 8)),
            TokenKind::Symbol(TokSymbol::Minus) => Some((BinaryOp::Sub, 8)),
            TokenKind::Symbol(TokSymbol::Star) => Some((BinaryOp::Mul, 9)),
            TokenKind::Symbol(TokSymbol::Slash) => Some((BinaryOp::Div, 9)),
            TokenKind::Symbol(TokSymbol::Percent) => Some((BinaryOp::Rem, 9)),
            _ => None,
        }
    }

    /// Whether the `{` here opens a record literal: `{}` or `{ name: ...`.
    fn looks_like_record_literal_body(&self) -> (r: bool)
        requires
            self.wf(),
        ensures
            r == (self.pos + 1 < self.tokens@.len() && (is_symbol(self.tokens@[self.pos + 1].kind, TokSymbol::RBrace)
                || (self.tokens@[self.pos + 1].kind is Ident && self.pos + 2 < self.tokens@.len()
                    && is_symbol(self.tokens@[self.pos + 2].kind, TokSymbol::Colon)))),
    {
        let lbrace_pos = self.pos;
        if self.tokens.len() - lbrace_pos <= 1 {
            return false;
        }
        match &self.tokens[lbrace_pos + 1].kind {
            TokenKind::Symbol(TokSymbol::RBrace) => true,
            TokenKind::Ident(_) => {
                if self.tokens.len() - lbrace_pos <= 2 {
                    return false;
                }
                match &self.tokens[lbrace_pos + 2].kind {
                    TokenKind::Symbol(TokSymbol::Colon) => true,
                    _ => false,
                }
            },
            _ => false,
        }
    }

    // -----------------------------------------------------------------
    // Patterns

    fn parse_pat(&mut self) -> (r: Option<Pat>)
        requires
            old(self).wf(),
        ensures
            parsed(*old(self), *final(self), r),
            at_kw(*old(self), Keyword::True) ==> (r matches Some(p) && p.kind == PatKind::BoolLit(true)
                && p.span == old(self).current().span),
            at_kw(*old(self), Keyword::False) ==> (r matches Some(p) && p.kind == PatKind::BoolLit(false)
                && p.span == old(self).current().span),
            old(self).current().kind matches TokenKind::Int(v) ==> (r matches Some(p)
                && (p.kind matches PatKind::IntLit(w) && w@ == v@)),
            old(self).current().kind@ == crate::lexer::TokenView::Ident("_"@) ==> (r matches Some(p)
                && p.kind is Wildcard && p.span == old(self).current().span),
            r matches Some(p) ==> {
                &&& at_sym(*old(self), TokSymbol::LParen) ==> p.kind is Unit
                &&& (old(self).current().kind is Ident && old(self).current().kind@ != crate::lexer::TokenView::Ident("_"@))
                    ==> (p.kind is Binding || p.kind is EnumVariant || p.kind is Struct)
                &&& (old(self).current().kind is Ident && old(self).current().kind@ != crate::lexer::TokenView::Ident("_"@))
                    ==> (p.kind is EnumVariant <==> is_symbol(old(self).ahead(1).kind, TokSymbol::ColonColon))
            },
            r matches Some(p) ==> (p.kind matches PatKind::EnumVariant { enum_path, variant, args } ==> {
                let n = enum_path.kind.segments@.len() + 1int;
                &&& path_ahead(*old(self), enum_path.kind.segments@.push(variant))
                &&& (args.kind is Tuple <==> is_symbol(old(self).ahead(2 * n - 1).kind, TokSymbol::LParen))
                &&& (args.kind is Struct <==> (is_symbol(old(self).ahead(2 * n - 1).kind, TokSymbol::LBrace)
                    && !is_symbol(old(self).ahead(2 * n - 1).kind, TokSymbol::LParen)))
                &&& (args.kind matches EnumPatArgsKind::Tuple(pats)
                    ==> (pats@.len() == 0 <==> is_symbol(old(self).ahead(2 * n).kind, TokSymbol::RParen)))
            }),
            r matches Some(p) ==> (p.kind matches PatKind::Binding { name } ==> path_ahead(*old(self), seq![name])
                && !is_symbol(old(self).ahead(1).kind, TokSymbol::LBrace)),
            r matches Some(p) ==> (p.kind matches PatKind::Struct { path, .. } ==> path_ahead(*old(self), path.kind.segments@)
                && path.kind.segments@.len() == 1 && is_symbol(old(self).ahead(1).kind, TokSymbol::LBrace)),
            !(old(self).current().kind is Ident || old(self).current().kind is Int
                || at_kw(*old(self), Keyword::True) || at_kw(*old(self), Keyword::False)
                || at_sym(*old(self), TokSymbol::LParen))
                ==> r is None && final(self).last_report() == (old(self).current().span, "expected pattern"@),
        decreases old(self).remaining(),
    {
        let token = copy_token(self.peek());
        match token.kind {
            TokenKind::Ident(text) => {
                if crate::text::str_eq(text.as_str(), "_") {
                    self.bump();
                    return Some(Node::new(token.span, PatKind::Wildcard));
                }
                let path = self.parse_path()?;
                proof {
                    self.lemma_current_ahead(*old(self));
                    assert(old(self).ahead(1) == old(self).ahead(2 * 0int + 1));
                }
                if path.kind.segments.len() >= 2 {
                    let (enum_path, variant) = split_variant_path(&path);
                    proof {
                        assert(path.kind.segments@ =~= enum_path.kind.segments@.push(variant));
                    }
                    let ghost after_path = *self;
                    if self.eat_symbol(TokSymbol::LParen).is_some() {
                        let mut pats: Vec<Pat> = Vec::new();
                        proof {
                            self.lemma_current_ahead(*old(self));
                        }
                        if !self.at_symbol(TokSymbol::RParen) {
                            loop
                                invariant
                                    parsed(*old(self), *self, Some(())),
                                    old(self).current().kind is Ident,
                                    old(self).current().kind@ != crate::lexer::TokenView::Ident("_"@),
                                ensures
                                    pats@.len() > 0,
                                decreases self.remaining(),
                            {
                                pats.push(self.parse_pat()?);
                                if self.eat_symbol(TokSymbol::Comma).is_none() {
                                    break;
                                }
                            }
                        }
                        let end = self.expect_symbol(TokSymbol::RParen)?.span.end;
                        return Some(Node::new(Span::new(path.span.start, end), PatKind::EnumVariant {
                            enum_path,
                            variant,
                            args: Node::new(Span::new(path.span.end, end), EnumPatArgsKind::Tuple(pats)),
                        }));
                    }
                    if self.eat_symbol(TokSymbol::LBrace).is_some() {
                        let fields = self.parse_field_pat_list(TokSymbol::RBrace)?;
                        let end = self.expect_symbol(TokSymbol::RBrace)?.span.end;
                        return Some(Node::new(Span::new(path.span.start, end), PatKind::EnumVariant {
                            enum_path,
                            variant,
                            args: Node::new(Span::new(path.span.end, end), EnumPatArgsKind::Struct(fields)),
                        }));
                    }
                    return Some(Node::new(path.span, PatKind::EnumVariant {
                        enum_path,
                        variant,
                        args: Node::new(path.span, EnumPatArgsKind::Unit),
                    }));
                }
                if self.eat_symbol(TokSymbol::LBrace).is_some() {
                    let fields = self.parse_field_pat_list(TokSymbol::RBrace)?;
                    let end = self.expect_symbol(TokSymbol::RBrace)?.span.end;
                    let span = Span::new(path.span.start, end);
                    return Some(Node::new(span, PatKind::Struct { path, fields }));
                }
                let name = path.kind.segments[0].clone();
                Some(Node::new(path.span, PatKind::Binding { name }))
            },
            TokenKind::Keyword(Keyword::True) => {
                self.bump();
                Some(Node::new(token.span, PatKind::BoolLit(true)))
            },
            TokenKind::Keyword(Keyword::False) => {
                self.bump();
                Some(Node::new(token.span, PatKind::BoolLit(false)))
            },
            TokenKind::Int(value) => {
                self.bump();
                Some(Node::new(token.span, PatKind::IntLit(value)))
            },
            TokenKind::Symbol(TokSymbol::LParen) => {
                let start = self.bump().span.start;
                let end = self.expect_symbol(TokSymbol::RParen)?.span.end;
                Some(Node::new(Span::new(start, end), PatKind::Unit))
            },
            _ => {
                proof {
                    reveal_strlit("expected pattern");
                }
                self.error(token.span, owned("expected pattern"));
                None
            },
        }
    }

    fn parse_field_pat_list(&mut self, end_symbol: TokSymbol) -> (r: Option<Vec<FieldPat>>)
        requires
            old(self).wf(),
        ensures
            steps(*old(self), *final(self)),
            r is None ==> old(self).diagnostic_count() < final(self).diagnostic_count(),
            at_sym(*old(self), end_symbol) ==> (r matches Some(v) && v@.len() == 0 && *final(self) == *old(self)),
            !at_sym(*old(self), end_symbol) ==> (r matches Some(v) ==> (v@.len() > 0
                && old(self).position() < final(self).position())),
        decreases old(self).remaining(),
    {
        let mut fields: Vec<FieldPat> = Vec::new();
        if self.at_symbol(end_symbol) {
            return Some(fields);
        }
        loop
            invariant_except_break
                steps(*old(self), *self),
                !at_sym(*old(self), end_symbol),
                fields@.len() == 0 ==> *self == *old(self),
                fields@.len() > 0 ==> old(self).position() < self.position(),
            ensures
                steps(*old(self), *self),
                fields@.len() > 0,
                old(self).position() < self.position(),
            decreases self.remaining(),
        {
            let name = self.expect_ident()?;
            let start = name.span.start;
            let pat = if self.eat_symbol(TokSymbol::Colon).is_some() {
                self.parse_pat()?
            } else {
                Node::new(name.span, PatKind::Binding { name: name.kind.clone() })
            };
            let end = pat.span.end;
            fields.push(Node::new(Span::new(start, end), FieldPatKind { name: name.kind, pat }));
            if self.eat_symbol(TokSymbol::Comma).is_none() {
                break;
            }
            if self.at_symbol(end_symbol) {
                break;
            }
        }
        Some(fields)
    }

    // -----------------------------------------------------------------
    // Token-level helpers

    fn peek(&self) -> (r: &Token)
        requires
            self.wf(),
        ensures
            *r == self.current(),
    {
        &self.tokens[self.pos]
    }

    /// Consumes the current token, unless it is `Eof`, and returns a copy.
    fn bump(&mut self) -> (r: Token)
        requires
            old(self).wf(),
        ensures
            steps(*old(self), *final(self)),
            final(self).diagnostic_count() == old(self).diagnostic_count(),
            r.span == old(self).current().span,
            r.kind@ == old(self).current().kind@,
            !(old(self).current().kind is Eof) ==> final(self).position() == old(self).position() + 1,
            old(self).current().kind is Eof ==> final(self).position() == old(self).position(),
            !(old(self).current().kind is Eof) ==> final(self).previous() == old(self).current().span,
            span_in(r.span, old(self).source_end()),
            final(self).same_tokens(*old(self)),
    {
        let token = copy_token(&self.tokens[self.pos]);
        let is_eof = match &self.tokens[self.pos].kind {
            TokenKind::Eof => true,
            _ => false,
        };
        let n = self.tokens.len();
        if !is_eof {
            proof {
                assert(self.pos != self.tokens@.len() - 1);
            }
            self.pos = self.pos + 1;
        }
        token
    }

    fn previous_span(&self) -> (r: Span)
        requires
            self.wf(),
        ensures
            self.pos > 0 ==> r == self.tokens@[self.pos - 1].span,
            self.pos == 0 ==> r == Span::default_spec(),
            r == self.previous(),
    {
        if self.pos > 0 {
            self.tokens[self.pos - 1].span
        } else {
            Span::zero()
        }
    }

    fn error(&mut self, span: Span, message: String)
        requires
            old(self).wf(),
            span_in(span, old(self).source_end()),
            message@.len() > 0,
        ensures
            steps(*old(self), *final(self)),
            final(self).position() == old(self).position(),
            final(self).diagnostic_count() == old(self).diagnostic_count() + 1,
            final(self).current() == old(self).current(),
            final(self).last_report() == (span, message@),
    {
        self.diagnostics.push(Diagnostic::error(span, message));
    }

    fn at_eof(&self) -> (r: bool)
        requires
            self.wf(),
        ensures
            r == (self.current().kind is Eof),
    {
        match &self.peek().kind {
            TokenKind::Eof => true,
            _ => false,
        }
    }

    fn at_ident(&self) -> (r: bool)
        requires
            self.wf(),
        ensures
            r == (self.current().kind is Ident),
    {
        match &self.peek().kind {
            TokenKind::Ident(_) => true,
            _ => false,
        }
    }

    fn at_int(&self) -> (r: bool)
        requires
            self.wf(),
        ensures
            r == (self.current().kind is Int),
    {
        match &self.peek().kind {
            TokenKind::Int(_) => true,
            _ => false,
        }
    }

    fn at_keyword(&self, keyword: Keyword) -> (r: bool)
        requires
            self.wf(),
        ensures
            r == at_kw(*self, keyword),
    {
        match &self.peek().kind {
            TokenKind::Keyword(k) => *k == keyword,
            _ => false,
        }
    }

    fn at_symbol(&self, symbol: TokSymbol) -> (r: bool)
        requires
            self.wf(),
        ensures
            r == at_sym(*self, symbol),
    {
        match &self.peek().kind {
            TokenKind::Symbol(s) => *s == symbol,
            _ => false,
        }
    }

    fn expect_keyword(&mut self, keyword: Keyword) -> (r: Option<Token>)
        requires
            old(self).wf(),
        ensures
            r is Some ==> final(self).previous() == old(self).current().span,
            parsed(*old(self), *final(self), r),
            at_kw(*old(self), keyword) ==> r is Some,
            r matches Some(t) ==> t.span == old(self).current().span,
            r is Some ==> final(self).position() == old(self).position() + 1 && final(self).same_tokens(*old(self))
                && final(self).diagnostic_count() == old(self).diagnostic_count(),
    {
        if self.at_keyword(keyword) {
            Some(self.bump())
        } else {
            let span = self.peek().span;
            proof {
                reveal_strlit("expected keyword `");
            }
            let mut message = owned("expected keyword `");
            push_str(&mut message, keyword_name(keyword));
            push_str(&mut message, "`");
            self.error(span, message);
            None
        }
    }

    fn eat_keyword(&mut self, keyword: Keyword) -> (r: Option<Token>)
        requires
            old(self).wf(),
        ensures
            r is Some ==> final(self).previous() == old(self).current().span,
            steps(*old(self), *final(self)),
            final(self).diagnostic_count() == old(self).diagnostic_count(),
            r is Some <==> at_kw(*old(self), keyword),
            r is Some ==> final(self).position() == old(self).position() + 1,
            r is None ==> *final(self) == *old(self),
            r matches Some(t) ==> t.span == old(self).current().span,
            final(self).same_tokens(*old(self)),
    {
        if self.at_keyword(keyword) {
            Some(self.bump())
        } else {
            None
        }
    }

    fn expect_symbol(&mut self, symbol: TokSymbol) -> (r: Option<Token>)
        requires
            old(self).wf(),
        ensures
            r is Some ==> final(self).previous() == old(self).current().span,
            parsed(*old(self), *final(self), r),
            at_sym(*old(self), symbol) ==> r is Some,
            r matches Some(t) ==> t.span == old(self).current().span,
            r is Some ==> final(self).position() == old(self).position() + 1 && final(self).same_tokens(*old(self))
                && final(self).diagnostic_count() == old(self).diagnostic_count(),
    {
        if self.at_symbol(symbol) {
            Some(self.bump())
        } else {
            let span = self.peek().span;
            proof {
                reveal_strlit("expected symbol `");
            }
            let mut message = owned("expected symbol `");
            push_str(&mut message, symbol_name(symbol));
            push_str(&mut message, "`");
            self.error(span, message);
            None
        }
    }

    fn eat_symbol(&mut self, symbol: TokSymbol) -> (r: Option<Token>)
        requires
            old(self).wf(),
        ensures
            r is Some ==> final(self).previous() == old(self).current().span,
            steps(*old(self), *final(self)),
            final(self).diagnostic_count() == old(self).diagnostic_count(),
            r is Some <==> at_sym(*old(self), symbol),
            r is Some ==> final(self).position() == old(self).position() + 1,
            r is None ==> *final(self) == *old(self),
            r matches Some(t) ==> t.span == old(self).current().span,
            final(self).same_tokens(*old(self)),
    {
        if self.at_symbol(symbol) {
            Some(self.bump())
        } else {
            None
        }
    }

    fn expect_ident(&mut self) -> (r: Option<Node<String>>)
        requires
            old(self).wf(),
        ensures
            r is Some ==> final(self).previous() == old(self).current().span,
            parsed(*old(self), *final(self), r),
            (old(self).current().kind is Ident) <==> r is Some,
            r matches Some(n) ==> (n.span == old(self).current().span && old(
                self,
            ).current().kind@ == crate::lexer::TokenView::Ident(n.kind@)),
            r is Some ==> final(self).position() == old(self).position() + 1 && final(self).same_tokens(*old(self))
                && final(self).diagnostic_count() == old(self).diagnostic_count(),
    {
        let token = copy_token(self.peek());
        match token.kind {
            TokenKind::Ident(text) => {
                self.bump();
                Some(Node::new(token.span, text))
            },
            _ => {
                proof {
                    reveal_strlit("expected identifier");
                }
                self.error(token.span, owned("expected identifier"));
                None
            },
        }
    }

    fn parse_path(&mut self) -> (r: Option<Path>)
        requires
            old(self).wf(),
        ensures
            r matches Some(p) ==> node_in(*old(self), *final(self), p.span),
            parsed(*old(self), *final(self), r),
            r matches Some(p) ==> p.kind.segments@.len() >= 1,
            r matches Some(p) ==> p.span.start == old(self).current().span.start
                && old(self).current().kind@ == crate::lexer::TokenView::Ident(p.kind.segments@[0]@),
            r matches Some(p) ==> path_ahead(*old(self), p.kind.segments@)
                && final(self).same_tokens(*old(self))
                && final(self).position() == old(self).position() + 2 * p.kind.segments@.len() - 1,
    {
        let first = self.expect_ident()?;
        let start = first.span.start;
        let mut end = first.span.end;
        let mut segments: Vec<String> = Vec::new();
        segments.push(first.kind);
        proof {
            assert(segments@ =~= seq![first.kind]);
            self.lemma_current_ahead(*old(self));
        }
        while self.eat_symbol(TokSymbol::ColonColon).is_some()
            invariant
                parsed(*old(self), *self, Some(())),
                segments@.len() >= 1,
                start == old(self).current().span.start,
                start <= end,
                end == self.previous().end,
                old(self).current().kind@ == crate::lexer::TokenView::Ident(segments@[0]@),
                self.same_tokens(*old(self)),
                self.position() == old(self).position() + 2 * segments@.len() - 1,
                forall|i: int| 0 <= i < segments@.len() ==> (#[trigger] old(self).ahead(2 * i)).kind@
                    == crate::lexer::TokenView::Ident(segments@[i]@),
                forall|i: int| 0 <= i < segments@.len() - 1 ==> is_symbol((#[trigger] old(self).ahead(2 * i + 1)).kind,
                    TokSymbol::ColonColon),
            decreases self.remaining(),
        {
            proof {
                let n = segments@.len() as int;
                self.lemma_current_ahead(*old(self));
                assert(is_symbol(old(self).ahead(2 * (n - 1) + 1).kind, TokSymbol::ColonColon));
            }
            let ghost before = segments@;
            let seg = self.expect_ident()?;
            end = seg.span.end;
            segments.push(seg.kind);
            proof {
                let n = before.len() as int;
                assert(old(self).ahead(2 * n).kind@ == crate::lexer::TokenView::Ident(seg.kind@));
                assert forall|i: int| 0 <= i < segments@.len() implies (#[trigger] old(self).ahead(2 * i)).kind@
                    == crate::lexer::TokenView::Ident(segments@[i]@) by {
                    if i < n {
                        assert(segments@[i] == before[i]);
                    }
                }
                assert forall|i: int| 0 <= i < segments@.len() - 1 implies is_symbol((#[trigger] old(self).ahead(2 * i + 1)).kind,
                    TokSymbol::ColonColon) by {
                    if i < n - 1 {
                    }
                }
            }
        }
        proof {
            self.lemma_current_ahead(*old(self));
        }
        Some(Node::new(Span::new(start, end), PathKind { segments }))
    }

    fn synchronize_item(&mut self)
        requires
            old(self).wf(),
        ensures
            steps(*old(self), *final(self)),
            final(self).diagnostic_count() == old(self).diagnostic_count(),
            (!(old(self).current().kind is Eof) && !at_sync_item(*old(self))) ==> old(
                self,
            ).position() < final(self).position(),
    {
        while !self.at_eof()
            invariant
                steps(*old(self), *self),
                self.diagnostic_count() == old(self).diagnostic_count(),
                (!(old(self).current().kind is Eof) && !at_sync_item(*old(self))) ==> (old(
                    self,
                ).position() < self.position() || self.current() == old(self).current()),
            decreases self.remaining(),
        {
            let stop = match &self.peek().kind {
                TokenKind::Keyword(k) => *k == Keyword::Const || *k == Keyword::Struct || *k
                    == Keyword::Enum || *k == Keyword::Interface || *k == Keyword::Impl || *k
                    == Keyword::Fn,
                _ => false,
            };
            if stop {
                return;
            }
            self.bump();
        }
    }

    fn synchronize_member(&mut self)
        requires
            old(self).wf(),
        ensures
            steps(*old(self), *final(self)),
            final(self).diagnostic_count() == old(self).diagnostic_count(),
            !(old(self).current().kind is Eof) && !at_sym(*old(self), TokSymbol::RBrace) ==> old(
                self,
            ).position() < final(self).position(),
    {
        while !self.at_eof() && !self.at_symbol(TokSymbol::Semi) && !self.at_symbol(
            TokSymbol::RBrace,
        )
            invariant
                steps(*old(self), *self),
                self.diagnostic_count() == old(self).diagnostic_count(),
                (!(old(self).current().kind is Eof) && !at_sym(*old(self), TokSymbol::RBrace))
                    ==> (old(self).position() < self.position() || self.current() == old(
                    self,
                ).current()),
            decreases self.remaining(),
        {
            self.bump();
        }
        self.eat_symbol(TokSymbol::Semi);
    }
}

/// Whether the current token is one at which item recovery stops.
pub open spec fn at_sync_item(p: Parser) -> bool {
    ||| at_kw(p, Keyword::Const)
    ||| at_kw(p, Keyword::Struct)
    ||| at_kw(p, Keyword::Enum)
    ||| at_kw(p, Keyword::Interface)
    ||| at_kw(p, Keyword::Impl)
    ||| at_kw(p, Keyword::Fn)
}

/// The integer type a primitive type name stands for.
pub open spec fn int_ty_of_name(t: Seq<char>) -> Option<IntTy> {
    if t == "i8"@ { Some(IntTy { signedness: Signedness::Signed, width: IntWidth::W8 }) }
    else if t == "i16"@ { Some(IntTy { signedness: Signedness::Signed, width: IntWidth::W16 }) }
    else if t == "i32"@ { Some(IntTy { signedness: Signedness::Signed, width: IntWidth::W32 }) }
    else if t == "i64"@ { Some(IntTy { signedness: Signedness::Signed, width: IntWidth::W64 }) }
    else if t == "i128"@ { Some(IntTy { signedness: Signedness::Signed, width: IntWidth::W128 }) }
    else if t == "isize"@ { Some(IntTy { signedness: Signedness::Signed, width: IntWidth::Size }) }
    else if t == "u8"@ { Some(IntTy { signedness: Signedness::Unsigned, width: IntWidth::W8 }) }
    else if t == "u16"@ { Some(IntTy { signedness: Signedness::Unsigned, width: IntWidth::W16 }) }
    else if t == "u32"@ { Some(IntTy { signedness: Signedness::Unsigned, width: IntWidth::W32 }) }
    else if t == "u64"@ { Some(IntTy { signedness: Signedness::Unsigned, width: IntWidth::W64 }) }
    else if t == "u128"@ { Some(IntTy { signedness: Signedness::Unsigned, width: IntWidth::W128 }) }
    else if t == "usize"@ { Some(IntTy { signedness: Signedness::Unsigned, width: IntWidth::Size }) }
    else { None }
}

/// Parsing an integer type name and rendering an integer type are inverse:
/// a name stands for exactly the type that renders as that name, so every
/// integer type renders as a name that stands for it, and no two names
/// stand for one type.
pub proof fn law_int_type_names_round_trip(t: Seq<char>, ty: IntTy)
    ensures
        int_ty_of_name(t) == Some(ty) <==> crate::ast::int_ty_name(ty) == t,
{
    reveal_with_fuel(crate::text::nat_decimal, 3);
    assert(crate::text::nat_decimal(8) =~= seq!['8']);
    assert(crate::text::nat_decimal(16) =~= seq!['1', '6']);
    assert(crate::text::nat_decimal(32) =~= seq!['3', '2']);
    assert(crate::text::nat_decimal(64) =~= seq!['6', '4']);
    assert(crate::text::nat_decimal(12) =~= seq!['1', '2']);
    assert(crate::text::nat_decimal(128) =~= seq!['1', '2', '8']);
    reveal_strlit("i8");
    reveal_strlit("i16");
    reveal_strlit("i32");
    reveal_strlit("i64");
    reveal_strlit("i128");
    reveal_strlit("isize");
    reveal_strlit("u8");
    reveal_strlit("u16");
    reveal_strlit("u32");
    reveal_strlit("u64");
    reveal_strlit("u128");
    reveal_strlit("usize");
    let name = crate::ast::int_ty_name(ty);
    match (ty.signedness, ty.width) {
        (Signedness::Signed, IntWidth::W8) => {
            assert(name =~= "i8"@);
            assert(int_ty_of_name(name) == Some(ty));
        },
        (Signedness::Signed, IntWidth::W16) => {
            assert(name =~= "i16"@);
            assert(name.len() != "i8"@.len());
            assert(int_ty_of_name(name) == Some(ty));
        },
        (Signedness::Signed, IntWidth::W32) => {
            assert(name =~= "i32"@);
            assert(name.len() != "i8"@.len());
            assert(name[1] != "i16"@[1]);
            assert(int_ty_of_name(name) == Some(ty));
        },
        (Signedness::Signed, IntWidth::W64) => {
            assert(name =~= "i64"@);
            assert(name.len() != "i8"@.len());
            assert(name[1] != "i16"@[1]);
            assert(name[1] != "i32"@[1]);
            assert(int_ty_of_name(name) == Some(ty));
        },
        (Signedness::Signed, IntWidth::W128) => {
            assert(name =~= "i128"@);
            assert(name.len() != "i8"@.len());
            assert(name.len() != "i16"@.len());
            assert(name.len() != "i32"@.len());
            assert(name.len() != "i64"@.len());
            assert(int_ty_of_name(name) == Some(ty));
        },
        (Signedness::Signed, IntWidth::Size) => {
            assert(name =~= "isize"@);
            assert(name.len() != "i8"@.len());
            assert(name.len() != "i16"@.len());
            assert(name.len() != "i32"@.len());
            assert(name.len() != "i64"@.len());
            assert(name.len() != "i128"@.len());
            assert(int_ty_of_name(name) == Some(ty));
        },
        (Signedness::Unsigned, IntWidth::W8) => {
            assert(name =~= "u8"@);
            assert(name[0] != "i8"@[0]);
            assert(name.len() != "i16"@.len());
            assert(name.len() != "i32"@.len());
            assert(name.len() != "i64"@.len());
            assert(name.len() != "i128"@.len());
            assert(name.len() != "isize"@.len());
            assert(int_ty_of_name(name) == Some(ty));
        },
        (Signedness::Unsigned, IntWidth::W16) => {
            assert(name =~= "u16"@);
            assert(name.len() != "i8"@.len());
            assert(name[0] != "i16"@[0]);
            assert(name[0] != "i32"@[0]);
            assert(name[0] != "i64"@[0]);
            assert(name.len() != "i128"@.len());
            assert(name.len() != "isize"@.len());
            assert(name.len() != "u8"@.len());
            assert(int_ty_of_name(name) == Some(ty));
        },
        (Signedness::Unsigned, IntWidth::W32) => {
            assert(name =~= "u32"@);
            assert(name.len() != "i8"@.len());
            assert(name[0] != "i16"@[0]);
            assert(name[0] != "i32"@[0]);
            assert(name[0] != "i64"@[0]);
            assert(name.len() != "i128"@.len());
            assert(name.len() != "isize"@.len());
            assert(name.len() != "u8"@.len());
            assert(name[1] != "u16"@[1]);
            assert(int_ty_of_name(name) == Some(ty));
        },
        (Signedness::Unsigned, IntWidth::W64) => {
            assert(name =~= "u64"@);
            assert(name.len() != "i8"@.len());
            assert(name[0] != "i16"@[0]);
            assert(name[0] != "i32"@[0]);
            assert(name[0] != "i64"@[0]);
            assert(name.len() != "i128"@.len());
            assert(name.len() != "isize"@.len());
            assert(name.len() != "u8"@.len());
            assert(name[1] != "u16"@[1]);
            assert(name[1] != "u32"@[1]);
            assert(int_ty_of_name(name) == Some(ty));
        },
        (Signedness::Unsigned, IntWidth::W128) => {
            assert(name =~= "u128"@);
            assert(name.len() != "i8"@.len());
            assert(name.len() != "i16"@.len());
            assert(name.len() != "i32"@.len());
            assert(name.len() != "i64"@.len());
            assert(name[0] != "i128"@[0]);
            assert(name.len() != "isize"@.len());
            assert(name.len() != "u8"@.len());
            assert(name.len() != "u16"@.len());
            assert(name.len() != "u32"@.len());
            assert(name.len() != "u64"@.len());
            assert(int_ty_of_name(name) == Some(ty));
        },
        (Signedness::Unsigned, IntWidth::Size) => {
            assert(name =~= "usize"@);
            assert(name.len() != "i8"@.len());
            assert(name.len() != "i16"@.len());
            assert(name.len() != "i32"@.len());
            assert(name.len() != "i64"@.len());
            assert(name.len() != "i128"@.len());
            assert(name[0] != "isize"@[0]);
            assert(name.len() != "u8"@.len());
            assert(name.len() != "u16"@.len());
            assert(name.len() != "u32"@.len());
            assert(name.len() != "u64"@.len());
            assert(name.len() != "u128"@.len());
            assert(int_ty_of_name(name) == Some(ty));
        },
    }
    assert(int_ty_of_name(name) == Some(ty));
    if int_ty_of_name(t) == Some(ty) {
        if t != name {
            assert(int_ty_of_name(t) is Some);
            assert(t == "i8"@ || t == "i16"@ || t == "i32"@ || t == "i64"@ || t == "i128"@ || t == "isize"@
                || t == "u8"@ || t == "u16"@ || t == "u32"@ || t == "u64"@ || t == "u128"@ || t == "usize"@);
        }
    }
}

/// The integer type a primitive type name stands for.
fn int_ty_named(text: &str) -> (r: Option<IntTy>)
    ensures
        r is Some <==> (text@ == "i8"@ || text@ == "i16"@ || text@ == "i32"@ || text@ == "i64"@
            || text@ == "i128"@ || text@ == "isize"@ || text@ == "u8"@ || text@ == "u16"@
            || text@ == "u32"@ || text@ == "u64"@ || text@ == "u128"@ || text@ == "usize"@),
        r == int_ty_of_name(text@),
{
    if crate::text::str_eq(text, "i8") { Some(IntTy::new(Signedness::Signed, IntWidth::W8)) }
    else if crate::text::str_eq(text, "i16") { Some(IntTy::new(Signedness::Signed, IntWidth::W16)) }
    else if crate::text::str_eq(text, "i32") { Some(IntTy::i32()) }
    else if crate::text::str_eq(text, "i64") { Some(IntTy::i64()) }
    else if crate::text::str_eq(text, "i128") { Some(IntTy::new(Signedness::Signed, IntWidth::W128)) }
    else if crate::text::str_eq(text, "isize") { Some(IntTy::new(Signedness::Signed, IntWidth::Size)) }
    else if crate::text::str_eq(text, "u8") { Some(IntTy::u8()) }
    else if crate::text::str_eq(text, "u16") { Some(IntTy::new(Signedness::Unsigned, IntWidth::W16)) }
    else if crate::text::str_eq(text, "u32") { Some(IntTy::new(Signedness::Unsigned, IntWidth::W32)) }
    else if crate::text::str_eq(text, "u64") { Some(IntTy::new(Signedness::Unsigned, IntWidth::W64)) }
    else if crate::text::str_eq(text, "u128") { Some(IntTy::new(Signedness::Unsigned, IntWidth::W128)) }
    else if crate::text::str_eq(text, "usize") { Some(IntTy::usize()) }
    else { None }
}

/// The `Debug` name of a keyword.
fn keyword_name(k: Keyword) -> (r: &'static str)
    ensures
        r@ == keyword_debug_name(k),
{
    match k {
        Keyword::Use => "Use",
        Keyword::Const => "Const",
        Keyword::Struct => "Struct",
        Keyword::Enum => "Enum",
        Keyword::Interface => "Interface",
        Keyword::Impl => "Impl",
        Keyword::For => "For",
        Keyword::Fn => "Fn",
        Keyword::SelfLower => "SelfLower",
        Keyword::SelfUpper => "SelfUpper",
        Keyword::Mut => "Mut",
        Keyword::Where => "Where",
        Keyword::Match => "Match",
        Keyword::If => "If",
        Keyword::Else => "Else",
        Keyword::Return => "Return",
        Keyword::True => "True",
        Keyword::False => "False",
        Keyword::As => "As",
        Keyword::Let => "Let",
        Keyword::Todo => "Todo",
    }
}

/// The `Debug` name of a symbol.
fn symbol_name(s: TokSymbol) -> (r: &'static str)
    ensures
        r@ == symbol_debug_name(s),
{
    match s {
        TokSymbol::LParen => "LParen",
        TokSymbol::RParen => "RParen",
        TokSymbol::LBrace => "LBrace",
        TokSymbol::RBrace => "RBrace",
        TokSymbol::LBracket => "LBracket",
        TokSymbol::RBracket => "RBracket",
        TokSymbol::Lt => "Lt",
        TokSymbol::Gt => "Gt",
        TokSymbol::Le => "Le",
        TokSymbol::Ge => "Ge",
        TokSymbol::Eq => "Eq",
        TokSymbol::EqEq => "EqEq",
        TokSymbol::Ne => "Ne",
        TokSymbol::Bang => "Bang",
        TokSymbol::Colon => "Colon",
        TokSymbol::ColonColon => "ColonColon",
        TokSymbol::Semi => "Semi",
        TokSymbol::Comma => "Comma",
        TokSymbol::Dot => "Dot",
        TokSymbol::Plus => "Plus",
        TokSymbol::Minus => "Minus",
        TokSymbol::Star => "Star",
        TokSymbol::Slash => "Slash",
        TokSymbol::Percent => "Percent",
        TokSymbol::Amp => "Amp",
        TokSymbol::AmpAmp => "AmpAmp",
        TokSymbol::Pipe => "Pipe",
        TokSymbol::PipePipe => "PipePipe",
        TokSymbol::Caret => "Caret",
        TokSymbol::Shl => "Shl",
        TokSymbol::Shr => "Shr",
        TokSymbol::Arrow => "Arrow",
        TokSymbol::FatArrow => "FatArrow",
    }
}

/// Splits `a::b::V` into the enum path `a::b` (with the same span) and the
/// variant name `V`.
fn split_variant_path(path: &Path) -> (r: (Path, String))
    requires
        path.kind.segments@.len() >= 1,
    ensures
        r.0.span == path.span,
        r.0.kind.segments@ == path.kind.segments@.drop_last(),
        r.1 == path.kind.segments@.last(),
{
    let mut enum_segments: Vec<String> = Vec::new();
    let n = path.kind.segments.len();
    let mut i: usize = 0;
    while i + 1 < n
        invariant
            n == path.kind.segments@.len(),
            n >= 1,
            0 <= i <= n - 1,
            enum_segments@ == path.kind.segments@.subrange(0, i as int),
        decreases n - i,
    {
        enum_segments.push(path.kind.segments[i].clone());
        i = i + 1;
        proof {
            assert(enum_segments@ =~= path.kind.segments@.subrange(0, i as int));
        }
    }
    let variant = path.kind.segments[n - 1].clone();
    proof {
        assert(enum_segments@ =~= path.kind.segments@.drop_last());
    }
    (Node::new(path.span, PathKind { segments: enum_segments }), variant)
}

} // verus!
