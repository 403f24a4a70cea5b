use vstd::prelude::*;
use crate::ast::{
    arg_spans, args_spans, before, def_nested, defs_view, expr_nested, expr_span, field_spans, in_order,
    inside, opt_type_spans, opt_type_view, type_nested, type_span, types_view, value_def_nested,
    value_defs_view, Ast, Def, DefV, Expr, ExprV, GenericDef, GenericDefV, Name, NameV, TypeDef,
    TypeDefV, TypeRef, TypeRefV, ValueDef, ValueDefV,
};
use crate::lexer::{
    decimal_in, int_value, lex, ordered_tokens, token_views, tokens_of, Token, TokenKind, TokenV,
};
use crate::span::Span;

verus! {

/// The grammar production a syntax error was found in, for "while parsing" context.
#[derive(Debug, Clone, Copy, PartialEq, Eq, Structural)]
pub enum Label {
    GenericDefinition,
    GenericTypeArgument,
    ValueDefinition,
    TypeDefinition,
    FieldDefinition,
    Expression,
    FunctionDefinition,
    BranchingExpression,
    LetExpression,
    TypeReference,
}

/// A label's name in messages.
pub open spec fn label_text(l: Label) -> &'static str {
    match l {
        Label::GenericDefinition => "generic definition",
        Label::GenericTypeArgument => "generic type argument",
        Label::ValueDefinition => "value definition",
        Label::TypeDefinition => "type definition",
        Label::FieldDefinition => "field definition",
        Label::Expression => "expression",
        Label::FunctionDefinition => "function definition",
        Label::BranchingExpression => "branching expression",
        Label::LetExpression => "let expression",
        Label::TypeReference => "type reference",
    }
}

impl Label {
    /// This label's name in messages.
    pub fn text(&self) -> (r: &'static str)
        ensures
            r == label_text(*self),
    {
        match self {
            Label::GenericDefinition => "generic definition",
            Label::GenericTypeArgument => "generic type argument",
            Label::ValueDefinition => "value definition",
            Label::TypeDefinition => "type definition",
            Label::FieldDefinition => "field definition",
            Label::Expression => "expression",
            Label::FunctionDefinition => "function definition",
            Label::BranchingExpression => "branching expression",
            Label::LetExpression => "let expression",
            Label::TypeReference => "type reference",
        }
    }
}

/// A production being parsed: its label and the index of its first token.
#[derive(Debug, Clone, Copy, PartialEq, Eq, Structural)]
pub struct Frame {
    pub label: Label,
    pub start: usize,
}

/// The furthest point a definition's parse reached before failing: the token index,
/// the token kinds that would have been accepted there, and the productions open at the
/// first failure there. `too_deep` holds where nesting first exceeded the limit.
pub struct Tracker {
    pub pos: usize,
    pub expected: Vec<TokenKind>,
    pub context: Vec<Frame>,
    pub too_deep: Option<usize>,
}

pub struct TrackV {
    pub pos: usize,
    pub expected: Seq<TokenKind>,
    pub context: Seq<Frame>,
    pub too_deep: Option<usize>,
}

impl View for Tracker {
    type V = TrackV;

    open spec fn view(&self) -> TrackV {
        TrackV {
            pos: self.pos,
            expected: self.expected@,
            context: self.context@,
            too_deep: self.too_deep,
        }
    }
}

/// The result of a parsing rule: the node and the index past it, if the rule matched,
/// and the failure record after the attempt.
pub type Parsed<X> = (Option<(X, usize)>, TrackV);

pub open spec fn fresh() -> TrackV {
    TrackV { pos: 0, expected: seq![], context: seq![], too_deep: None }
}

pub open spec fn at(ts: Seq<TokenV>, p: usize, k: TokenKind) -> bool {
    p < ts.len() && ts[p as int].kind == k
}

/// Records that a token of kind `k` was expected at `p`: a failure further on than any
/// before replaces the record, one at the same place adds to what was expected.
pub open spec fn noted(t: TrackV, p: usize, k: TokenKind, ctx: Seq<Frame>) -> TrackV {
    if t.expected.len() == 0 || p > t.pos {
        TrackV { pos: p, expected: seq![k], context: ctx, too_deep: t.too_deep }
    } else if p == t.pos && !t.expected.contains(k) {
        TrackV { pos: t.pos, expected: t.expected.push(k), context: t.context, too_deep: t.too_deep }
    } else {
        t
    }
}

/// Records that nesting ran out at `p`, unless it ran out before.
pub open spec fn deepened(t: TrackV, p: usize) -> TrackV {
    if t.too_deep is None {
        TrackV { pos: t.pos, expected: t.expected, context: t.context, too_deep: Some(p) }
    } else {
        t
    }
}

/// The measure for a rule that repeats from `p`.
pub open spec fn rem(ts: Seq<TokenV>, p: usize) -> int {
    if p <= ts.len() {
        ts.len() - p
    } else {
        0
    }
}

pub open spec fn next(p: usize) -> usize {
    (p + 1) as usize
}

pub open spec fn name_node(ts: Seq<TokenV>, p: usize) -> NameV {
    NameV { span: ts[p as int].span, text: ts[p as int].text }
}

pub open spec fn span_from(a: Span, b: Span) -> Span {
    Span { start: a.start, end: b.end }
}

/// `Name`
pub open spec fn name_rule(ts: Seq<TokenV>, p: usize, ctx: Seq<Frame>, t: TrackV) -> Parsed<NameV> {
    if at(ts, p, TokenKind::Name) {
        (Some((name_node(ts, p), next(p))), t)
    } else {
        (None, noted(t, p, TokenKind::Name, ctx))
    }
}

/// Expects a token of kind `k` at `p`.
pub open spec fn token_rule(ts: Seq<TokenV>, p: usize, k: TokenKind, ctx: Seq<Frame>, t: TrackV) -> Parsed<Span> {
    if at(ts, p, k) {
        (Some((ts[p as int].span, next(p))), t)
    } else {
        (None, noted(t, p, k, ctx))
    }
}

/// `TypeRef := ':' ( Name | '(' InnerTypeRef ')' )`
pub open spec fn type_ref_rule(ts: Seq<TokenV>, d: usize, p: usize, ctx: Seq<Frame>, t: TrackV) -> Parsed<TypeRefV>
    decreases d, ts.len() + 1,
{
    if d == 0 {
        (None, deepened(t, p))
    } else {
        let c = ctx.push(Frame { label: Label::TypeReference, start: p });
        if !at(ts, p, TokenKind::Colon) {
            (None, noted(t, p, TokenKind::Colon, ctx))
        } else {
            let q = next(p);
            if at(ts, q, TokenKind::Name) {
                let n = name_node(ts, q);
                (Some((TypeRefV::Named(n.span, n, seq![]), next(q))), t)
            } else {
                let t1 = noted(t, q, TokenKind::Name, c);
                if !at(ts, q, TokenKind::OpenParen) {
                    (None, noted(t1, q, TokenKind::OpenParen, c))
                } else {
                    let (r, t2) = inner_type_rule(ts, (d - 1) as usize, next(q), c, t1);
                    match r {
                        None => (None, t2),
                        Some((ty, e)) => if at(ts, e, TokenKind::CloseParen) {
                            (Some((ty, next(e))), t2)
                        } else {
                            (None, noted(t2, e, TokenKind::CloseParen, c))
                        },
                    }
                }
            }
        }
    }
}

/// Folds `a -> b -> ... -> last` to the right.
pub open spec fn fold_arrows(items: Seq<TypeRefV>, last: TypeRefV) -> TypeRefV
    decreases items.len(),
{
    if items.len() == 0 {
        last
    } else {
        let a = items.last();
        fold_arrows(
            items.drop_last(),
            TypeRefV::Function(span_from(type_span(a), type_span(last)), Box::new(a), Box::new(last)),
        )
    }
}

/// `InnerTypeRef := NonFnTypeRef ('->' NonFnTypeRef)*`, the arrows right-associative.
pub open spec fn inner_type_rule(ts: Seq<TokenV>, d: usize, p: usize, ctx: Seq<Frame>, t: TrackV) -> Parsed<TypeRefV>
    decreases d, ts.len() + 1,
{
    if d == 0 {
        (None, deepened(t, p))
    } else {
        let (r, t1) = non_fn_type_rule(ts, (d - 1) as usize, p, ctx, t);
        match r {
            None => (None, t1),
            Some((first, q)) => {
                let (items, e, t2) = arrows_rule(ts, d, q, ctx, t1, seq![first]);
                (Some((fold_arrows(items.drop_last(), items.last()), e)), t2)
            },
        }
    }
}

/// `('->' NonFnTypeRef)*`, gathering the operands after `acc`.
pub open spec fn arrows_rule(ts: Seq<TokenV>, d: usize, p: usize, ctx: Seq<Frame>, t: TrackV, acc: Seq<TypeRefV>) -> (Seq<TypeRefV>, usize, TrackV)
    decreases d, rem(ts, p),
{
    if d == 0 {
        (acc, p, t)
    } else if !at(ts, p, TokenKind::Arrow) {
        (acc, p, noted(t, p, TokenKind::Arrow, ctx))
    } else {
        let (r, t1) = non_fn_type_rule(ts, (d - 1) as usize, next(p), ctx, t);
        match r {
            Some((ty, q)) => if p < q <= ts.len() {
                arrows_rule(ts, d, q, ctx, t1, acc.push(ty))
            } else {
                (acc, p, t1)
            },
            None => (acc, p, t1),
        }
    }
}

/// `NonFnTypeRef := Name NonFnTypeRef* | '(' InnerTypeRef ')'`
pub open spec fn non_fn_type_rule(ts: Seq<TokenV>, d: usize, p: usize, ctx: Seq<Frame>, t: TrackV) -> Parsed<TypeRefV>
    decreases d, ts.len() + 1,
{
    if d == 0 {
        (None, deepened(t, p))
    } else if at(ts, p, TokenKind::Name) {
        let n = name_node(ts, p);
        let (args, q, t1) = type_args_rule(ts, d, next(p), ctx, t, seq![]);
        let end = if args.len() == 0 { n.span } else { type_span(args.last()) };
        (Some((TypeRefV::Named(span_from(n.span, end), n, args), q)), t1)
    } else {
        let t1 = noted(t, p, TokenKind::Name, ctx);
        if !at(ts, p, TokenKind::OpenParen) {
            (None, noted(t1, p, TokenKind::OpenParen, ctx))
        } else {
            let (r, t2) = inner_type_rule(ts, (d - 1) as usize, next(p), ctx, t1);
            match r {
                None => (None, t2),
                Some((ty, e)) => if at(ts, e, TokenKind::CloseParen) {
                    (Some((ty, next(e))), t2)
                } else {
                    (None, noted(t2, e, TokenKind::CloseParen, ctx))
                },
            }
        }
    }
}

/// `NonFnTypeRef*`, the generic arguments of a named type.
pub open spec fn type_args_rule(ts: Seq<TokenV>, d: usize, p: usize, ctx: Seq<Frame>, t: TrackV, acc: Seq<TypeRefV>) -> (Seq<TypeRefV>, usize, TrackV)
    decreases d, rem(ts, p),
{
    if d == 0 {
        (acc, p, t)
    } else {
        let (r, t1) = non_fn_type_rule(ts, (d - 1) as usize, p, ctx, t);
        match r {
            Some((ty, q)) => if p < q <= ts.len() {
                type_args_rule(ts, d, q, ctx, t1, acc.push(ty))
            } else {
                (acc, p, t1)
            },
            None => (acc, p, t1),
        }
    }
}


/// `GenericArg := Name (TypeRef ('&' TypeRef)*)?`
pub open spec fn generic_arg_rule(ts: Seq<TokenV>, d: usize, p: usize, ctx: Seq<Frame>, t: TrackV) -> Parsed<(NameV, Seq<TypeRefV>)>
    decreases d, ts.len() + 1,
{
    if d == 0 {
        (None, deepened(t, p))
    } else {
        let c = ctx.push(Frame { label: Label::GenericTypeArgument, start: p });
        let (r, t1) = name_rule(ts, p, ctx, t);
        match r {
            None => (None, t1),
            Some((n, q)) => {
                let (f, t2) = type_ref_rule(ts, (d - 1) as usize, q, c, t1);
                match f {
                    None => (Some(((n, seq![]), q)), t2),
                    Some((first, e)) => {
                        let (tys, e2, t3) = alternatives_rule(ts, d, e, c, t2, seq![first]);
                        (Some(((n, tys), e2)), t3)
                    },
                }
            },
        }
    }
}

/// `('&' TypeRef)*`
pub open spec fn alternatives_rule(ts: Seq<TokenV>, d: usize, p: usize, ctx: Seq<Frame>, t: TrackV, acc: Seq<TypeRefV>) -> (Seq<TypeRefV>, usize, TrackV)
    decreases d, rem(ts, p),
{
    if d == 0 {
        (acc, p, t)
    } else if !at(ts, p, TokenKind::Ampersand) {
        (acc, p, noted(t, p, TokenKind::Ampersand, ctx))
    } else {
        let (r, t1) = type_ref_rule(ts, (d - 1) as usize, next(p), ctx, t);
        match r {
            Some((ty, q)) => if p < q <= ts.len() {
                alternatives_rule(ts, d, q, ctx, t1, acc.push(ty))
            } else {
                (acc, p, t1)
            },
            None => (acc, p, t1),
        }
    }
}

/// `GenericDef := Name '$' GenericArg (',' GenericArg)* ';'`
pub open spec fn generic_def_rule(ts: Seq<TokenV>, d: usize, p: usize, ctx: Seq<Frame>, t: TrackV) -> Parsed<GenericDefV>
    decreases d, ts.len() + 1,
{
    if d == 0 {
        (None, deepened(t, p))
    } else {
        let c = ctx.push(Frame { label: Label::GenericDefinition, start: p });
        let (r, t1) = name_rule(ts, p, ctx, t);
        match r {
            None => (None, t1),
            Some((n, q)) => if !at(ts, q, TokenKind::DollarSign) {
                (None, noted(t1, q, TokenKind::DollarSign, c))
            } else {
                let (a, t2) = generic_arg_rule(ts, (d - 1) as usize, next(q), c, t1);
                match a {
                    None => (None, t2),
                    Some((first, e)) => {
                        let (args, e2, t3) = generic_args_rule(ts, d, e, c, t2, seq![first]);
                        if at(ts, e2, TokenKind::Semicolon) {
                            let sp = span_from(n.span, ts[e2 as int].span);
                            (Some((GenericDefV { span: sp, name: n, args }, next(e2))), t3)
                        } else {
                            (None, noted(t3, e2, TokenKind::Semicolon, c))
                        }
                    },
                }
            },
        }
    }
}

/// `(',' GenericArg)*`
pub open spec fn generic_args_rule(ts: Seq<TokenV>, d: usize, p: usize, ctx: Seq<Frame>, t: TrackV, acc: Seq<(NameV, Seq<TypeRefV>)>) -> (Seq<(NameV, Seq<TypeRefV>)>, usize, TrackV)
    decreases d, rem(ts, p),
{
    if d == 0 {
        (acc, p, t)
    } else if !at(ts, p, TokenKind::Comma) {
        (acc, p, noted(t, p, TokenKind::Comma, ctx))
    } else {
        let (r, t1) = generic_arg_rule(ts, (d - 1) as usize, next(p), ctx, t);
        match r {
            Some((a, q)) => if p < q <= ts.len() {
                generic_args_rule(ts, d, q, ctx, t1, acc.push(a))
            } else {
                (acc, p, t1)
            },
            None => (acc, p, t1),
        }
    }
}

/// `Field := Name TypeRef`
pub open spec fn field_rule(ts: Seq<TokenV>, d: usize, p: usize, ctx: Seq<Frame>, t: TrackV) -> Parsed<(NameV, TypeRefV)>
    decreases d, ts.len() + 1,
{
    if d == 0 {
        (None, deepened(t, p))
    } else {
        let c = ctx.push(Frame { label: Label::FieldDefinition, start: p });
        let (r, t1) = name_rule(ts, p, ctx, t);
        match r {
            None => (None, t1),
            Some((n, q)) => {
                let (f, t2) = type_ref_rule(ts, (d - 1) as usize, q, c, t1);
                match f {
                    None => (None, t2),
                    Some((ty, e)) => (Some(((n, ty), e)), t2),
                }
            },
        }
    }
}

/// `TypeDef := Name '|' Field (',' Field)* ';'`
pub open spec fn type_def_rule(ts: Seq<TokenV>, d: usize, p: usize, ctx: Seq<Frame>, t: TrackV) -> Parsed<TypeDefV>
    decreases d, ts.len() + 1,
{
    if d == 0 {
        (None, deepened(t, p))
    } else {
        let c = ctx.push(Frame { label: Label::TypeDefinition, start: p });
        let (r, t1) = name_rule(ts, p, ctx, t);
        match r {
            None => (None, t1),
            Some((n, q)) => if !at(ts, q, TokenKind::Pipe) {
                (None, noted(t1, q, TokenKind::Pipe, c))
            } else {
                let (a, t2) = field_rule(ts, (d - 1) as usize, next(q), c, t1);
                match a {
                    None => (None, t2),
                    Some((first, e)) => {
                        let (fields, e2, t3) = fields_rule(ts, d, e, c, t2, seq![first]);
                        if at(ts, e2, TokenKind::Semicolon) {
                            let sp = span_from(n.span, ts[e2 as int].span);
                            (Some((TypeDefV { span: sp, name: n, fields }, next(e2))), t3)
                        } else {
                            (None, noted(t3, e2, TokenKind::Semicolon, c))
                        }
                    },
                }
            },
        }
    }
}

/// `(',' Field)*`
pub open spec fn fields_rule(ts: Seq<TokenV>, d: usize, p: usize, ctx: Seq<Frame>, t: TrackV, acc: Seq<(NameV, TypeRefV)>) -> (Seq<(NameV, TypeRefV)>, usize, TrackV)
    decreases d, rem(ts, p),
{
    if d == 0 {
        (acc, p, t)
    } else if !at(ts, p, TokenKind::Comma) {
        (acc, p, noted(t, p, TokenKind::Comma, ctx))
    } else {
        let (r, t1) = field_rule(ts, (d - 1) as usize, next(p), ctx, t);
        match r {
            Some((a, q)) => if p < q <= ts.len() {
                fields_rule(ts, d, q, ctx, t1, acc.push(a))
            } else {
                (acc, p, t1)
            },
            None => (acc, p, t1),
        }
    }
}

/// `ValueDef := Name '=' Expr ';'`
pub open spec fn value_def_rule(ts: Seq<TokenV>, d: usize, p: usize, ctx: Seq<Frame>, t: TrackV) -> Parsed<ValueDefV>
    decreases d, ts.len() + 1,
{
    if d == 0 {
        (None, deepened(t, p))
    } else {
        let c = ctx.push(Frame { label: Label::ValueDefinition, start: p });
        let (r, t1) = name_rule(ts, p, ctx, t);
        match r {
            None => (None, t1),
            Some((n, q)) => if !at(ts, q, TokenKind::Equal) {
                (None, noted(t1, q, TokenKind::Equal, c))
            } else {
                let (b, t2) = expr_rule(ts, (d - 1) as usize, next(q), c, t1);
                match b {
                    None => (None, t2),
                    Some((body, e)) => if at(ts, e, TokenKind::Semicolon) {
                        let sp = span_from(n.span, ts[e as int].span);
                        (Some((ValueDefV { span: sp, name: n, body }, next(e))), t2)
                    } else {
                        (None, noted(t2, e, TokenKind::Semicolon, c))
                    },
                }
            },
        }
    }
}

/// `Def := GenericDef | ValueDef | TypeDef`, tried in that order.
#[verifier::opaque]
pub open spec fn def_rule(ts: Seq<TokenV>, d: usize, p: usize, ctx: Seq<Frame>, t: TrackV) -> Parsed<DefV>
    decreases d, ts.len() + 1,
{
    if d == 0 {
        (None, deepened(t, p))
    } else {
        let (g, t1) = generic_def_rule(ts, (d - 1) as usize, p, ctx, t);
        match g {
            Some((g, q)) => (Some((DefV::Generic(g), q)), t1),
            None => {
                let (v, t2) = value_def_rule(ts, (d - 1) as usize, p, ctx, t1);
                match v {
                    Some((v, q)) => (Some((DefV::Value(v), q)), t2),
                    None => {
                        let (y, t3) = type_def_rule(ts, (d - 1) as usize, p, ctx, t2);
                        match y {
                            Some((y, q)) => (Some((DefV::Type(y), q)), t3),
                            None => (None, t3),
                        }
                    },
                }
            },
        }
    }
}

/// `Expr := IfThenElse | LetIn | AppOrPipeExpr`, tried in that order.
pub open spec fn expr_rule(ts: Seq<TokenV>, d: usize, p: usize, ctx: Seq<Frame>, t: TrackV) -> Parsed<ExprV>
    decreases d, ts.len() + 1,
{
    if d == 0 {
        (None, deepened(t, p))
    } else {
        let c = ctx.push(Frame { label: Label::Expression, start: p });
        let (a, t1) = if_rule(ts, (d - 1) as usize, p, c, t);
        match a {
            Some(_) => (a, t1),
            None => {
                let (b, t2) = let_rule(ts, (d - 1) as usize, p, c, t1);
                match b {
                    Some(_) => (b, t2),
                    None => pipe_rule(ts, (d - 1) as usize, p, c, t2),
                }
            },
        }
    }
}

/// `IfThenElse := 'if' Expr 'then' Expr 'else' Expr`
pub open spec fn if_rule(ts: Seq<TokenV>, d: usize, p: usize, ctx: Seq<Frame>, t: TrackV) -> Parsed<ExprV>
    decreases d, ts.len() + 1,
{
    if d == 0 {
        (None, deepened(t, p))
    } else {
        let c = ctx.push(Frame { label: Label::BranchingExpression, start: p });
        if !at(ts, p, TokenKind::If) {
            (None, noted(t, p, TokenKind::If, ctx))
        } else {
            let (a, t1) = expr_rule(ts, (d - 1) as usize, next(p), c, t);
            match a {
                None => (None, t1),
                Some((cond, q1)) => if !at(ts, q1, TokenKind::Then) {
                    (None, noted(t1, q1, TokenKind::Then, c))
                } else {
                    let (b, t2) = expr_rule(ts, (d - 1) as usize, next(q1), c, t1);
                    match b {
                        None => (None, t2),
                        Some((yes, q2)) => if !at(ts, q2, TokenKind::Else) {
                            (None, noted(t2, q2, TokenKind::Else, c))
                        } else {
                            let (e, t3) = expr_rule(ts, (d - 1) as usize, next(q2), c, t2);
                            match e {
                                None => (None, t3),
                                Some((no, q3)) => {
                                    let sp = span_from(ts[p as int].span, expr_span(no));
                                    (Some((ExprV::IfThenElse(sp, Box::new(cond), Box::new(yes), Box::new(no)), q3)), t3)
                                },
                            }
                        },
                    }
                },
            }
        }
    }
}

/// `LetIn := 'let' ValueDef* 'in' Expr`
pub open spec fn let_rule(ts: Seq<TokenV>, d: usize, p: usize, ctx: Seq<Frame>, t: TrackV) -> Parsed<ExprV>
    decreases d, ts.len() + 1,
{
    if d == 0 {
        (None, deepened(t, p))
    } else {
        let c = ctx.push(Frame { label: Label::LetExpression, start: p });
        if !at(ts, p, TokenKind::Let) {
            (None, noted(t, p, TokenKind::Let, ctx))
        } else {
            let (defs, q, t1) = bindings_rule(ts, d, next(p), c, t, seq![]);
            if !at(ts, q, TokenKind::In) {
                (None, noted(t1, q, TokenKind::In, c))
            } else {
                let (b, t2) = expr_rule(ts, (d - 1) as usize, next(q), c, t1);
                match b {
                    None => (None, t2),
                    Some((body, e)) => {
                        let sp = span_from(ts[p as int].span, expr_span(body));
                        (Some((ExprV::LetIn(sp, defs, Box::new(body)), e)), t2)
                    },
                }
            }
        }
    }
}

/// `ValueDef*`
pub open spec fn bindings_rule(ts: Seq<TokenV>, d: usize, p: usize, ctx: Seq<Frame>, t: TrackV, acc: Seq<ValueDefV>) -> (Seq<ValueDefV>, usize, TrackV)
    decreases d, rem(ts, p),
{
    if d == 0 {
        (acc, p, t)
    } else {
        let (r, t1) = value_def_rule(ts, (d - 1) as usize, p, ctx, t);
        match r {
            Some((v, q)) => if p < q <= ts.len() {
                bindings_rule(ts, d, q, ctx, t1, acc.push(v))
            } else {
                (acc, p, t1)
            },
            None => (acc, p, t1),
        }
    }
}

/// An application of `f` to `a`, spanning both.
pub open spec fn call_node(f: ExprV, a: ExprV) -> ExprV {
    ExprV::Call(span_from(expr_span(f), expr_span(a)), Box::new(f), Box::new(a))
}

/// `x |> f`, the call of `f` on `x`, spanning both.
pub open spec fn pipe_node(x: ExprV, f: ExprV) -> ExprV {
    ExprV::Call(span_from(expr_span(x), expr_span(f)), Box::new(f), Box::new(x))
}

/// `NonCallExpr NonCallExpr*`: application by juxtaposition, left-associative.
pub open spec fn apply_rule(ts: Seq<TokenV>, d: usize, p: usize, ctx: Seq<Frame>, t: TrackV) -> Parsed<ExprV>
    decreases d, ts.len() + 1,
{
    if d == 0 {
        (None, deepened(t, p))
    } else {
        let (r, t1) = atom_rule(ts, (d - 1) as usize, p, ctx, t);
        match r {
            None => (None, t1),
            Some((f, q)) => {
                let (e, q2, t2) = arguments_rule(ts, d, q, ctx, t1, f);
                (Some((e, q2)), t2)
            },
        }
    }
}

/// The arguments that follow an application's function, applied one at a time.
pub open spec fn arguments_rule(ts: Seq<TokenV>, d: usize, p: usize, ctx: Seq<Frame>, t: TrackV, acc: ExprV) -> (ExprV, usize, TrackV)
    decreases d, rem(ts, p),
{
    if d == 0 {
        (acc, p, t)
    } else {
        let (r, t1) = atom_rule(ts, (d - 1) as usize, p, ctx, t);
        match r {
            Some((a, q)) => if p < q <= ts.len() {
                arguments_rule(ts, d, q, ctx, t1, call_node(acc, a))
            } else {
                (acc, p, t1)
            },
            None => (acc, p, t1),
        }
    }
}

/// `AppOrPipeExpr`: applications joined by `|>`, left-associative and looser than
/// application; the right operand becomes the function.
pub open spec fn pipe_rule(ts: Seq<TokenV>, d: usize, p: usize, ctx: Seq<Frame>, t: TrackV) -> Parsed<ExprV>
    decreases d, ts.len() + 1,
{
    if d == 0 {
        (None, deepened(t, p))
    } else {
        let (r, t1) = apply_rule(ts, (d - 1) as usize, p, ctx, t);
        match r {
            None => (None, t1),
            Some((x, q)) => {
                let (e, q2, t2) = pipes_rule(ts, d, q, ctx, t1, x);
                (Some((e, q2)), t2)
            },
        }
    }
}

/// `('|>' application)*`
pub open spec fn pipes_rule(ts: Seq<TokenV>, d: usize, p: usize, ctx: Seq<Frame>, t: TrackV, acc: ExprV) -> (ExprV, usize, TrackV)
    decreases d, rem(ts, p),
{
    if d == 0 {
        (acc, p, t)
    } else if !at(ts, p, TokenKind::PipeInto) {
        (acc, p, noted(t, p, TokenKind::PipeInto, ctx))
    } else {
        let (r, t1) = apply_rule(ts, (d - 1) as usize, next(p), ctx, t);
        match r {
            Some((f, q)) => if p < q <= ts.len() {
                pipes_rule(ts, d, q, ctx, t1, pipe_node(acc, f))
            } else {
                (acc, p, t1)
            },
            None => (acc, p, t1),
        }
    }
}

/// `NonCallExpr := FuncDef | Name | Float | Int | '<|' Expr | '(' Expr ')'`, tried in
/// that order.
pub open spec fn atom_rule(ts: Seq<TokenV>, d: usize, p: usize, ctx: Seq<Frame>, t: TrackV) -> Parsed<ExprV>
    decreases d, ts.len() + 1,
{
    if d == 0 {
        (None, deepened(t, p))
    } else {
        let (f, t1) = func_rule(ts, (d - 1) as usize, p, ctx, t);
        if f is Some {
            (f, t1)
        } else if at(ts, p, TokenKind::Name) {
            let n = name_node(ts, p);
            (Some((ExprV::SymbolRef(n.span, n), next(p))), t1)
        } else if at(ts, p, TokenKind::Float) {
            let tok = ts[p as int];
            (Some((ExprV::Float(tok.span, tok.text), next(p))), noted(t1, p, TokenKind::Name, ctx))
        } else if at(ts, p, TokenKind::Int) {
            let tok = ts[p as int];
            let t2 = noted(noted(t1, p, TokenKind::Name, ctx), p, TokenKind::Float, ctx);
            (Some((ExprV::Int(tok.span, int_value(tok.text)), next(p))), t2)
        } else {
            let t2 = noted(noted(noted(t1, p, TokenKind::Name, ctx), p, TokenKind::Float, ctx), p, TokenKind::Int, ctx);
            if at(ts, p, TokenKind::PipeFrom) {
                expr_rule(ts, (d - 1) as usize, next(p), ctx, t2)
            } else {
                let t3 = noted(t2, p, TokenKind::PipeFrom, ctx);
                if !at(ts, p, TokenKind::OpenParen) {
                    (None, noted(t3, p, TokenKind::OpenParen, ctx))
                } else {
                    let (r, t4) = expr_rule(ts, (d - 1) as usize, next(p), ctx, t3);
                    match r {
                        None => (None, t4),
                        Some((e, q)) => if at(ts, q, TokenKind::CloseParen) {
                            (Some((e, next(q))), t4)
                        } else {
                            (None, noted(t4, q, TokenKind::CloseParen, ctx))
                        },
                    }
                }
            }
        }
    }
}

/// `FuncDef := Name TypeRef '->' TypeRef? Expr`
pub open spec fn func_rule(ts: Seq<TokenV>, d: usize, p: usize, ctx: Seq<Frame>, t: TrackV) -> Parsed<ExprV>
    decreases d, ts.len() + 1,
{
    if d == 0 {
        (None, deepened(t, p))
    } else {
        let c = ctx.push(Frame { label: Label::FunctionDefinition, start: p });
        let (r, t1) = name_rule(ts, p, ctx, t);
        match r {
            None => (None, t1),
            Some((n, q)) => {
                let (a, t2) = type_ref_rule(ts, (d - 1) as usize, q, c, t1);
                match a {
                    None => (None, t2),
                    Some((arg, q2)) => if !at(ts, q2, TokenKind::Arrow) {
                        (None, noted(t2, q2, TokenKind::Arrow, c))
                    } else {
                        let (rt, t3) = type_ref_rule(ts, (d - 1) as usize, next(q2), c, t2);
                        let (ret, q3) = match rt {
                            Some((ty, e)) => (Some(ty), e),
                            None => (None, next(q2)),
                        };
                        let (b, t4) = expr_rule(ts, (d - 1) as usize, q3, c, t3);
                        match b {
                            None => (None, t4),
                            Some((body, e)) => {
                                let sp = span_from(n.span, expr_span(body));
                                (Some((ExprV::Func(sp, n, arg, ret, Box::new(body)), e)), t4)
                            },
                        }
                    },
                }
            },
        }
    }
}


/// What went wrong at a syntax error.
#[derive(Debug, Clone, Copy, PartialEq, Eq, Structural)]
pub enum SyntaxErrorKind {
    /// A token, or the end of input, where the grammar allows none of that kind.
    Unexpected,
    /// The input nests deeper than the parser follows.
    TooDeep,
}

/// A production that was open when an error was found, and the source it covered up to
/// the error.
#[derive(Debug, Clone, Copy, PartialEq, Eq, Structural)]
pub struct Context {
    pub label: Label,
    pub span: Span,
}

/// A syntax error: where it is, the token found there (`None` at the end of input), the
/// kinds of token that would have been accepted, and the productions open around it,
/// outermost first.
#[derive(Debug, Clone)]
pub struct SyntaxError {
    pub kind: SyntaxErrorKind,
    pub span: Span,
    pub found: Option<TokenKind>,
    pub expected: Vec<TokenKind>,
    pub context: Vec<Context>,
}

pub struct SyntaxErrorV {
    pub kind: SyntaxErrorKind,
    pub span: Span,
    pub found: Option<TokenKind>,
    pub expected: Seq<TokenKind>,
    pub context: Seq<Context>,
}

impl View for SyntaxError {
    type V = SyntaxErrorV;

    open spec fn view(&self) -> SyntaxErrorV {
        SyntaxErrorV {
            kind: self.kind,
            span: self.span,
            found: self.found,
            expected: self.expected@,
            context: self.context@,
        }
    }
}

pub open spec fn errors_view(v: Seq<SyntaxError>) -> Seq<SyntaxErrorV> {
    v.map_values(|e: SyntaxError| e@)
}

/// The empty span just past the last token.
pub open spec fn end_span(ts: Seq<TokenV>) -> Span {
    if ts.len() == 0 {
        Span { start: 0, end: 0 }
    } else {
        Span { start: ts.last().span.end, end: ts.last().span.end }
    }
}

pub open spec fn span_at(ts: Seq<TokenV>, p: usize) -> Span {
    if p < ts.len() {
        ts[p as int].span
    } else {
        end_span(ts)
    }
}

pub open spec fn found_at(ts: Seq<TokenV>, p: usize) -> Option<TokenKind> {
    if p < ts.len() {
        Some(ts[p as int].kind)
    } else {
        None
    }
}

pub open spec fn context_of(ts: Seq<TokenV>, f: Frame, at_error: Span) -> Context {
    Context { label: f.label, span: Span { start: span_at(ts, f.start).start, end: at_error.end } }
}

/// The error that a failed definition reports.
pub open spec fn error_from(ts: Seq<TokenV>, t: TrackV) -> SyntaxErrorV {
    if t.too_deep is Some {
        let p = t.too_deep->0;
        SyntaxErrorV {
            kind: SyntaxErrorKind::TooDeep,
            span: span_at(ts, p),
            found: found_at(ts, p),
            expected: seq![],
            context: seq![],
        }
    } else {
        let sp = span_at(ts, t.pos);
        SyntaxErrorV {
            kind: SyntaxErrorKind::Unexpected,
            span: sp,
            found: found_at(ts, t.pos),
            expected: t.expected,
            context: t.context.map_values(|f: Frame| context_of(ts, f, sp)),
        }
    }
}

/// Where parsing picks up after a definition that started at `i` failed at `from`: just
/// past the first `;` at or after `from` that no `let` opened since `i` still holds
/// open, or the end.
pub open spec fn resume_at(ts: Seq<TokenV>, i: usize, from: usize, open: nat) -> usize
    decreases rem(ts, i),
{
    if i >= ts.len() || i == usize::MAX {
        ts.len() as usize
    } else if ts[i as int].kind == TokenKind::Let {
        resume_at(ts, next(i), from, open + 1)
    } else if ts[i as int].kind == TokenKind::In && open > 0 {
        resume_at(ts, next(i), from, (open - 1) as nat)
    } else if ts[i as int].kind == TokenKind::Semicolon && open == 0 && i >= from {
        next(i)
    } else {
        resume_at(ts, next(i), from, open)
    }
}

/// `Program := Def*`, from index `p` on, after the definitions and errors so far. A
/// definition that fails adds its error, and parsing resumes past the `;` that ends it;
/// nesting beyond the limit ends the parse.
pub open spec fn program(ts: Seq<TokenV>, p: usize, defs: Seq<DefV>, errs: Seq<SyntaxErrorV>) -> (Seq<DefV>, Seq<SyntaxErrorV>)
    decreases rem(ts, p),
{
    if p >= ts.len() {
        (defs, errs)
    } else {
        let (r, t) = def_rule(ts, MAX_DEPTH, p, seq![], fresh());
        if t.too_deep is Some {
            (defs, errs.push(error_from(ts, t)))
        } else {
            match r {
                Some((x, q)) => if p < q <= ts.len() {
                    program(ts, q, defs.push(x), errs)
                } else {
                    (defs, errs)
                },
                None => {
                    let k = resume_at(ts, p, if t.pos > p { t.pos } else { p }, 0);
                    if p < k <= ts.len() {
                        program(ts, k, defs, errs.push(error_from(ts, t)))
                    } else {
                        (defs, errs.push(error_from(ts, t)))
                    }
                },
            }
        }
    }
}

/// What the parser makes of a token sequence: the definitions, and the syntax errors in
/// source order.
pub open spec fn parse_tokens(ts: Seq<TokenV>) -> (Seq<DefV>, Seq<SyntaxErrorV>) {
    program(ts, 0, seq![], seq![])
}

/// Lexing and then parsing is a function of the source bytes: the same bytes give the
/// same tokens and lexical errors, and then the same definitions and syntax errors, in
/// the same order.
pub proof fn lemma_deterministic(a: Seq<u8>, b: Seq<u8>)
    requires
        a == b,
    ensures
        lex(a) == lex(b),
        tokens_of(a) == tokens_of(b),
        parse_tokens(tokens_of(a)) == parse_tokens(tokens_of(b)),
{
}

/// The source from the start of token `p` to the end of token `q - 1`.
pub open spec fn covered(ts: Seq<TokenV>, p: usize, q: usize) -> Span {
    Span { start: ts[p as int].span.start, end: ts[q - 1].span.end }
}

proof fn lemma_in_order_push(v: Seq<Span>, x: Span)
    requires
        in_order(v),
        v.len() > 0 ==> before(v.last(), x),
    ensures
        in_order(v.push(x)),
{
    assert forall|i: int| 0 <= i < v.push(x).len() - 1 implies before(#[trigger] v.push(x)[i], v.push(x)[i + 1]) by {
        if i < v.len() - 1 {
            assert(v.push(x)[i] == v[i] && v.push(x)[i + 1] == v[i + 1]);
        }
    }
}

proof fn lemma_in_order_mono(v: Seq<Span>, i: int, j: int)
    requires
        in_order(v),
        forall|k: int| 0 <= k < v.len() ==> (#[trigger] v[k]).start <= v[k].end,
        0 <= i <= j < v.len(),
    ensures
        v[i].start <= v[j].start,
        v[i].end <= v[j].end,
        i < j ==> v[i].end <= v[j].start,
    decreases j - i,
{
    if i < j {
        lemma_in_order_mono(v, i, j - 1);
        assert(before(v[j - 1], v[j]));
    }
}

proof fn lemma_in_order3(a: Span, b: Span, c: Span)
    requires
        before(a, b),
        before(b, c),
    ensures
        in_order(seq![a, b, c]),
{
    lemma_in_order_push(seq![a], b);
    assert(seq![a].push(b) =~= seq![a, b]);
    lemma_in_order_push(seq![a, b], c);
    assert(seq![a, b].push(c) =~= seq![a, b, c]);
}

proof fn lemma_func_nested(
    tsv: Seq<TokenV>,
    p: usize,
    q2: usize,
    q3: usize,
    e: usize,
    n: NameV,
    arg: TypeRefV,
    ret: Option<TypeRefV>,
    body: ExprV,
    sp: Span,
)
    requires
        ordered_tokens(tsv),
        p + 1 < q2 < q3 < e <= tsv.len(),
        n.span == tsv[p as int].span,
        inside(type_span(arg), covered(tsv, next(p), q2)),
        type_nested(arg),
        ret matches Some(t) ==> q2 + 1 < q3 && inside(type_span(t), covered(tsv, next(q2), q3)) && type_nested(t),
        ret is None ==> q3 == q2 + 1,
        inside(expr_span(body), covered(tsv, q3, e)),
        expr_nested(body),
        sp == span_from(n.span, expr_span(body)),
    ensures
        expr_nested(ExprV::Func(sp, n, arg, ret, Box::new(body))),
        inside(sp, covered(tsv, p, e)),
{
    assert(tsv[p as int].span.end <= tsv[p + 1].span.start);
    assert(tsv[q2 - 1].span.end <= tsv[q2 as int].span.start);
    if q3 > q2 + 1 {
        assert(tsv[q2 as int].span.end <= tsv[q2 + 1].span.start);
        assert(tsv[q3 - 1].span.end <= tsv[q3 as int].span.start);
    } else {
        assert(tsv[q2 as int].span.end <= tsv[q3 as int].span.start);
    }
    let s0 = seq![n.span, type_span(arg)];
    lemma_in_order_push(seq![n.span], type_span(arg));
    assert(seq![n.span].push(type_span(arg)) =~= s0);
    let s1 = s0 + opt_type_spans(ret);
    if ret is Some {
        lemma_in_order_push(s0, type_span(ret->0));
        assert(s0.push(type_span(ret->0)) =~= s1);
    } else {
        assert(s1 =~= s0);
    }
    lemma_in_order_push(s1, expr_span(body));
    let parts = s1.push(expr_span(body));
    assert(parts =~= seq![n.span, type_span(arg)] + opt_type_spans(ret) + seq![expr_span(body)]);
    assert forall|k: int| 0 <= k < parts.len() implies (#[trigger] parts[k]).start <= parts[k].end by {
    }
    assert forall|k: int| 0 <= k < parts.len() implies inside(#[trigger] parts[k], sp) by {
        lemma_in_order_mono(parts, 0, k);
        lemma_in_order_mono(parts, k, parts.len() - 1);
    }
}

proof fn lemma_in_order_concat(a: Seq<Span>, b: Seq<Span>)
    requires
        in_order(a),
        in_order(b),
        a.len() > 0 && b.len() > 0 ==> before(a.last(), b[0]),
    ensures
        in_order(a + b),
{
    assert forall|i: int| 0 <= i < (a + b).len() - 1 implies before(#[trigger] (a + b)[i], (a + b)[i + 1]) by {
        if i < a.len() - 1 {
            assert((a + b)[i] == a[i] && (a + b)[i + 1] == a[i + 1]);
        } else if i == a.len() - 1 {
            assert((a + b)[i] == a.last() && (a + b)[i + 1] == b[0]);
        } else {
            assert((a + b)[i] == b[i - a.len()] && (a + b)[i + 1] == b[i - a.len() + 1]);
        }
    }
}

pub open spec fn well_formed(v: Seq<Span>) -> bool {
    forall|k: int| 0 <= k < v.len() ==> (#[trigger] v[k]).start <= v[k].end
}

proof fn lemma_all_inside(v: Seq<Span>, outer: Span)
    requires
        in_order(v),
        well_formed(v),
        v.len() > 0,
        outer.start <= v[0].start,
        v.last().end <= outer.end,
    ensures
        forall|k: int| 0 <= k < v.len() ==> inside(#[trigger] v[k], outer),
{
    assert forall|k: int| 0 <= k < v.len() implies inside(#[trigger] v[k], outer) by {
        lemma_in_order_mono(v, 0, k);
        lemma_in_order_mono(v, k, v.len() - 1);
    }
}

proof fn lemma_push_well_formed(v: Seq<Span>, x: Span)
    requires
        well_formed(v),
        x.start <= x.end,
    ensures
        well_formed(v.push(x)),
{
    assert forall|k: int| 0 <= k < v.push(x).len() implies (#[trigger] v.push(x)[k]).start <= v.push(x)[k].end by {
        if k < v.len() {
            assert(v.push(x)[k] == v[k]);
        }
    }
}

proof fn lemma_fields_push(head: Span, fs: Seq<(NameV, TypeRefV)>, f: (NameV, TypeRefV))
    requires
        in_order(seq![head] + field_spans(fs)),
        well_formed(seq![head] + field_spans(fs)),
        before((seq![head] + field_spans(fs)).last(), f.0.span),
        before(f.0.span, type_span(f.1)),
        f.0.span.start <= f.0.span.end,
        type_span(f.1).start <= type_span(f.1).end,
    ensures
        in_order(seq![head] + field_spans(fs.push(f))),
        well_formed(seq![head] + field_spans(fs.push(f))),
        (seq![head] + field_spans(fs.push(f))).last() == type_span(f.1),
{
    assert(fs.push(f).drop_last() =~= fs);
    let a = seq![head] + field_spans(fs);
    assert(seq![head] + field_spans(fs.push(f)) =~= a.push(f.0.span).push(type_span(f.1)));
    lemma_in_order_push(a, f.0.span);
    lemma_in_order_push(a.push(f.0.span), type_span(f.1));
    lemma_push_well_formed(a, f.0.span);
    lemma_push_well_formed(a.push(f.0.span), type_span(f.1));
}

proof fn lemma_args_push(head: Span, args: Seq<(NameV, Seq<TypeRefV>)>, a: (NameV, Seq<TypeRefV>))
    requires
        in_order(seq![head] + args_spans(args)),
        well_formed(seq![head] + args_spans(args)),
        in_order(arg_spans(a)),
        well_formed(arg_spans(a)),
        before((seq![head] + args_spans(args)).last(), a.0.span),
    ensures
        in_order(seq![head] + args_spans(args.push(a))),
        well_formed(seq![head] + args_spans(args.push(a))),
        (seq![head] + args_spans(args.push(a))).last() == arg_spans(a).last(),
{
    assert(args.push(a).drop_last() =~= args);
    let s = seq![head] + args_spans(args);
    let t = arg_spans(a);
    assert(seq![head] + args_spans(args.push(a)) =~= s + t);
    assert(t[0] == a.0.span);
    lemma_in_order_concat(s, t);
    assert forall|k: int| 0 <= k < (s + t).len() implies (#[trigger] (s + t)[k]).start <= (s + t)[k].end by {
        if k < s.len() {
            assert((s + t)[k] == s[k]);
        } else {
            assert((s + t)[k] == t[k - s.len()]);
        }
    }
}

pub open spec fn def_spans(v: Seq<ValueDefV>) -> Seq<Span> {
    v.map_values(|d: ValueDefV| d.span)
}

pub open spec fn type_spans(v: Seq<TypeRefV>) -> Seq<Span> {
    v.map_values(|t: TypeRefV| type_span(t))
}

/// A right fold of arrows over types that each nest, in order and within `outer`,
/// nests, lies within `outer`, and spans from the first type to the last.
proof fn lemma_fold_nested(items: Seq<TypeRefV>, last: TypeRefV, outer: Span)
    requires
        forall|k: int| 0 <= k < items.len() ==> type_nested(#[trigger] items[k]) && inside(type_span(items[k]), outer),
        type_nested(last),
        inside(type_span(last), outer),
        in_order(type_spans(items.push(last))),
    ensures
        type_nested(fold_arrows(items, last)),
        inside(type_span(fold_arrows(items, last)), outer),
        type_span(fold_arrows(items, last)).end == type_span(last).end,
        type_span(fold_arrows(items, last)).start == (if items.len() == 0 { type_span(last) } else { type_span(items[0]) }).start,
    decreases items.len(),
{
    if items.len() > 0 {
        let a = items.last();
        let f = TypeRefV::Function(span_from(type_span(a), type_span(last)), Box::new(a), Box::new(last));
        let n = items.len() - 1;
        assert(type_spans(items.push(last))[n] == type_span(a));
        assert(type_spans(items.push(last))[n + 1] == type_span(last));
        assert(type_nested(f));
        let rest = items.drop_last();
        assert(type_spans(rest.push(f)) =~= type_spans(items.push(last)).take(n).push(type_span(f)));
        assert forall|i: int| 0 <= i < type_spans(rest.push(f)).len() - 1 implies before(#[trigger] type_spans(rest.push(f))[i], type_spans(rest.push(f))[i + 1]) by {
            assert(type_spans(items.push(last))[i] == type_spans(rest.push(f))[i]);
            if i + 1 < n {
                assert(type_spans(items.push(last))[i + 1] == type_spans(rest.push(f))[i + 1]);
            }
        }
        lemma_fold_nested(rest, f, outer);
        if n > 0 {
            assert(rest[0] == items[0]);
        }
    }
}

proof fn lemma_program_errors(ts: Seq<TokenV>, p: usize, defs: Seq<DefV>, errs: Seq<SyntaxErrorV>)
    requires
        p <= ts.len() <= usize::MAX,
    ensures
        program(ts, p, defs, errs).1 == errs + program(ts, p, seq![], seq![]).1,
    decreases rem(ts, p),
{
    if p >= ts.len() {
        assert(errs + Seq::<SyntaxErrorV>::empty() =~= errs);
    } else {
        let (r, t) = def_rule(ts, MAX_DEPTH, p, seq![], fresh());
        if t.too_deep is Some {
            assert(errs.push(error_from(ts, t)) =~= errs + seq![error_from(ts, t)]);
            assert(Seq::<SyntaxErrorV>::empty().push(error_from(ts, t)) =~= seq![error_from(ts, t)]);
        } else {
            match r {
                Some((x, q)) => {
                    if p < q <= ts.len() {
                        lemma_program_errors(ts, q, defs.push(x), errs);
                        lemma_program_errors(ts, q, seq![x], seq![]);
                        assert(Seq::<DefV>::empty().push(x) =~= seq![x]);
                        assert(Seq::<SyntaxErrorV>::empty() + program(ts, q, seq![], seq![]).1 =~= program(ts, q, seq![], seq![]).1);
                    } else {
                        assert(errs + Seq::<SyntaxErrorV>::empty() =~= errs);
                    }
                },
                None => {
                    let e = error_from(ts, t);
                    let k = resume_at(ts, p, if t.pos > p { t.pos } else { p }, 0);
                    lemma_resume_at(ts, p, if t.pos > p { t.pos } else { p }, 0);
                    lemma_program_errors(ts, k, defs, errs.push(e));
                    lemma_program_errors(ts, k, seq![], seq![e]);
                    assert(Seq::<SyntaxErrorV>::empty().push(e) =~= seq![e]);
                    assert(errs.push(e) + program(ts, k, seq![], seq![]).1 =~= errs + (seq![e] + program(ts, k, seq![], seq![]).1));
                },
            }
        }
    }
}

/// A definition that fails to parse adds exactly one error, and the errors after it are
/// exactly those that parsing from the end of that definition on gives: a malformed
/// definition neither hides the errors of the definitions after it nor adds to them.
pub proof fn lemma_error_then_rest(ts: Seq<TokenV>, p: usize)
    requires
        ts.len() <= usize::MAX,
        p < ts.len(),
        def_rule(ts, MAX_DEPTH, p, seq![], fresh()).0 is None,
        def_rule(ts, MAX_DEPTH, p, seq![], fresh()).1.too_deep is None,
    ensures
        ({
            let t = def_rule(ts, MAX_DEPTH, p, seq![], fresh()).1;
            let k = resume_at(ts, p, if t.pos > p { t.pos } else { p }, 0);
            &&& p < k <= ts.len()
            &&& program(ts, p, seq![], seq![]).1 == seq![error_from(ts, t)] + program(ts, k, seq![], seq![]).1
        }),
{
    let t = def_rule(ts, MAX_DEPTH, p, seq![], fresh()).1;
    let from = if t.pos > p { t.pos } else { p };
    let k = resume_at(ts, p, from, 0);
    lemma_resume_at(ts, p, from, 0);
    assert(Seq::<SyntaxErrorV>::empty().push(error_from(ts, t)) =~= seq![error_from(ts, t)]);
    lemma_program_errors(ts, k, seq![], seq![error_from(ts, t)]);
}

/// The deepest nesting of grammar rules the parser follows before it gives up.
pub const MAX_DEPTH: usize = 256;

pub open spec fn pv<T: View>(r: Option<(T, usize)>) -> Option<(T::V, usize)> {
    match r {
        Some((x, q)) => Some((x@, q)),
        None => None,
    }
}

impl Tracker {
    fn new() -> (r: Tracker)
        ensures
            r@ == fresh(),
    {
        Tracker { pos: 0, expected: Vec::new(), context: Vec::new(), too_deep: None }
    }

    fn note(&mut self, p: usize, k: TokenKind, ctx: &Vec<Frame>)
        ensures
            final(self)@ == noted(old(self)@, p, k, ctx@),
    {
        if self.expected.len() == 0 || p > self.pos {
            let mut e: Vec<TokenKind> = Vec::new();
            e.push(k);
            self.pos = p;
            self.expected = e;
            self.context = copy_of(ctx);
            assert(self.expected@ =~= seq![k]);
        } else if p == self.pos {
            let mut i: usize = 0;
            let mut found = false;
            while i < self.expected.len()
                invariant
                    i <= self.expected@.len(),
                    found <==> exists|j: int| 0 <= j < i && self.expected@[j] == k,
                decreases self.expected@.len() - i,
            {
                if self.expected[i] == k {
                    found = true;
                }
                i = i + 1;
            }
            if !found {
                self.expected.push(k);
            } else {
                assert(self.expected@.contains(k));
            }
        }
    }

    fn deepen(&mut self, p: usize)
        ensures
            final(self)@ == deepened(old(self)@, p),
    {
        if self.too_deep.is_none() {
            self.too_deep = Some(p);
        }
    }
}

fn copy_of<T: Copy>(v: &Vec<T>) -> (r: Vec<T>)
    ensures
        r@ == v@,
{
    let mut r: Vec<T> = Vec::new();
    let mut i: usize = 0;
    while i < v.len()
        invariant
            i <= v@.len(),
            r@ == v@.subrange(0, i as int),
        decreases v@.len() - i,
    {
        r.push(v[i]);
        i = i + 1;
        assert(r@ =~= v@.subrange(0, i as int));
    }
    assert(r@ =~= v@);
    r
}

fn with_frame(ctx: &Vec<Frame>, label: Label, start: usize) -> (r: Vec<Frame>)
    ensures
        r@ == ctx@.push(Frame { label, start }),
{
    let mut r = copy_of(ctx);
    r.push(Frame { label, start });
    r
}

fn is_at(ts: &Vec<Token>, p: usize, k: TokenKind) -> (r: bool)
    ensures
        r == at(token_views(ts@), p, k),
        r ==> p + 1 <= ts@.len(),
        ts@.len() <= usize::MAX,
{
    p < ts.len() && ts[p].kind == k
}

fn name_at(ts: &Vec<Token>, p: usize) -> (r: Name)
    requires
        p < ts@.len(),
    ensures
        r@ == name_node(token_views(ts@), p),
{
    Name { span: ts[p].span, text: copy_of(&ts[p].text) }
}

#[verifier::spinoff_prover]
#[verifier::rlimit(50)]
fn type_ref(ts: &Vec<Token>, d: usize, p: usize, ctx: &Vec<Frame>, tr: &mut Tracker) -> (r: Option<(TypeRef, usize)>)
    requires
        p <= ts@.len(),
    ensures
        (pv(r), final(tr)@) == type_ref_rule(token_views(ts@), d, p, ctx@, old(tr)@),
        r is Some ==> p < (r->0).1 <= ts@.len(),
        r is Some && ordered_tokens(token_views(ts@)) ==> inside(type_span((r->0).0@), covered(token_views(ts@), p, (r->0).1)) && type_nested((r->0).0@),
    decreases d, ts@.len() + 1,
{
    if d == 0 {
        tr.deepen(p);
        return None;
    }
    let c = with_frame(ctx, Label::TypeReference, p);
    if !is_at(ts, p, TokenKind::Colon) {
        tr.note(p, TokenKind::Colon, ctx);
        return None;
    }
    let q = p + 1;
    if is_at(ts, q, TokenKind::Name) {
        let n = name_at(ts, q);
        let t = TypeRef::Named(n.span, n, Vec::new());
        proof {
            let tv = t@;
            assert(tv matches TypeRefV::Named(_, _, a) && a =~= Seq::<TypeRefV>::empty());
            let tsv = token_views(ts@);
            if ordered_tokens(tsv) {
                assert(tsv[p as int].span.end <= tsv[q as int].span.start);
                assert(in_order(seq![n.span] + Seq::<TypeRefV>::empty().map_values(|a: TypeRefV| type_span(a))));
            }
        }
        return Some((t, q + 1));
    }
    tr.note(q, TokenKind::Name, &c);
    if !is_at(ts, q, TokenKind::OpenParen) {
        tr.note(q, TokenKind::OpenParen, &c);
        return None;
    }
    match inner_type(ts, d - 1, q + 1, &c, tr) {
        None => None,
        Some((ty, e)) => {
            if is_at(ts, e, TokenKind::CloseParen) {
                Some((ty, e + 1))
            } else {
                tr.note(e, TokenKind::CloseParen, &c);
                None
            }
        },
    }
}

#[verifier::spinoff_prover]
#[verifier::rlimit(50)]
fn inner_type(ts: &Vec<Token>, d: usize, p: usize, ctx: &Vec<Frame>, tr: &mut Tracker) -> (r: Option<(TypeRef, usize)>)
    requires
        p <= ts@.len(),
    ensures
        (pv(r), final(tr)@) == inner_type_rule(token_views(ts@), d, p, ctx@, old(tr)@),
        r is Some ==> p < (r->0).1 <= ts@.len(),
        r is Some && ordered_tokens(token_views(ts@)) ==> inside(type_span((r->0).0@), covered(token_views(ts@), p, (r->0).1)) && type_nested((r->0).0@),
    decreases d, ts@.len() + 1,
{
    if d == 0 {
        tr.deepen(p);
        return None;
    }
    let (first, q) = match non_fn_type(ts, d - 1, p, ctx, tr) {
        None => return None,
        Some(x) => x,
    };
    let ghost t1 = tr@;
    let ghost target = arrows_rule(token_views(ts@), d, q, ctx@, t1, seq![first@]);
    let mut items: Vec<TypeRef> = Vec::new();
    items.push(first);
    assert(types_view(items@) =~= seq![first@]);
    let mut e = q;
    let ghost tsv = token_views(ts@);
    loop
        invariant_except_break
            arrows_rule(token_views(ts@), d, e, ctx@, tr@, types_view(items@)) == target,
        invariant
            tsv == token_views(ts@),
            p < e <= ts@.len(),
            items@.len() >= 1,
            d > 0,
            ordered_tokens(tsv) ==> in_order(type_spans(types_view(items@))),
            ordered_tokens(tsv) ==> forall|k: int| 0 <= k < items@.len() ==> type_nested(#[trigger] types_view(items@)[k]) && inside(type_span(types_view(items@)[k]), covered(tsv, p, e)),
        ensures
            target == (types_view(items@), e, tr@),
        decreases ts@.len() - e,
    {
        if !is_at(ts, e, TokenKind::Arrow) {
            tr.note(e, TokenKind::Arrow, ctx);
            break;
        }
        match non_fn_type(ts, d - 1, e + 1, ctx, tr) {
            Some((ty, q2)) => {
                let ghost before = items@;
                items.push(ty);
                assert(types_view(items@) =~= types_view(before).push(ty@));
                proof {
                    if ordered_tokens(tsv) {
                        let bv = types_view(before);
                        assert(type_spans(types_view(items@)) =~= type_spans(bv).push(type_span(ty@)));
                        assert(tsv[e - 1].span.end <= tsv[e as int].span.start);
                        assert(tsv[e as int].span.end <= tsv[e + 1].span.start);
                        assert(type_spans(bv).last() == type_span(bv[bv.len() - 1]));
                        lemma_in_order_push(type_spans(bv), type_span(ty@));
                        assert forall|k: int| 0 <= k < items@.len() implies type_nested(#[trigger] types_view(items@)[k]) && inside(type_span(types_view(items@)[k]), covered(tsv, p, q2)) by {
                            if k < bv.len() {
                                assert(types_view(items@)[k] == bv[k]);
                                assert(tsv[e - 1].span.end <= tsv[q2 - 1].span.end);
                            }
                        }
                        assert(types_view(items@)[0] == bv[0]);
                    }
                }
                e = q2;
            },
            None => break,
        }
    }
    let ghost all = types_view(items@);
    let mut last = items.pop().unwrap();
    assert(types_view(items@) =~= all.drop_last());
    while items.len() > 0
        invariant
            all.len() >= 1,
            fold_arrows(all.drop_last(), all.last()) == fold_arrows(types_view(items@), last@),
        decreases items@.len(),
    {
        let ghost before = items@;
        let a = items.pop().unwrap();
        assert(types_view(items@) =~= types_view(before).drop_last());
        let sp = a.span().through(&last.span());
        last = TypeRef::Function(sp, Box::new(a), Box::new(last));
    }
    proof {
        if ordered_tokens(tsv) {
            assert(all.drop_last().push(all.last()) =~= all);
            lemma_fold_nested(all.drop_last(), all.last(), covered(tsv, p, e));
            if all.len() > 1 {
                assert(all.drop_last()[0] == all[0]);
            }
        }
    }
    Some((last, e))
}

#[verifier::spinoff_prover]
#[verifier::rlimit(50)]
fn non_fn_type(ts: &Vec<Token>, d: usize, p: usize, ctx: &Vec<Frame>, tr: &mut Tracker) -> (r: Option<(TypeRef, usize)>)
    requires
        p <= ts@.len(),
    ensures
        (pv(r), final(tr)@) == non_fn_type_rule(token_views(ts@), d, p, ctx@, old(tr)@),
        r is Some ==> p < (r->0).1 <= ts@.len(),
        r is Some && ordered_tokens(token_views(ts@)) ==> inside(type_span((r->0).0@), covered(token_views(ts@), p, (r->0).1)) && type_nested((r->0).0@),
    decreases d, ts@.len() + 1,
{
    if d == 0 {
        tr.deepen(p);
        return None;
    }
    if is_at(ts, p, TokenKind::Name) {
        let n = name_at(ts, p);
        let ghost t0 = tr@;
        let ghost target = type_args_rule(token_views(ts@), d, next(p), ctx@, t0, seq![]);
        let mut args: Vec<TypeRef> = Vec::new();
        assert(types_view(args@) =~= seq![]);
        let mut e = p + 1;
        let ghost tsv = token_views(ts@);
        assert(n.span == tsv[p as int].span);
        loop
            invariant_except_break
                type_args_rule(token_views(ts@), d, e, ctx@, tr@, types_view(args@)) == target,
            invariant
                tsv == token_views(ts@),
                n.span == tsv[p as int].span,
                p < e <= ts@.len(),
                d > 0,
                ordered_tokens(tsv) ==> in_order(seq![n.span] + type_spans(types_view(args@))),
                ordered_tokens(tsv) ==> forall|k: int| 0 <= k < args@.len() ==> type_nested(#[trigger] types_view(args@)[k]) && inside(type_span(types_view(args@)[k]), covered(tsv, p, e)),
            ensures
                target == (types_view(args@), e, tr@),
            decreases ts@.len() - e,
        {
            match non_fn_type(ts, d - 1, e, ctx, tr) {
                Some((ty, q2)) => {
                    let ghost before = args@;
                    args.push(ty);
                    assert(types_view(args@) =~= types_view(before).push(ty@));
                    proof {
                        if ordered_tokens(tsv) {
                            let bv = types_view(before);
                            let sv = seq![n.span] + type_spans(bv);
                            assert(seq![n.span] + type_spans(types_view(args@)) =~= sv.push(type_span(ty@)));
                            assert(tsv[e - 1].span.end <= tsv[e as int].span.start);
                            if bv.len() > 0 {
                                assert(sv.last() == type_span(bv[bv.len() - 1]));
                            } else {
                                assert(sv.last() == n.span);
                            }
                            lemma_in_order_push(sv, type_span(ty@));
                            assert forall|k: int| 0 <= k < args@.len() implies type_nested(#[trigger] types_view(args@)[k]) && inside(type_span(types_view(args@)[k]), covered(tsv, p, q2)) by {
                                if k < bv.len() {
                                    assert(types_view(args@)[k] == bv[k]);
                                    assert(tsv[e - 1].span.end <= tsv[q2 - 1].span.end);
                                }
                            }
                        }
                    }
                    e = q2;
                },
                None => break,
            }
        }
        let end = if args.len() == 0 { n.span } else { args[args.len() - 1].span() };
        let sp = n.span.through(&end);
        let ghost av = types_view(args@);
        let t = TypeRef::Named(sp, n, args);
        proof {
            let tv = t@;
            assert(tv matches TypeRefV::Named(_, _, a) && a =~= av);
            if ordered_tokens(tsv) {
                let sv = seq![n.span] + type_spans(av);
                assert(sv =~= seq![n@.span] + av.map_values(|a: TypeRefV| type_span(a)));
                if av.len() > 0 {
                    assert(sv.last() == type_span(av[av.len() - 1]));
                    assert(inside(type_span(av[av.len() - 1]), covered(tsv, p, e)));
                }
                assert forall|k: int| 0 <= k < sv.len() implies (#[trigger] sv[k]).start <= sv[k].end by {
                    if k > 0 {
                        assert(sv[k] == type_span(av[k - 1]));
                    }
                }
                assert forall|k: int| 0 <= k < av.len() implies inside(type_span(#[trigger] av[k]), sp) by {
                    assert(sv[k + 1] == type_span(av[k]));
                    lemma_in_order_mono(sv, 0, k + 1);
                    lemma_in_order_mono(sv, k + 1, sv.len() - 1);
                }
                lemma_in_order_mono(sv, 0, sv.len() - 1);
                assert(sp.end == sv[sv.len() - 1].end);
                assert(inside(n.span, sp));
                if e - 1 > p {
                    assert(tsv[p as int].span.end <= tsv[e - 1].span.start);
                }
                assert(sp.end <= tsv[e - 1].span.end);
                assert(inside(sp, covered(tsv, p, e)));
                assert forall|k: int| 0 <= k < av.len() implies type_nested(#[trigger] av[k]) by {
                    assert(types_view(args@)[k] == av[k]);
                }
                assert(type_nested(tv));
            }
        }
        return Some((t, e));
    }
    tr.note(p, TokenKind::Name, ctx);
    if !is_at(ts, p, TokenKind::OpenParen) {
        tr.note(p, TokenKind::OpenParen, ctx);
        return None;
    }
    match inner_type(ts, d - 1, p + 1, ctx, tr) {
        None => None,
        Some((ty, e)) => {
            if is_at(ts, e, TokenKind::CloseParen) {
                Some((ty, e + 1))
            } else {
                tr.note(e, TokenKind::CloseParen, ctx);
                None
            }
        },
    }
}


pub open spec fn arg_view(r: Option<((Name, Vec<TypeRef>), usize)>) -> Option<((NameV, Seq<TypeRefV>), usize)> {
    match r {
        Some((a, q)) => Some(((a.0@, types_view(a.1@)), q)),
        None => None,
    }
}

pub open spec fn args_view(v: Seq<(Name, Vec<TypeRef>)>) -> Seq<(NameV, Seq<TypeRefV>)> {
    v.map_values(|a: (Name, Vec<TypeRef>)| (a.0@, types_view(a.1@)))
}

pub open spec fn field_view(r: Option<((Name, TypeRef), usize)>) -> Option<((NameV, TypeRefV), usize)> {
    match r {
        Some((f, q)) => Some(((f.0@, f.1@), q)),
        None => None,
    }
}

pub open spec fn fields_view(v: Seq<(Name, TypeRef)>) -> Seq<(NameV, TypeRefV)> {
    v.map_values(|f: (Name, TypeRef)| (f.0@, f.1@))
}

#[verifier::spinoff_prover]
#[verifier::rlimit(50)]
fn generic_arg(ts: &Vec<Token>, d: usize, p: usize, ctx: &Vec<Frame>, tr: &mut Tracker) -> (r: Option<((Name, Vec<TypeRef>), usize)>)
    requires
        p <= ts@.len(),
    ensures
        (arg_view(r), final(tr)@) == generic_arg_rule(token_views(ts@), d, p, ctx@, old(tr)@),
        r is Some ==> p < (r->0).1 <= ts@.len(),
        r is Some && ordered_tokens(token_views(ts@)) ==> ({
            let (a, q) = r->0;
            let av = (a.0@, types_view(a.1@));
            &&& a.0@.span == token_views(ts@)[p as int].span
            &&& in_order(arg_spans(av))
            &&& well_formed(arg_spans(av))
            &&& arg_spans(av).last().end <= token_views(ts@)[q - 1].span.end
            &&& forall|j: int| 0 <= j < av.1.len() ==> type_nested(#[trigger] av.1[j])
        }),
    decreases d, ts@.len() + 1,
{
    if d == 0 {
        tr.deepen(p);
        return None;
    }
    let c = with_frame(ctx, Label::GenericTypeArgument, p);
    if !is_at(ts, p, TokenKind::Name) {
        tr.note(p, TokenKind::Name, ctx);
        return None;
    }
    let n = name_at(ts, p);
    let q = p + 1;
    let (first, e0) = match type_ref(ts, d - 1, q, &c, tr) {
        None => {
            let v: Vec<TypeRef> = Vec::new();
            assert(types_view(v@) =~= seq![]);
            proof {
                let sv = arg_spans((n@, types_view(v@)));
                assert(sv =~= seq![n@.span]);
            }
            return Some(((n, v), q));
        },
        Some(x) => x,
    };
    let ghost t2 = tr@;
    let ghost target = alternatives_rule(token_views(ts@), d, e0, c@, t2, seq![first@]);
    let mut tys: Vec<TypeRef> = Vec::new();
    tys.push(first);
    assert(types_view(tys@) =~= seq![first@]);
    let ghost tsv = token_views(ts@);
    let ghost head = n@.span;
    proof {
        if ordered_tokens(tsv) {
            assert(tsv[p as int].span.end <= tsv[q as int].span.start);
            assert(seq![head] + type_spans(types_view(tys@)) =~= seq![head].push(type_span(first@)));
            lemma_in_order_push(seq![head], type_span(first@));
            lemma_push_well_formed(seq![head], type_span(first@));
        }
    }
    let mut e = e0;
    loop
        invariant_except_break
            alternatives_rule(token_views(ts@), d, e, c@, tr@, types_view(tys@)) == target,
        invariant
            tsv == token_views(ts@),
            head == tsv[p as int].span,
            p < e <= ts@.len(),
            d > 0,
            ordered_tokens(tsv) ==> in_order(seq![head] + type_spans(types_view(tys@))),
            ordered_tokens(tsv) ==> well_formed(seq![head] + type_spans(types_view(tys@))),
            ordered_tokens(tsv) ==> (seq![head] + type_spans(types_view(tys@))).last().end <= tsv[e - 1].span.end,
            ordered_tokens(tsv) ==> forall|k: int| 0 <= k < tys@.len() ==> type_nested(#[trigger] types_view(tys@)[k]),
        ensures
            target == (types_view(tys@), e, tr@),
        decreases ts@.len() - e,
    {
        if !is_at(ts, e, TokenKind::Ampersand) {
            tr.note(e, TokenKind::Ampersand, &c);
            break;
        }
        match type_ref(ts, d - 1, e + 1, &c, tr) {
            Some((ty, q2)) => {
                let ghost before = tys@;
                tys.push(ty);
                assert(types_view(tys@) =~= types_view(before).push(ty@));
                proof {
                    if ordered_tokens(tsv) {
                        let a = seq![head] + type_spans(types_view(before));
                        assert(seq![head] + type_spans(types_view(tys@)) =~= a.push(type_span(ty@)));
                        assert(tsv[e - 1].span.end <= tsv[e as int].span.start);
                        assert(tsv[e as int].span.end <= tsv[e + 1].span.start);
                        lemma_in_order_push(a, type_span(ty@));
                        lemma_push_well_formed(a, type_span(ty@));
                        assert forall|k: int| 0 <= k < tys@.len() implies type_nested(#[trigger] types_view(tys@)[k]) by {
                            if k < before.len() {
                                assert(types_view(tys@)[k] == types_view(before)[k]);
                            }
                        }
                    }
                }
                e = q2;
            },
            None => break,
        }
    }
    proof {
        if ordered_tokens(tsv) {
            assert(arg_spans((n@, types_view(tys@))) =~= seq![head] + type_spans(types_view(tys@)));
        }
    }
    Some(((n, tys), e))
}

#[verifier::spinoff_prover]
#[verifier::rlimit(50)]
fn generic_def(ts: &Vec<Token>, d: usize, p: usize, ctx: &Vec<Frame>, tr: &mut Tracker) -> (r: Option<(GenericDef, usize)>)
    requires
        p <= ts@.len(),
    ensures
        (pv(r), final(tr)@) == generic_def_rule(token_views(ts@), d, p, ctx@, old(tr)@),
        r is Some ==> p < (r->0).1 <= ts@.len(),
        r is Some && ordered_tokens(token_views(ts@)) ==> def_nested(DefV::Generic((r->0).0@)),
    decreases d, ts@.len() + 1,
{
    if d == 0 {
        tr.deepen(p);
        return None;
    }
    let c = with_frame(ctx, Label::GenericDefinition, p);
    if !is_at(ts, p, TokenKind::Name) {
        tr.note(p, TokenKind::Name, ctx);
        return None;
    }
    let n = name_at(ts, p);
    let q = p + 1;
    if !is_at(ts, q, TokenKind::DollarSign) {
        tr.note(q, TokenKind::DollarSign, &c);
        return None;
    }
    let (first, e0) = match generic_arg(ts, d - 1, q + 1, &c, tr) {
        None => return None,
        Some(x) => x,
    };
    let ghost t2 = tr@;
    let ghost fv = (first.0@, types_view(first.1@));
    let ghost target = generic_args_rule(token_views(ts@), d, e0, c@, t2, seq![fv]);
    let mut args: Vec<(Name, Vec<TypeRef>)> = Vec::new();
    args.push(first);
    assert(args_view(args@) =~= seq![fv]);
    let ghost tsv = token_views(ts@);
    let ghost head = n@.span;
    proof {
        if ordered_tokens(tsv) {
            assert(tsv[p as int].span.end <= tsv[q as int].span.start);
            assert(tsv[q as int].span.end <= tsv[q + 1].span.start);
            assert(seq![head] + args_spans(Seq::<(NameV, Seq<TypeRefV>)>::empty()) =~= seq![head]);
            assert(Seq::<(NameV, Seq<TypeRefV>)>::empty().push(fv) =~= seq![fv]);
            lemma_args_push(head, Seq::<(NameV, Seq<TypeRefV>)>::empty(), fv);
        }
    }
    let mut e = e0;
    loop
        invariant_except_break
            generic_args_rule(token_views(ts@), d, e, c@, tr@, args_view(args@)) == target,
        invariant
            tsv == token_views(ts@),
            head == tsv[p as int].span,
            p < e <= ts@.len(),
            d > 0,
            ordered_tokens(tsv) ==> in_order(seq![head] + args_spans(args_view(args@))),
            ordered_tokens(tsv) ==> well_formed(seq![head] + args_spans(args_view(args@))),
            ordered_tokens(tsv) ==> (seq![head] + args_spans(args_view(args@))).last().end <= tsv[e - 1].span.end,
            ordered_tokens(tsv) ==> forall|i: int, j: int|
                0 <= i < args@.len() && 0 <= j < args_view(args@)[i].1.len() ==> type_nested(#[trigger] args_view(args@)[i].1[j]),
        ensures
            target == (args_view(args@), e, tr@),
        decreases ts@.len() - e,
    {
        if !is_at(ts, e, TokenKind::Comma) {
            tr.note(e, TokenKind::Comma, &c);
            break;
        }
        match generic_arg(ts, d - 1, e + 1, &c, tr) {
            Some((a, q2)) => {
                let ghost before = args@;
                let ghost av = (a.0@, types_view(a.1@));
                args.push(a);
                assert(args_view(args@) =~= args_view(before).push(av));
                proof {
                    if ordered_tokens(tsv) {
                        assert(tsv[e - 1].span.end <= tsv[e as int].span.start);
                        assert(tsv[e as int].span.end <= tsv[e + 1].span.start);
                        lemma_args_push(head, args_view(before), av);
                        assert forall|i: int, j: int|
                            0 <= i < args@.len() && 0 <= j < args_view(args@)[i].1.len() implies type_nested(#[trigger] args_view(args@)[i].1[j]) by {
                            if i < before.len() {
                                assert(args_view(args@)[i] == args_view(before)[i]);
                            }
                        }
                    }
                }
                e = q2;
            },
            None => break,
        }
    }
    if !is_at(ts, e, TokenKind::Semicolon) {
        tr.note(e, TokenKind::Semicolon, &c);
        return None;
    }
    let sp = n.span.through(&ts[e].span);
    let ghost avs = args_view(args@);
    let g = GenericDef { span: sp, name: n, args };
    proof {
        assert(g@.args =~= avs);
        if ordered_tokens(tsv) {
            assert(tsv[e - 1].span.end <= tsv[e as int].span.start);
            let parts = seq![head] + args_spans(avs);
            assert(parts[0] == head);
            lemma_all_inside(parts, sp);
        }
    }
    Some((g, e + 1))
}

#[verifier::spinoff_prover]
#[verifier::rlimit(50)]
fn field(ts: &Vec<Token>, d: usize, p: usize, ctx: &Vec<Frame>, tr: &mut Tracker) -> (r: Option<((Name, TypeRef), usize)>)
    requires
        p <= ts@.len(),
    ensures
        (field_view(r), final(tr)@) == field_rule(token_views(ts@), d, p, ctx@, old(tr)@),
        r is Some ==> p < (r->0).1 <= ts@.len(),
        r is Some && ordered_tokens(token_views(ts@)) ==> ({
            let (f, q) = r->0;
            &&& f.0@.span == token_views(ts@)[p as int].span
            &&& before(f.0@.span, type_span(f.1@))
            &&& inside(type_span(f.1@), covered(token_views(ts@), p, q))
            &&& type_nested(f.1@)
        }),
    decreases d, ts@.len() + 1,
{
    if d == 0 {
        tr.deepen(p);
        return None;
    }
    let c = with_frame(ctx, Label::FieldDefinition, p);
    if !is_at(ts, p, TokenKind::Name) {
        tr.note(p, TokenKind::Name, ctx);
        return None;
    }
    let n = name_at(ts, p);
    match type_ref(ts, d - 1, p + 1, &c, tr) {
        None => None,
        Some((ty, e)) => {
            proof {
                let tsv = token_views(ts@);
                if ordered_tokens(tsv) {
                    assert(tsv[p as int].span.end <= tsv[p + 1].span.start);
                }
            }
            Some(((n, ty), e))
        },
    }
}

#[verifier::spinoff_prover]
#[verifier::rlimit(50)]
fn type_def(ts: &Vec<Token>, d: usize, p: usize, ctx: &Vec<Frame>, tr: &mut Tracker) -> (r: Option<(TypeDef, usize)>)
    requires
        p <= ts@.len(),
    ensures
        (pv(r), final(tr)@) == type_def_rule(token_views(ts@), d, p, ctx@, old(tr)@),
        r is Some ==> p < (r->0).1 <= ts@.len(),
        r is Some && ordered_tokens(token_views(ts@)) ==> def_nested(DefV::Type((r->0).0@)),
    decreases d, ts@.len() + 1,
{
    if d == 0 {
        tr.deepen(p);
        return None;
    }
    let c = with_frame(ctx, Label::TypeDefinition, p);
    if !is_at(ts, p, TokenKind::Name) {
        tr.note(p, TokenKind::Name, ctx);
        return None;
    }
    let n = name_at(ts, p);
    let q = p + 1;
    if !is_at(ts, q, TokenKind::Pipe) {
        tr.note(q, TokenKind::Pipe, &c);
        return None;
    }
    let (first, e0) = match field(ts, d - 1, q + 1, &c, tr) {
        None => return None,
        Some(x) => x,
    };
    let ghost t2 = tr@;
    let ghost fv = (first.0@, first.1@);
    let ghost target = fields_rule(token_views(ts@), d, e0, c@, t2, seq![fv]);
    let mut fields: Vec<(Name, TypeRef)> = Vec::new();
    fields.push(first);
    assert(fields_view(fields@) =~= seq![fv]);
    let ghost tsv = token_views(ts@);
    let ghost head = n@.span;
    proof {
        if ordered_tokens(tsv) {
            assert(tsv[p as int].span.end <= tsv[q as int].span.start);
            assert(tsv[q as int].span.end <= tsv[q + 1].span.start);
            assert(seq![head] + field_spans(Seq::<(NameV, TypeRefV)>::empty()) =~= seq![head]);
            assert(Seq::<(NameV, TypeRefV)>::empty().push(fv) =~= seq![fv]);
            lemma_fields_push(head, Seq::<(NameV, TypeRefV)>::empty(), fv);
        }
    }
    let mut e = e0;
    loop
        invariant_except_break
            fields_rule(token_views(ts@), d, e, c@, tr@, fields_view(fields@)) == target,
        invariant
            tsv == token_views(ts@),
            head == tsv[p as int].span,
            p < e <= ts@.len(),
            d > 0,
            ordered_tokens(tsv) ==> in_order(seq![head] + field_spans(fields_view(fields@))),
            ordered_tokens(tsv) ==> well_formed(seq![head] + field_spans(fields_view(fields@))),
            ordered_tokens(tsv) ==> (seq![head] + field_spans(fields_view(fields@))).last().end <= tsv[e - 1].span.end,
            ordered_tokens(tsv) ==> forall|k: int| 0 <= k < fields@.len() ==> type_nested((#[trigger] fields_view(fields@)[k]).1),
        ensures
            target == (fields_view(fields@), e, tr@),
        decreases ts@.len() - e,
    {
        if !is_at(ts, e, TokenKind::Comma) {
            tr.note(e, TokenKind::Comma, &c);
            break;
        }
        match field(ts, d - 1, e + 1, &c, tr) {
            Some((f, q2)) => {
                let ghost before = fields@;
                let ghost fv2 = (f.0@, f.1@);
                fields.push(f);
                assert(fields_view(fields@) =~= fields_view(before).push(fv2));
                proof {
                    if ordered_tokens(tsv) {
                        assert(tsv[e - 1].span.end <= tsv[e as int].span.start);
                        assert(tsv[e as int].span.end <= tsv[e + 1].span.start);
                        lemma_fields_push(head, fields_view(before), fv2);
                        assert forall|k: int| 0 <= k < fields@.len() implies type_nested((#[trigger] fields_view(fields@)[k]).1) by {
                            if k < before.len() {
                                assert(fields_view(fields@)[k] == fields_view(before)[k]);
                            }
                        }
                    }
                }
                e = q2;
            },
            None => break,
        }
    }
    if !is_at(ts, e, TokenKind::Semicolon) {
        tr.note(e, TokenKind::Semicolon, &c);
        return None;
    }
    let sp = n.span.through(&ts[e].span);
    let t = TypeDef { span: sp, name: n, fields };
    assert(t@.fields =~= fields_view(t.fields@));
    proof {
        if ordered_tokens(tsv) {
            assert(tsv[e - 1].span.end <= tsv[e as int].span.start);
            let parts = seq![head] + field_spans(t@.fields);
            assert(parts[0] == head);
            lemma_all_inside(parts, sp);
        }
    }
    Some((t, e + 1))
}


#[verifier::spinoff_prover]
#[verifier::rlimit(50)]
fn value_def(ts: &Vec<Token>, d: usize, p: usize, ctx: &Vec<Frame>, tr: &mut Tracker) -> (r: Option<(ValueDef, usize)>)
    requires
        p <= ts@.len(),
    ensures
        (pv(r), final(tr)@) == value_def_rule(token_views(ts@), d, p, ctx@, old(tr)@),
        r is Some ==> p < (r->0).1 <= ts@.len(),
        r is Some && ordered_tokens(token_views(ts@)) ==> (r->0).0@.span == covered(token_views(ts@), p, (r->0).1) && value_def_nested((r->0).0@),
    decreases d, ts@.len() + 1,
{
    if d == 0 {
        tr.deepen(p);
        return None;
    }
    let c = with_frame(ctx, Label::ValueDefinition, p);
    if !is_at(ts, p, TokenKind::Name) {
        tr.note(p, TokenKind::Name, ctx);
        return None;
    }
    let n = name_at(ts, p);
    let q = p + 1;
    if !is_at(ts, q, TokenKind::Equal) {
        tr.note(q, TokenKind::Equal, &c);
        return None;
    }
    match expr(ts, d - 1, q + 1, &c, tr) {
        None => None,
        Some((body, e)) => {
            if is_at(ts, e, TokenKind::Semicolon) {
                let sp = n.span.through(&ts[e].span);
                proof {
                    let tsv = token_views(ts@);
                    if ordered_tokens(tsv) {
                        assert(tsv[p as int].span.end <= tsv[q as int].span.start);
                        assert(tsv[q as int].span.end <= tsv[q + 1].span.start);
                        assert(tsv[e - 1].span.end <= tsv[e as int].span.start);
                    }
                }
                Some((ValueDef { span: sp, name: n, body }, e + 1))
            } else {
                tr.note(e, TokenKind::Semicolon, &c);
                None
            }
        },
    }
}

#[verifier::spinoff_prover]
#[verifier::rlimit(50)]
fn def(ts: &Vec<Token>, d: usize, p: usize, ctx: &Vec<Frame>, tr: &mut Tracker) -> (r: Option<(Def, usize)>)
    requires
        p <= ts@.len(),
    ensures
        (pv(r), final(tr)@) == def_rule(token_views(ts@), d, p, ctx@, old(tr)@),
        r is Some ==> p < (r->0).1 <= ts@.len(),
        r is Some && ordered_tokens(token_views(ts@)) ==> def_nested((r->0).0@),
    decreases d, ts@.len() + 1,
{
    proof {
        reveal(def_rule);
    }
    if d == 0 {
        tr.deepen(p);
        return None;
    }
    if let Some((g, q)) = generic_def(ts, d - 1, p, ctx, tr) {
        return Some((Def::Generic(g), q));
    }
    if let Some((v, q)) = value_def(ts, d - 1, p, ctx, tr) {
        return Some((Def::Value(v), q));
    }
    if let Some((t, q)) = type_def(ts, d - 1, p, ctx, tr) {
        return Some((Def::Type(t), q));
    }
    None
}

#[verifier::spinoff_prover]
#[verifier::rlimit(50)]
fn expr(ts: &Vec<Token>, d: usize, p: usize, ctx: &Vec<Frame>, tr: &mut Tracker) -> (r: Option<(Expr, usize)>)
    requires
        p <= ts@.len(),
    ensures
        (pv(r), final(tr)@) == expr_rule(token_views(ts@), d, p, ctx@, old(tr)@),
        r is Some ==> p < (r->0).1 <= ts@.len(),
        r is Some && ordered_tokens(token_views(ts@)) ==> inside(expr_span((r->0).0@), covered(token_views(ts@), p, (r->0).1)) && expr_nested((r->0).0@),
    decreases d, ts@.len() + 1,
{
    if d == 0 {
        tr.deepen(p);
        return None;
    }
    let c = with_frame(ctx, Label::Expression, p);
    let a = if_expr(ts, d - 1, p, &c, tr);
    if a.is_some() {
        return a;
    }
    let b = let_expr(ts, d - 1, p, &c, tr);
    if b.is_some() {
        return b;
    }
    pipe(ts, d - 1, p, &c, tr)
}

#[verifier::spinoff_prover]
#[verifier::rlimit(50)]
fn if_expr(ts: &Vec<Token>, d: usize, p: usize, ctx: &Vec<Frame>, tr: &mut Tracker) -> (r: Option<(Expr, usize)>)
    requires
        p <= ts@.len(),
    ensures
        (pv(r), final(tr)@) == if_rule(token_views(ts@), d, p, ctx@, old(tr)@),
        r is Some ==> p < (r->0).1 <= ts@.len(),
        r is Some && ordered_tokens(token_views(ts@)) ==> inside(expr_span((r->0).0@), covered(token_views(ts@), p, (r->0).1)) && expr_nested((r->0).0@),
    decreases d, ts@.len() + 1,
{
    if d == 0 {
        tr.deepen(p);
        return None;
    }
    let c = with_frame(ctx, Label::BranchingExpression, p);
    if !is_at(ts, p, TokenKind::If) {
        tr.note(p, TokenKind::If, ctx);
        return None;
    }
    let (cond, q1) = match expr(ts, d - 1, p + 1, &c, tr) {
        None => return None,
        Some(x) => x,
    };
    if !is_at(ts, q1, TokenKind::Then) {
        tr.note(q1, TokenKind::Then, &c);
        return None;
    }
    let (yes, q2) = match expr(ts, d - 1, q1 + 1, &c, tr) {
        None => return None,
        Some(x) => x,
    };
    if !is_at(ts, q2, TokenKind::Else) {
        tr.note(q2, TokenKind::Else, &c);
        return None;
    }
    let (no, q3) = match expr(ts, d - 1, q2 + 1, &c, tr) {
        None => return None,
        Some(x) => x,
    };
    let sp = ts[p].span.through(&no.span());
    proof {
        let tsv = token_views(ts@);
        if ordered_tokens(tsv) {
            assert(tsv[p as int].span.end <= tsv[p + 1].span.start);
            assert(tsv[q1 - 1].span.end <= tsv[q1 as int].span.start);
            assert(tsv[q1 as int].span.end <= tsv[q1 + 1].span.start);
            assert(tsv[q2 - 1].span.end <= tsv[q2 as int].span.start);
            assert(tsv[q2 as int].span.end <= tsv[q2 + 1].span.start);
            lemma_in_order3(expr_span(cond@), expr_span(yes@), expr_span(no@));
        }
    }
    Some((Expr::IfThenElse(sp, Box::new(cond), Box::new(yes), Box::new(no)), q3))
}

#[verifier::spinoff_prover]
#[verifier::rlimit(50)]
fn let_expr(ts: &Vec<Token>, d: usize, p: usize, ctx: &Vec<Frame>, tr: &mut Tracker) -> (r: Option<(Expr, usize)>)
    requires
        p <= ts@.len(),
    ensures
        (pv(r), final(tr)@) == let_rule(token_views(ts@), d, p, ctx@, old(tr)@),
        r is Some ==> p < (r->0).1 <= ts@.len(),
        r is Some && ordered_tokens(token_views(ts@)) ==> inside(expr_span((r->0).0@), covered(token_views(ts@), p, (r->0).1)) && expr_nested((r->0).0@),
    decreases d, ts@.len() + 1,
{
    if d == 0 {
        tr.deepen(p);
        return None;
    }
    let c = with_frame(ctx, Label::LetExpression, p);
    if !is_at(ts, p, TokenKind::Let) {
        tr.note(p, TokenKind::Let, ctx);
        return None;
    }
    let ghost t0 = tr@;
    let ghost target = bindings_rule(token_views(ts@), d, next(p), c@, t0, seq![]);
    let mut defs: Vec<ValueDef> = Vec::new();
    assert(value_defs_view(defs@) =~= seq![]);
    let mut e = p + 1;
    let ghost tsv = token_views(ts@);
    loop
        invariant_except_break
            bindings_rule(token_views(ts@), d, e, c@, tr@, value_defs_view(defs@)) == target,
        invariant
            tsv == token_views(ts@),
            p < e <= ts@.len(),
            d > 0,
            ordered_tokens(tsv) ==> in_order(def_spans(value_defs_view(defs@))),
            ordered_tokens(tsv) ==> forall|k: int| 0 <= k < defs@.len() ==> value_def_nested(#[trigger] value_defs_view(defs@)[k]) && inside(value_defs_view(defs@)[k].span, covered(tsv, next(p), e)),
        ensures
            target == (value_defs_view(defs@), e, tr@),
        decreases ts@.len() - e,
    {
        match value_def(ts, d - 1, e, &c, tr) {
            Some((v, q2)) => {
                let ghost before = defs@;
                let ghost vv = v@;
                defs.push(v);
                assert(value_defs_view(defs@) =~= value_defs_view(before).push(vv));
                proof {
                    if ordered_tokens(tsv) {
                        let bv = value_defs_view(before);
                        assert(def_spans(value_defs_view(defs@)) =~= def_spans(bv).push(vv.span));
                        assert(tsv[e - 1].span.end <= tsv[e as int].span.start);
                        if e > p + 1 {
                            assert(tsv[p + 1].span.end <= tsv[e as int].span.start);
                        }
                        if bv.len() > 0 {
                            assert(def_spans(bv).last() == bv[bv.len() - 1].span);
                        }
                        lemma_in_order_push(def_spans(bv), vv.span);
                        assert forall|k: int| 0 <= k < defs@.len() implies value_def_nested(#[trigger] value_defs_view(defs@)[k]) && inside(value_defs_view(defs@)[k].span, covered(tsv, next(p), q2)) by {
                            if k < bv.len() {
                                assert(value_defs_view(defs@)[k] == bv[k]);
                                assert(tsv[e - 1].span.end <= tsv[q2 - 1].span.end);
                            }
                        }
                    }
                }
                e = q2;
            },
            None => break,
        }
    }
    if !is_at(ts, e, TokenKind::In) {
        tr.note(e, TokenKind::In, &c);
        return None;
    }
    match expr(ts, d - 1, e + 1, &c, tr) {
        None => None,
        Some((body, q)) => {
            let sp = ts[p].span.through(&body.span());
            let ghost dv = value_defs_view(defs@);
            let ghost bv = body@;
            let x = Expr::LetIn(sp, defs, Box::new(body));
            proof {
                let xv = x@;
                assert(xv matches ExprV::LetIn(_, ds, _) && ds =~= dv);
                if ordered_tokens(tsv) {
                    assert(tsv[p as int].span.end <= tsv[p + 1].span.start);
                    assert(tsv[e - 1].span.end <= tsv[e as int].span.start);
                    assert(tsv[e as int].span.end <= tsv[e + 1].span.start);
                    if dv.len() > 0 {
                        assert(def_spans(dv).last() == dv[dv.len() - 1].span);
                    }
                    lemma_in_order_push(def_spans(dv), expr_span(bv));
                    assert(def_spans(dv).push(expr_span(bv)) =~= dv.map_values(|d: ValueDefV| d.span).push(expr_span(bv)));
                    assert forall|i: int| 0 <= i < dv.len() implies inside((#[trigger] dv[i]).span, sp) by {
                        if e > p + 1 {
                            assert(tsv[p + 1].span.start <= tsv[e - 1].span.start);
                        }
                    }
                    assert forall|i: int| 0 <= i < dv.len() implies {
                        let d = #[trigger] dv[i];
                        &&& inside(d.name.span, d.span)
                        &&& inside(expr_span(d.body), d.span)
                        &&& before(d.name.span, expr_span(d.body))
                        &&& expr_nested(d.body)
                    } by {
                        assert(value_def_nested(dv[i]));
                    }
                }
            }
            Some((x, q))
        },
    }
}

#[verifier::spinoff_prover]
#[verifier::rlimit(50)]
fn apply(ts: &Vec<Token>, d: usize, p: usize, ctx: &Vec<Frame>, tr: &mut Tracker) -> (r: Option<(Expr, usize)>)
    requires
        p <= ts@.len(),
    ensures
        (pv(r), final(tr)@) == apply_rule(token_views(ts@), d, p, ctx@, old(tr)@),
        r is Some ==> p < (r->0).1 <= ts@.len(),
        r is Some && ordered_tokens(token_views(ts@)) ==> inside(expr_span((r->0).0@), covered(token_views(ts@), p, (r->0).1)) && expr_nested((r->0).0@),
    decreases d, ts@.len() + 1,
{
    if d == 0 {
        tr.deepen(p);
        return None;
    }
    let (f, q) = match atom(ts, d - 1, p, ctx, tr) {
        None => return None,
        Some(x) => x,
    };
    let ghost t1 = tr@;
    let ghost target = arguments_rule(token_views(ts@), d, q, ctx@, t1, f@);
    let mut acc = f;
    let mut e = q;
    let ghost tsv = token_views(ts@);
    loop
        invariant_except_break
            arguments_rule(token_views(ts@), d, e, ctx@, tr@, acc@) == target,
        invariant
            tsv == token_views(ts@),
            p < e <= ts@.len(),
            d > 0,
            ordered_tokens(tsv) ==> inside(expr_span(acc@), covered(tsv, p, e)) && expr_nested(acc@),
        ensures
            target == (acc@, e, tr@),
        decreases ts@.len() - e,
    {
        match atom(ts, d - 1, e, ctx, tr) {
            Some((a, q2)) => {
                let sp = acc.span().through(&a.span());
                proof {
                    if ordered_tokens(tsv) {
                        assert(tsv[e - 1].span.end <= tsv[e as int].span.start);
                        assert(tsv[e - 1].span.end <= tsv[q2 - 1].span.end);
                    }
                }
                acc = Expr::Call(sp, Box::new(acc), Box::new(a));
                e = q2;
            },
            None => break,
        }
    }
    Some((acc, e))
}

#[verifier::spinoff_prover]
#[verifier::rlimit(50)]
fn pipe(ts: &Vec<Token>, d: usize, p: usize, ctx: &Vec<Frame>, tr: &mut Tracker) -> (r: Option<(Expr, usize)>)
    requires
        p <= ts@.len(),
    ensures
        (pv(r), final(tr)@) == pipe_rule(token_views(ts@), d, p, ctx@, old(tr)@),
        r is Some ==> p < (r->0).1 <= ts@.len(),
        r is Some && ordered_tokens(token_views(ts@)) ==> inside(expr_span((r->0).0@), covered(token_views(ts@), p, (r->0).1)) && expr_nested((r->0).0@),
    decreases d, ts@.len() + 1,
{
    if d == 0 {
        tr.deepen(p);
        return None;
    }
    let (x, q) = match apply(ts, d - 1, p, ctx, tr) {
        None => return None,
        Some(v) => v,
    };
    let ghost t1 = tr@;
    let ghost target = pipes_rule(token_views(ts@), d, q, ctx@, t1, x@);
    let mut acc = x;
    let mut e = q;
    let ghost tsv = token_views(ts@);
    loop
        invariant_except_break
            pipes_rule(token_views(ts@), d, e, ctx@, tr@, acc@) == target,
        invariant
            tsv == token_views(ts@),
            p < e <= ts@.len(),
            d > 0,
            ordered_tokens(tsv) ==> inside(expr_span(acc@), covered(tsv, p, e)) && expr_nested(acc@),
        ensures
            target == (acc@, e, tr@),
        decreases ts@.len() - e,
    {
        if !is_at(ts, e, TokenKind::PipeInto) {
            tr.note(e, TokenKind::PipeInto, ctx);
            break;
        }
        match apply(ts, d - 1, e + 1, ctx, tr) {
            Some((f, q2)) => {
                let sp = acc.span().through(&f.span());
                proof {
                    if ordered_tokens(tsv) {
                        assert(tsv[e - 1].span.end <= tsv[e as int].span.start);
                        assert(tsv[e as int].span.end <= tsv[e + 1].span.start);
                        assert(tsv[e - 1].span.end <= tsv[q2 - 1].span.end);
                    }
                }
                acc = Expr::Call(sp, Box::new(f), Box::new(acc));
                e = q2;
            },
            None => break,
        }
    }
    Some((acc, e))
}

#[verifier::spinoff_prover]
#[verifier::rlimit(50)]
fn atom(ts: &Vec<Token>, d: usize, p: usize, ctx: &Vec<Frame>, tr: &mut Tracker) -> (r: Option<(Expr, usize)>)
    requires
        p <= ts@.len(),
    ensures
        (pv(r), final(tr)@) == atom_rule(token_views(ts@), d, p, ctx@, old(tr)@),
        r is Some ==> p < (r->0).1 <= ts@.len(),
        r is Some && ordered_tokens(token_views(ts@)) ==> inside(expr_span((r->0).0@), covered(token_views(ts@), p, (r->0).1)) && expr_nested((r->0).0@),
    decreases d, ts@.len() + 1,
{
    if d == 0 {
        tr.deepen(p);
        return None;
    }
    let f = func(ts, d - 1, p, ctx, tr);
    if f.is_some() {
        return f;
    }
    if is_at(ts, p, TokenKind::Name) {
        let n = name_at(ts, p);
        return Some((Expr::SymbolRef(n.span, n), p + 1));
    }
    if is_at(ts, p, TokenKind::Float) {
        tr.note(p, TokenKind::Name, ctx);
        return Some((Expr::Float(ts[p].span, copy_of(&ts[p].text)), p + 1));
    }
    if is_at(ts, p, TokenKind::Int) {
        tr.note(p, TokenKind::Name, ctx);
        tr.note(p, TokenKind::Float, ctx);
        let v = int_value_of(&ts[p].text);
        return Some((Expr::Int(ts[p].span, v), p + 1));
    }
    tr.note(p, TokenKind::Name, ctx);
    tr.note(p, TokenKind::Float, ctx);
    tr.note(p, TokenKind::Int, ctx);
    if is_at(ts, p, TokenKind::PipeFrom) {
        proof {
            let tsv = token_views(ts@);
            if ordered_tokens(tsv) && p + 1 < ts@.len() {
                assert(tsv[p as int].span.end <= tsv[p + 1].span.start);
            }
        }
        return expr(ts, d - 1, p + 1, ctx, tr);
    }
    tr.note(p, TokenKind::PipeFrom, ctx);
    if !is_at(ts, p, TokenKind::OpenParen) {
        tr.note(p, TokenKind::OpenParen, ctx);
        return None;
    }
    match expr(ts, d - 1, p + 1, ctx, tr) {
        None => None,
        Some((e, q)) => {
            if is_at(ts, q, TokenKind::CloseParen) {
                proof {
                    let tsv = token_views(ts@);
                    if ordered_tokens(tsv) {
                        assert(tsv[p as int].span.end <= tsv[p + 1].span.start);
                        assert(tsv[q - 1].span.end <= tsv[q as int].span.start);
                    }
                }
                Some((e, q + 1))
            } else {
                tr.note(q, TokenKind::CloseParen, ctx);
                None
            }
        },
    }
}

fn int_value_of(text: &Vec<u8>) -> (r: u64)
    ensures
        r == int_value(text@),
{
    match decimal_in(text.as_slice(), 0, text.len()) {
        Some(v) => {
            assert(text@.subrange(0, text@.len() as int) =~= text@);
            v
        },
        None => {
            assert(text@.subrange(0, text@.len() as int) =~= text@);
            u64::MAX
        },
    }
}

#[verifier::spinoff_prover]
#[verifier::rlimit(100)]
fn func(ts: &Vec<Token>, d: usize, p: usize, ctx: &Vec<Frame>, tr: &mut Tracker) -> (r: Option<(Expr, usize)>)
    requires
        p <= ts@.len(),
    ensures
        (pv(r), final(tr)@) == func_rule(token_views(ts@), d, p, ctx@, old(tr)@),
        r is Some ==> p < (r->0).1 <= ts@.len(),
        r is Some && ordered_tokens(token_views(ts@)) ==> inside(expr_span((r->0).0@), covered(token_views(ts@), p, (r->0).1)) && expr_nested((r->0).0@),
    decreases d, ts@.len() + 1,
{
    if d == 0 {
        tr.deepen(p);
        return None;
    }
    let c = with_frame(ctx, Label::FunctionDefinition, p);
    if !is_at(ts, p, TokenKind::Name) {
        tr.note(p, TokenKind::Name, ctx);
        return None;
    }
    let n = name_at(ts, p);
    let (arg, q2) = match type_ref(ts, d - 1, p + 1, &c, tr) {
        None => return None,
        Some(x) => x,
    };
    if !is_at(ts, q2, TokenKind::Arrow) {
        tr.note(q2, TokenKind::Arrow, &c);
        return None;
    }
    let (ret, q3) = match type_ref(ts, d - 1, q2 + 1, &c, tr) {
        Some((ty, e)) => (Some(ty), e),
        None => (None, q2 + 1),
    };
    match expr(ts, d - 1, q3, &c, tr) {
        None => None,
        Some((body, e)) => {
            let sp = n.span.through(&body.span());
            proof {
                let tsv = token_views(ts@);
                if ordered_tokens(tsv) {
                    lemma_func_nested(tsv, p, q2, q3, e, n@, arg@, opt_type_view(ret), body@, sp);
                }
            }
            let x = Expr::Func(sp, n, arg, ret, Box::new(body));
            proof {
                let xv = x@;
                assert(xv matches ExprV::Func(_, _, _, rt, _) && rt == opt_type_view(ret));
            }
            Some((x, e))
        },
    }
}


proof fn lemma_resume_at(ts: Seq<TokenV>, i: usize, from: usize, open: nat)
    requires
        i <= ts.len() <= usize::MAX,
    ensures
        i < resume_at(ts, i, from, open) <= ts.len() || (i == ts.len() && resume_at(ts, i, from, open) == i),
    decreases rem(ts, i),
{
    if i < ts.len() {
        let k = ts[i as int].kind;
        if k == TokenKind::Let {
            lemma_resume_at(ts, next(i), from, open + 1);
        } else if k == TokenKind::In && open > 0 {
            lemma_resume_at(ts, next(i), from, (open - 1) as nat);
        } else if !(k == TokenKind::Semicolon && open == 0 && i >= from) {
            lemma_resume_at(ts, next(i), from, open);
        }
    }
}

fn resume(ts: &Vec<Token>, start: usize, from: usize) -> (r: usize)
    requires
        start <= ts@.len(),
    ensures
        r == resume_at(token_views(ts@), start, from, 0),
{
    let mut i = start;
    let mut open: usize = 0;
    while i < ts.len()
        invariant
            start <= i <= ts@.len(),
            open <= i - start,
            resume_at(token_views(ts@), i, from, open as nat) == resume_at(token_views(ts@), start, from, 0),
        decreases ts@.len() - i,
    {
        let k = ts[i].kind;
        if k == TokenKind::Let {
            open = open + 1;
        } else if k == TokenKind::In && open > 0 {
            open = open - 1;
        } else if k == TokenKind::Semicolon && open == 0 && i >= from {
            return i + 1;
        }
        i = i + 1;
    }
    i
}

fn error_of(ts: &Vec<Token>, t: &Tracker) -> (r: SyntaxError)
    ensures
        r@ == error_from(token_views(ts@), t@),
{
    let n = ts.len();
    let end = if n == 0 { Span { start: 0, end: 0 } } else { Span { start: ts[n - 1].span.end, end: ts[n - 1].span.end } };
    match t.too_deep {
        Some(p) => {
            let sp = if p < n { ts[p].span } else { end };
            let found = if p < n { Some(ts[p].kind) } else { None };
            let r = SyntaxError { kind: SyntaxErrorKind::TooDeep, span: sp, found, expected: Vec::new(), context: Vec::new() };
            assert(r@.expected =~= seq![]);
            assert(r@.context =~= seq![]);
            r
        },
        None => {
            let p = t.pos;
            let sp = if p < n { ts[p].span } else { end };
            let found = if p < n { Some(ts[p].kind) } else { None };
            let mut context: Vec<Context> = Vec::new();
            let mut i: usize = 0;
            while i < t.context.len()
                invariant
                    i <= t.context@.len(),
                    sp == span_at(token_views(ts@), t.pos),
                    n == ts@.len(),
                    end == end_span(token_views(ts@)),
                    context@ == t.context@.subrange(0, i as int).map_values(|f: Frame| context_of(token_views(ts@), f, sp)),
                decreases t.context@.len() - i,
            {
                let f = t.context[i];
                let start = if f.start < n { ts[f.start].span.start } else { end.start };
                context.push(Context { label: f.label, span: Span { start, end: sp.end } });
                i = i + 1;
                assert(context@ =~= t.context@.subrange(0, i as int).map_values(|f: Frame| context_of(token_views(ts@), f, sp)));
            }
            assert(t.context@.subrange(0, i as int) =~= t.context@);
            SyntaxError {
                kind: SyntaxErrorKind::Unexpected,
                span: sp,
                found,
                expected: copy_of(&t.expected),
                context,
            }
        },
    }
}

/// Parses a token sequence into definitions. Every definition that fails to parse
/// reports one error, and parsing goes on past the `;` that ends it, so independent
/// mistakes are all reported. The definitions come back only where there is no error.
/// Where the tokens are in source order, as `tokenize` gives them, every node of every
/// definition holds its children within its span, in order and without overlap.
#[verifier::rlimit(50)]
pub fn parse(tokens: &Vec<Token>) -> (r: (Option<Vec<Def>>, Vec<SyntaxError>))
    ensures
        errors_view(r.1@) == parse_tokens(token_views(tokens@)).1,
        r.0 is Some <==> r.1@.len() == 0,
        r.0 is Some ==> defs_view(r.0->0@) == parse_tokens(token_views(tokens@)).0,
        r.0 is Some && ordered_tokens(token_views(tokens@)) ==> forall|k: int|
            0 <= k < r.0->0@.len() ==> def_nested(#[trigger] defs_view(r.0->0@)[k]),
{
    let ts = tokens;
    let n = ts.len();
    let mut defs: Vec<Def> = Vec::new();
    let mut errors: Vec<SyntaxError> = Vec::new();
    let mut p: usize = 0;
    let ghost target = parse_tokens(token_views(ts@));
    assert(defs_view(defs@) =~= seq![]);
    assert(errors_view(errors@) =~= seq![]);
    while p < n
        invariant_except_break
            program(token_views(ts@), p, defs_view(defs@), errors_view(errors@)) == target,
        invariant
            n == ts@.len(),
            p <= n,
            ordered_tokens(token_views(ts@)) ==> forall|k: int|
                0 <= k < defs@.len() ==> def_nested(#[trigger] defs_view(defs@)[k]),
        ensures
            target == (defs_view(defs@), errors_view(errors@)),
            ordered_tokens(token_views(ts@)) ==> forall|k: int|
                0 <= k < defs@.len() ==> def_nested(#[trigger] defs_view(defs@)[k]),
        decreases n - p,
    {
        let mut tr = Tracker::new();
        let ctx: Vec<Frame> = Vec::new();
        assert(ctx@ =~= seq![]);
        let r = def(ts, MAX_DEPTH, p, &ctx, &mut tr);
        if tr.too_deep.is_some() {
            let ghost before = errors@;
            let e = error_of(ts, &tr);
            errors.push(e);
            assert(errors_view(errors@) =~= errors_view(before).push(e@));
            break;
        }
        match r {
            Some((x, q)) => {
                let ghost before = defs@;
                let ghost xv = x@;
                defs.push(x);
                assert(defs_view(defs@) =~= defs_view(before).push(xv));
                proof {
                    if ordered_tokens(token_views(ts@)) {
                        assert forall|k: int| 0 <= k < defs@.len() implies def_nested(#[trigger] defs_view(defs@)[k]) by {
                            if k < before.len() {
                                assert(defs_view(defs@)[k] == defs_view(before)[k]);
                            }
                        }
                    }
                }
                p = q;
            },
            None => {
                let ghost before = errors@;
                let e = error_of(ts, &tr);
                errors.push(e);
                assert(errors_view(errors@) =~= errors_view(before).push(e@));
                let from = if tr.pos > p { tr.pos } else { p };
                proof {
                    lemma_resume_at(token_views(ts@), p, from, 0);
                }
                p = resume(ts, p, from);
            },
        }
    }
    if errors.len() == 0 {
        (Some(defs), errors)
    } else {
        (None, errors)
    }
}

} // verus!
