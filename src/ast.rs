use vstd::prelude::*;
use crate::span::Span;

verus! {

/// One occurrence of an identifier: where it stands and its text. Two names are equal
/// when their texts are, wherever they stand.
#[derive(Debug, Clone)]
pub struct Name {
    pub span: Span,
    pub text: Vec<u8>,
}

impl PartialEq for Name {
    fn eq(&self, other: &Name) -> (r: bool) {
        let n = self.text.len();
        if n != other.text.len() {
            return false;
        }
        let mut i: usize = 0;
        while i < n
            invariant
                n == self.text@.len() == other.text@.len(),
                i <= n,
                self.text@.subrange(0, i as int) == other.text@.subrange(0, i as int),
            decreases n - i,
        {
            if self.text[i] != other.text[i] {
                proof {
                    if self.text@ == other.text@ {
                        assert(self.text@[i as int] == other.text@[i as int]);
                    }
                }
                return false;
            }
            i = i + 1;
            assert(self.text@.subrange(0, i as int) =~= other.text@.subrange(0, i as int)) by {
                assert forall|k: int| 0 <= k < i implies self.text@[k] == other.text@[k] by {
                    if k < i - 1 {
                        assert(self.text@.subrange(0, i - 1)[k] == other.text@.subrange(0, i - 1)[k]);
                    }
                }
            }
        }
        assert(self.text@ =~= self.text@.subrange(0, n as int));
        assert(other.text@ =~= other.text@.subrange(0, n as int));
        true
    }
}

impl vstd::std_specs::cmp::PartialEqSpecImpl for Name {
    open spec fn obeys_eq_spec() -> bool {
        true
    }

    open spec fn eq_spec(&self, other: &Name) -> bool {
        self.text@ == other.text@
    }
}

impl Eq for Name {
}

/// A reference to a type, written after a `:`.
#[derive(Debug)]
pub enum TypeRef {
    /// A type name applied to its generic arguments.
    Named(Span, Name, Vec<TypeRef>),
    /// A function type from its argument type to its result type.
    Function(Span, Box<TypeRef>, Box<TypeRef>),
}

/// An expression.
#[derive(Debug)]
pub enum Expr {
    SymbolRef(Span, Name),
    /// A function literal: argument name and type, optional result type, body.
    Func(Span, Name, TypeRef, Option<TypeRef>, Box<Expr>),
    /// An application of a function to one argument.
    Call(Span, Box<Expr>, Box<Expr>),
    IfThenElse(Span, Box<Expr>, Box<Expr>, Box<Expr>),
    LetIn(Span, Vec<ValueDef>, Box<Expr>),
    /// A decimal fraction literal, held as the digits and point it was written with.
    Float(Span, Vec<u8>),
    Int(Span, u64),
}

/// `name = body;`
#[derive(Debug)]
pub struct ValueDef {
    pub span: Span,
    pub name: Name,
    pub body: Expr,
}

/// `name | field :Type, ...;`
#[derive(Debug)]
pub struct TypeDef {
    pub span: Span,
    pub name: Name,
    pub fields: Vec<(Name, TypeRef)>,
}

/// `name $ param :Type & :Type, ...;`: each parameter with the types it ranges over.
#[derive(Debug)]
pub struct GenericDef {
    pub span: Span,
    pub name: Name,
    pub args: Vec<(Name, Vec<TypeRef>)>,
}

/// A top-level definition.
#[derive(Debug)]
pub enum Def {
    Generic(GenericDef),
    Value(ValueDef),
    Type(TypeDef),
}

/// A whole program: its definitions in source order.
#[derive(Debug)]
pub struct Root {
    pub span: Span,
    pub defs: Vec<Def>,
}

pub struct NameV {
    pub span: Span,
    pub text: Seq<u8>,
}

pub enum TypeRefV {
    Named(Span, NameV, Seq<TypeRefV>),
    Function(Span, Box<TypeRefV>, Box<TypeRefV>),
}

pub enum ExprV {
    SymbolRef(Span, NameV),
    Func(Span, NameV, TypeRefV, Option<TypeRefV>, Box<ExprV>),
    Call(Span, Box<ExprV>, Box<ExprV>),
    IfThenElse(Span, Box<ExprV>, Box<ExprV>, Box<ExprV>),
    LetIn(Span, Seq<ValueDefV>, Box<ExprV>),
    Float(Span, Seq<u8>),
    Int(Span, u64),
}

pub struct ValueDefV {
    pub span: Span,
    pub name: NameV,
    pub body: ExprV,
}

pub struct TypeDefV {
    pub span: Span,
    pub name: NameV,
    pub fields: Seq<(NameV, TypeRefV)>,
}

pub struct GenericDefV {
    pub span: Span,
    pub name: NameV,
    pub args: Seq<(NameV, Seq<TypeRefV>)>,
}

pub enum DefV {
    Generic(GenericDefV),
    Value(ValueDefV),
    Type(TypeDefV),
}

pub open spec fn type_span(t: TypeRefV) -> Span {
    match t {
        TypeRefV::Named(s, _, _) => s,
        TypeRefV::Function(s, _, _) => s,
    }
}

pub open spec fn expr_span(e: ExprV) -> Span {
    match e {
        ExprV::SymbolRef(s, _) => s,
        ExprV::Func(s, _, _, _, _) => s,
        ExprV::Call(s, _, _) => s,
        ExprV::IfThenElse(s, _, _, _) => s,
        ExprV::LetIn(s, _, _) => s,
        ExprV::Float(s, _) => s,
        ExprV::Int(s, _) => s,
    }
}

pub open spec fn def_span(d: DefV) -> Span {
    match d {
        DefV::Generic(g) => g.span,
        DefV::Value(v) => v.span,
        DefV::Type(t) => t.span,
    }
}

/// `c` lies within `s`.
pub open spec fn inside(c: Span, s: Span) -> bool {
    s.start <= c.start && c.start <= c.end && c.end <= s.end
}

/// `a` ends before `b` starts.
pub open spec fn before(a: Span, b: Span) -> bool {
    a.end <= b.start
}

/// Consecutive spans of `v` come one after the other.
pub open spec fn in_order(v: Seq<Span>) -> bool {
    forall|i: int| 0 <= i < v.len() - 1 ==> before(#[trigger] v[i], v[i + 1])
}

/// Each child of each node of `t` lies within the node's span, and the children come in
/// source order without overlapping.
pub open spec fn type_nested(t: TypeRefV) -> bool
    decreases t,
{
    match t {
        TypeRefV::Named(s, n, args) => {
            &&& inside(n.span, s)
            &&& in_order(seq![n.span] + args.map_values(|a: TypeRefV| type_span(a)))
            &&& forall|i: int| 0 <= i < args.len() ==> inside(type_span(#[trigger] args[i]), s)
            &&& forall|i: int| 0 <= i < args.len() ==> type_nested(#[trigger] args[i])
        },
        TypeRefV::Function(s, a, r) => {
            &&& inside(type_span(*a), s)
            &&& inside(type_span(*r), s)
            &&& before(type_span(*a), type_span(*r))
            &&& type_nested(*a)
            &&& type_nested(*r)
        },
    }
}

pub open spec fn opt_type_spans(t: Option<TypeRefV>) -> Seq<Span> {
    match t {
        Some(t) => seq![type_span(t)],
        None => seq![],
    }
}

/// Each child of each node of `e` lies within the node's span, and the children come in
/// source order without overlapping.
pub open spec fn expr_nested(e: ExprV) -> bool
    decreases e,
{
    match e {
        ExprV::SymbolRef(s, n) => inside(n.span, s),
        ExprV::Func(s, n, a, r, b) => {
            let parts = seq![n.span, type_span(a)] + opt_type_spans(r) + seq![expr_span(*b)];
            &&& in_order(parts)
            &&& forall|i: int| 0 <= i < parts.len() ==> inside(#[trigger] parts[i], s)
            &&& type_nested(a)
            &&& (r matches Some(t) ==> type_nested(t))
            &&& expr_nested(*b)
        },
        ExprV::Call(s, f, a) => {
            &&& inside(expr_span(*f), s)
            &&& inside(expr_span(*a), s)
            &&& (before(expr_span(*f), expr_span(*a)) || before(expr_span(*a), expr_span(*f)))
            &&& expr_nested(*f)
            &&& expr_nested(*a)
        },
        ExprV::IfThenElse(s, c, t, f) => {
            &&& in_order(seq![expr_span(*c), expr_span(*t), expr_span(*f)])
            &&& inside(expr_span(*c), s)
            &&& inside(expr_span(*t), s)
            &&& inside(expr_span(*f), s)
            &&& expr_nested(*c)
            &&& expr_nested(*t)
            &&& expr_nested(*f)
        },
        ExprV::LetIn(s, defs, b) => {
            &&& in_order(defs.map_values(|d: ValueDefV| d.span).push(expr_span(*b)))
            &&& forall|i: int| 0 <= i < defs.len() ==> inside((#[trigger] defs[i]).span, s)
            &&& forall|i: int|
                0 <= i < defs.len() ==> {
                    let d = #[trigger] defs[i];
                    &&& inside(d.name.span, d.span)
                    &&& inside(expr_span(d.body), d.span)
                    &&& before(d.name.span, expr_span(d.body))
                    &&& expr_nested(d.body)
                }
            &&& inside(expr_span(*b), s)
            &&& expr_nested(*b)
        },
        ExprV::Float(s, _) => s.start <= s.end,
        ExprV::Int(s, _) => s.start <= s.end,
    }
}

/// The nesting of a value definition: its name, then its body, both within its span.
pub open spec fn value_def_nested(d: ValueDefV) -> bool {
    &&& inside(d.name.span, d.span)
    &&& inside(expr_span(d.body), d.span)
    &&& before(d.name.span, expr_span(d.body))
    &&& expr_nested(d.body)
}

/// The spans of the fields' names and types, in order.
pub open spec fn field_spans(fs: Seq<(NameV, TypeRefV)>) -> Seq<Span>
    decreases fs.len(),
{
    if fs.len() == 0 {
        seq![]
    } else {
        field_spans(fs.drop_last()) + seq![fs.last().0.span, type_span(fs.last().1)]
    }
}

/// The spans of a generic parameter's name and of the types it ranges over.
pub open spec fn arg_spans(a: (NameV, Seq<TypeRefV>)) -> Seq<Span> {
    seq![a.0.span] + a.1.map_values(|t: TypeRefV| type_span(t))
}

/// The spans of the generic parameters' names and types, in order.
pub open spec fn args_spans(args: Seq<(NameV, Seq<TypeRefV>)>) -> Seq<Span>
    decreases args.len(),
{
    if args.len() == 0 {
        seq![]
    } else {
        args_spans(args.drop_last()) + arg_spans(args.last())
    }
}

/// The children of each node of a definition lie within the node's span, and come in
/// source order without overlapping.
pub open spec fn def_nested(d: DefV) -> bool {
    match d {
        DefV::Value(v) => value_def_nested(v),
        DefV::Type(t) => {
            let parts = seq![t.name.span] + field_spans(t.fields);
            &&& in_order(parts)
            &&& forall|i: int| 0 <= i < parts.len() ==> inside(#[trigger] parts[i], t.span)
            &&& forall|i: int| 0 <= i < t.fields.len() ==> type_nested((#[trigger] t.fields[i]).1)
        },
        DefV::Generic(g) => {
            let parts = seq![g.name.span] + args_spans(g.args);
            &&& in_order(parts)
            &&& forall|i: int| 0 <= i < parts.len() ==> inside(#[trigger] parts[i], g.span)
            &&& forall|i: int, j: int|
                0 <= i < g.args.len() && 0 <= j < g.args[i].1.len() ==> type_nested(
                    #[trigger] g.args[i].1[j],
                )
        },
    }
}

/// A node of the syntax tree: it knows the source range it was parsed from.
pub trait Ast {
    spec fn spec_span(&self) -> Span;

    fn span(&self) -> (r: Span)
        ensures
            r == self.spec_span(),
    ;
}

impl View for Name {
    type V = NameV;

    open spec fn view(&self) -> NameV {
        NameV { span: self.span, text: self.text@ }
    }
}

pub open spec fn type_ref_view(t: TypeRef) -> TypeRefV
    decreases t,
{
    match t {
        TypeRef::Named(s, n, args) => TypeRefV::Named(
            s,
            n@,
            Seq::new(
                args.len() as nat,
                |i: int|
                    if 0 <= i < args.len() {
                        type_ref_view(args[i])
                    } else {
                        arbitrary()
                    },
            ),
        ),
        TypeRef::Function(s, a, r) => TypeRefV::Function(
            s,
            Box::new(type_ref_view(*a)),
            Box::new(type_ref_view(*r)),
        ),
    }
}

impl View for TypeRef {
    type V = TypeRefV;

    open spec fn view(&self) -> TypeRefV {
        type_ref_view(*self)
    }
}

pub open spec fn value_defs_view(v: Seq<ValueDef>) -> Seq<ValueDefV> {
    v.map_values(|d: ValueDef| d@)
}

pub open spec fn defs_view(v: Seq<Def>) -> Seq<DefV> {
    v.map_values(|d: Def| d@)
}

pub open spec fn types_view(v: Seq<TypeRef>) -> Seq<TypeRefV> {
    v.map_values(|t: TypeRef| t@)
}

pub open spec fn opt_type_view(t: Option<TypeRef>) -> Option<TypeRefV> {
    match t {
        Some(t) => Some(t@),
        None => None,
    }
}

pub open spec fn expr_view(e: Expr) -> ExprV
    decreases e,
{
    match e {
        Expr::SymbolRef(s, n) => ExprV::SymbolRef(s, n@),
        Expr::Func(s, n, a, r, b) => ExprV::Func(s, n@, a@, opt_type_view(r), Box::new(expr_view(*b))),
        Expr::Call(s, f, a) => ExprV::Call(s, Box::new(expr_view(*f)), Box::new(expr_view(*a))),
        Expr::IfThenElse(s, c, t, f) => ExprV::IfThenElse(
            s,
            Box::new(expr_view(*c)),
            Box::new(expr_view(*t)),
            Box::new(expr_view(*f)),
        ),
        Expr::LetIn(s, defs, b) => ExprV::LetIn(
            s,
            Seq::new(
                defs.len() as nat,
                |i: int|
                    if 0 <= i < defs.len() {
                        ValueDefV {
                            span: defs[i].span,
                            name: defs[i].name@,
                            body: expr_view(defs[i].body),
                        }
                    } else {
                        arbitrary()
                    },
            ),
            Box::new(expr_view(*b)),
        ),
        Expr::Float(s, d) => ExprV::Float(s, d@),
        Expr::Int(s, v) => ExprV::Int(s, v),
    }
}

impl View for Expr {
    type V = ExprV;

    open spec fn view(&self) -> ExprV {
        expr_view(*self)
    }
}

impl View for ValueDef {
    type V = ValueDefV;

    open spec fn view(&self) -> ValueDefV {
        ValueDefV { span: self.span, name: self.name@, body: self.body@ }
    }
}

impl View for TypeDef {
    type V = TypeDefV;

    open spec fn view(&self) -> TypeDefV {
        TypeDefV {
            span: self.span,
            name: self.name@,
            fields: self.fields@.map_values(|f: (Name, TypeRef)| (f.0@, f.1@)),
        }
    }
}

impl View for GenericDef {
    type V = GenericDefV;

    open spec fn view(&self) -> GenericDefV {
        GenericDefV {
            span: self.span,
            name: self.name@,
            args: self.args@.map_values(|a: (Name, Vec<TypeRef>)| (a.0@, types_view(a.1@))),
        }
    }
}

impl View for Def {
    type V = DefV;

    open spec fn view(&self) -> DefV {
        match self {
            Def::Generic(g) => DefV::Generic(g@),
            Def::Value(v) => DefV::Value(v@),
            Def::Type(t) => DefV::Type(t@),
        }
    }
}


impl Ast for Name {
    open spec fn spec_span(&self) -> Span {
        self.span
    }

    fn span(&self) -> (r: Span) {
        self.span
    }
}

impl Ast for TypeRef {
    open spec fn spec_span(&self) -> Span {
        type_span(self@)
    }

    fn span(&self) -> (r: Span) {
        match self {
            TypeRef::Named(s, _, _) => *s,
            TypeRef::Function(s, _, _) => *s,
        }
    }
}

impl Ast for Expr {
    open spec fn spec_span(&self) -> Span {
        expr_span(self@)
    }

    fn span(&self) -> (r: Span) {
        match self {
            Expr::SymbolRef(s, _) => *s,
            Expr::Func(s, _, _, _, _) => *s,
            Expr::Call(s, _, _) => *s,
            Expr::IfThenElse(s, _, _, _) => *s,
            Expr::LetIn(s, _, _) => *s,
            Expr::Float(s, _) => *s,
            Expr::Int(s, _) => *s,
        }
    }
}

impl Ast for Def {
    open spec fn spec_span(&self) -> Span {
        def_span(self@)
    }

    fn span(&self) -> (r: Span) {
        match self {
            Def::Generic(g) => g.span,
            Def::Value(v) => v.span,
            Def::Type(t) => t.span,
        }
    }
}

impl Ast for Root {
    open spec fn spec_span(&self) -> Span {
        self.span
    }

    fn span(&self) -> (r: Span) {
        self.span
    }
}

} // verus!
