use vstd::prelude::*;
use crate::span::Span;
use vstd::string::StringSliceAdditionalSpecFns;

verus! {

/// The lexical category of a token.
#[derive(Debug, Clone, Copy, PartialEq, Eq, Structural)]
pub enum TokenKind {
    Let,
    In,
    If,
    Then,
    Else,
    Arrow,
    PipeInto,
    PipeFrom,
    DollarSign,
    Ampersand,
    Pipe,
    Equal,
    Colon,
    Semicolon,
    Period,
    Comma,
    OpenParen,
    CloseParen,
    Name,
    Float,
    Int,
}

/// How a token kind is written in messages: punctuation as it is spelled in the
/// source, the other kinds by name.
pub open spec fn kind_text(k: TokenKind) -> &'static str {
    match k {
        TokenKind::Let => "let",
        TokenKind::In => "in",
        TokenKind::If => "if",
        TokenKind::Then => "then",
        TokenKind::Else => "else",
        TokenKind::Arrow => "->",
        TokenKind::PipeInto => "|>",
        TokenKind::PipeFrom => "<|",
        TokenKind::DollarSign => "$",
        TokenKind::Ampersand => "&",
        TokenKind::Pipe => "|",
        TokenKind::Equal => "=",
        TokenKind::Colon => ":",
        TokenKind::Semicolon => ";",
        TokenKind::Period => ".",
        TokenKind::Comma => ",",
        TokenKind::OpenParen => "(",
        TokenKind::CloseParen => ")",
        TokenKind::Name => "name",
        TokenKind::Float => "float",
        TokenKind::Int => "int",
    }
}

impl TokenKind {
    /// How this kind is written in messages.
    pub fn text(&self) -> (r: &'static str)
        ensures
            r == kind_text(*self),
    {
        match self {
            TokenKind::Let => "let",
            TokenKind::In => "in",
            TokenKind::If => "if",
            TokenKind::Then => "then",
            TokenKind::Else => "else",
            TokenKind::Arrow => "->",
            TokenKind::PipeInto => "|>",
            TokenKind::PipeFrom => "<|",
            TokenKind::DollarSign => "$",
            TokenKind::Ampersand => "&",
            TokenKind::Pipe => "|",
            TokenKind::Equal => "=",
            TokenKind::Colon => ":",
            TokenKind::Semicolon => ";",
            TokenKind::Period => ".",
            TokenKind::Comma => ",",
            TokenKind::OpenParen => "(",
            TokenKind::CloseParen => ")",
            TokenKind::Name => "name",
            TokenKind::Float => "float",
            TokenKind::Int => "int",
        }
    }
}

/// A classified piece of the source: its kind, where it stands and the bytes it covers.
#[derive(Debug, Clone, PartialEq, Eq)]
pub struct Token {
    pub kind: TokenKind,
    pub span: Span,
    pub text: Vec<u8>,
}

pub struct TokenV {
    pub kind: TokenKind,
    pub span: Span,
    pub text: Seq<u8>,
}

impl View for Token {
    type V = TokenV;

    open spec fn view(&self) -> TokenV {
        TokenV { kind: self.kind, span: self.span, text: self.text@ }
    }
}

pub open spec fn token_views(ts: Seq<Token>) -> Seq<TokenV> {
    ts.map_values(|t: Token| t@)
}

/// Why the lexer refused a piece of the source.
#[derive(Debug, Clone, Copy, PartialEq, Eq, Structural)]
pub enum LexErrorKind {
    /// A character that starts no token, outside a comment.
    UnexpectedCharacter,
    /// An integer literal whose value does not fit in 64 bits.
    IntegerTooLarge,
}

/// A lexical error: the span covers the offending character or literal.
#[derive(Debug, Clone, Copy, PartialEq, Eq, Structural)]
pub struct LexError {
    pub kind: LexErrorKind,
    pub span: Span,
}

pub open spec fn is_space(b: u8) -> bool {
    b == 0x20 || b == 0x09 || b == 0x0a || b == 0x0d
}

pub open spec fn is_digit(b: u8) -> bool {
    0x30 <= b <= 0x39
}

pub open spec fn is_ident_start(b: u8) -> bool {
    (0x41 <= b <= 0x5a) || (0x61 <= b <= 0x7a) || b == 0x5f
}

pub open spec fn is_ident_continue(b: u8) -> bool {
    is_ident_start(b) || is_digit(b)
}

/// The first index at or after `k` whose byte cannot continue an identifier.
pub open spec fn ident_end(s: Seq<u8>, k: int) -> int
    decreases s.len() - k,
{
    if 0 <= k < s.len() && is_ident_continue(s[k]) {
        ident_end(s, k + 1)
    } else {
        k
    }
}

/// The first index at or after `k` whose byte is not a decimal digit.
pub open spec fn digits_end(s: Seq<u8>, k: int) -> int
    decreases s.len() - k,
{
    if 0 <= k < s.len() && is_digit(s[k]) {
        digits_end(s, k + 1)
    } else {
        k
    }
}

/// The first index at or after `k` that holds a line feed, or the end.
pub open spec fn line_end(s: Seq<u8>, k: int) -> int
    decreases s.len() - k,
{
    if 0 <= k < s.len() && s[k] != 0x0a {
        line_end(s, k + 1)
    } else {
        k
    }
}

/// The value of a run of decimal digits.
pub open spec fn decimal(d: Seq<u8>) -> nat
    decreases d.len(),
{
    if d.len() == 0 {
        0
    } else {
        decimal(d.drop_last()) * 10 + (if is_digit(d.last()) { (d.last() - 0x30) as nat } else { 0 })
    }
}

/// The token kind of a one-byte mark.
pub open spec fn mark_kind(b: u8) -> Option<TokenKind> {
    if b == 0x24 {
        Some(TokenKind::DollarSign)
    } else if b == 0x26 {
        Some(TokenKind::Ampersand)
    } else if b == 0x7c {
        Some(TokenKind::Pipe)
    } else if b == 0x3d {
        Some(TokenKind::Equal)
    } else if b == 0x3a {
        Some(TokenKind::Colon)
    } else if b == 0x3b {
        Some(TokenKind::Semicolon)
    } else if b == 0x2e {
        Some(TokenKind::Period)
    } else if b == 0x2c {
        Some(TokenKind::Comma)
    } else if b == 0x28 {
        Some(TokenKind::OpenParen)
    } else if b == 0x29 {
        Some(TokenKind::CloseParen)
    } else {
        None
    }
}

/// The token kind of a two-byte operator.
pub open spec fn operator_kind(a: u8, b: u8) -> Option<TokenKind> {
    if a == 0x2d && b == 0x3e {
        Some(TokenKind::Arrow)
    } else if a == 0x7c && b == 0x3e {
        Some(TokenKind::PipeInto)
    } else if a == 0x3c && b == 0x7c {
        Some(TokenKind::PipeFrom)
    } else {
        None
    }
}

/// A keyword's kind, or `Name` for any other identifier.
pub open spec fn word_kind(w: Seq<u8>) -> TokenKind {
    if w == seq![0x6cu8, 0x65, 0x74] {
        TokenKind::Let
    } else if w == seq![0x69u8, 0x6e] {
        TokenKind::In
    } else if w == seq![0x69u8, 0x66] {
        TokenKind::If
    } else if w == seq![0x74u8, 0x68, 0x65, 0x6e] {
        TokenKind::Then
    } else if w == seq![0x65u8, 0x6c, 0x73, 0x65] {
        TokenKind::Else
    } else {
        TokenKind::Name
    }
}

/// The longest token that starts at `i`, as its kind and the index just past it.
/// Two-byte operators win over their one-byte prefixes; a number is a `Float` only
/// where a `.` and at least one digit follow its integer part.
pub open spec fn lexeme(s: Seq<u8>, i: int) -> Option<(TokenKind, int)> {
    if !(0 <= i < s.len()) {
        None
    } else if i + 1 < s.len() && operator_kind(s[i], s[i + 1]) is Some {
        Some((operator_kind(s[i], s[i + 1])->0, i + 2))
    } else if mark_kind(s[i]) is Some {
        Some((mark_kind(s[i])->0, i + 1))
    } else if is_ident_start(s[i]) {
        let j = ident_end(s, i + 1);
        Some((word_kind(s.subrange(i, j)), j))
    } else if is_digit(s[i]) {
        let j = digits_end(s, i + 1);
        if j + 1 < s.len() && s[j] == 0x2e && is_digit(s[j + 1]) {
            Some((TokenKind::Float, digits_end(s, j + 2)))
        } else {
            Some((TokenKind::Int, j))
        }
    } else {
        None
    }
}

/// The number of bytes of the character that starts at `i`, from its leading byte.
pub open spec fn char_width(s: Seq<u8>, i: int) -> int {
    let w: int = if s[i] >= 0xf0 {
        4
    } else if s[i] >= 0xe0 {
        3
    } else if s[i] >= 0xc0 {
        2
    } else {
        1
    };
    if i + w <= s.len() {
        w
    } else {
        s.len() - i
    }
}

/// Lexes `s` from index `i` on: the tokens, as kind and span, and the errors, both in
/// source order. Blanks and comments from `#` to the end of the line separate tokens.
pub open spec fn scan(s: Seq<u8>, i: int) -> (Seq<(TokenKind, Span)>, Seq<LexError>)
    decreases s.len() - i,
    via scan_decreases
{
    if !(0 <= i < s.len()) {
        (seq![], seq![])
    } else if is_space(s[i]) {
        scan(s, i + 1)
    } else if s[i] == 0x23 {
        scan(s, line_end(s, i + 1))
    } else if lexeme(s, i) is Some {
        let (k, j) = lexeme(s, i)->0;
        let span = Span { start: i as usize, end: j as usize };
        let rest = scan(s, j);
        if k == TokenKind::Int && decimal(s.subrange(i, j)) > u64::MAX {
            (rest.0, seq![LexError { kind: LexErrorKind::IntegerTooLarge, span }] + rest.1)
        } else {
            (seq![(k, span)] + rest.0, rest.1)
        }
    } else {
        let j = i + char_width(s, i);
        let span = Span { start: i as usize, end: j as usize };
        let rest = scan(s, j);
        (rest.0, seq![LexError { kind: LexErrorKind::UnexpectedCharacter, span }] + rest.1)
    }
}

pub proof fn lemma_ident_end(s: Seq<u8>, k: int)
    requires
        0 <= k <= s.len(),
    ensures
        k <= ident_end(s, k) <= s.len(),
        forall|m: int| k <= m < ident_end(s, k) ==> is_ident_continue(#[trigger] s[m]),
        ident_end(s, k) < s.len() ==> !is_ident_continue(s[ident_end(s, k)]),
    decreases s.len() - k,
{
    if k < s.len() && is_ident_continue(s[k]) {
        lemma_ident_end(s, k + 1);
    }
}

pub proof fn lemma_digits_end(s: Seq<u8>, k: int)
    requires
        0 <= k <= s.len(),
    ensures
        k <= digits_end(s, k) <= s.len(),
        forall|m: int| k <= m < digits_end(s, k) ==> is_digit(#[trigger] s[m]),
        digits_end(s, k) < s.len() ==> !is_digit(s[digits_end(s, k)]),
    decreases s.len() - k,
{
    if k < s.len() && is_digit(s[k]) {
        lemma_digits_end(s, k + 1);
    }
}

pub proof fn lemma_line_end(s: Seq<u8>, k: int)
    requires
        0 <= k <= s.len(),
    ensures
        k <= line_end(s, k) <= s.len(),
        line_end(s, k) < s.len() ==> s[line_end(s, k)] == 0x0a,
    decreases s.len() - k,
{
    if k < s.len() && s[k] != 0x0a {
        lemma_line_end(s, k + 1);
    }
}

/// A lexeme ends past its start and within the input.
pub proof fn lemma_lexeme_bounds(s: Seq<u8>, i: int)
    requires
        lexeme(s, i) is Some,
    ensures
        i < (lexeme(s, i)->0).1 <= s.len(),
{
    if i + 1 < s.len() && operator_kind(s[i], s[i + 1]) is Some {
    } else if mark_kind(s[i]) is Some {
    } else if is_ident_start(s[i]) {
        lemma_ident_end(s, i + 1);
    } else {
        lemma_digits_end(s, i + 1);
        let j = digits_end(s, i + 1);
        if j + 1 < s.len() && s[j] == 0x2e && is_digit(s[j + 1]) {
            lemma_digits_end(s, j + 2);
        }
    }
}

#[via_fn]
proof fn scan_decreases(s: Seq<u8>, i: int) {
    if 0 <= i < s.len() {
        if !is_space(s[i]) && s[i] == 0x23 {
            lemma_line_end(s, i + 1);
        } else if !is_space(s[i]) && lexeme(s, i) is Some {
            lemma_lexeme_bounds(s, i);
        }
    }
}


proof fn lemma_digits_end_within(s: Seq<u8>, a: int, b: int, k: int)
    requires
        0 <= a <= k <= b <= s.len(),
        digits_end(s, k) <= b,
    ensures
        digits_end(s.subrange(a, b), k - a) == digits_end(s, k) - a,
    decreases b - k,
{
    lemma_digits_end(s, k);
    if k < b && is_digit(s[k]) {
        lemma_digits_end_within(s, a, b, k + 1);
    }
}

proof fn lemma_ident_end_within(s: Seq<u8>, a: int, b: int, k: int)
    requires
        0 <= a <= k <= b <= s.len(),
        ident_end(s, k) <= b,
    ensures
        ident_end(s.subrange(a, b), k - a) == ident_end(s, k) - a,
    decreases b - k,
{
    lemma_ident_end(s, k);
    if k < b && is_ident_continue(s[k]) {
        lemma_ident_end_within(s, a, b, k + 1);
    }
}

/// The text of a lexeme, taken alone, is that same lexeme and nothing more.
proof fn lemma_lexeme_alone(s: Seq<u8>, i: int)
    requires
        lexeme(s, i) is Some,
    ensures
        ({
            let (k, j) = lexeme(s, i)->0;
            lexeme(s.subrange(i, j), 0) == Some((k, j - i))
        }),
{
    lemma_lexeme_bounds(s, i);
    let (k, j) = lexeme(s, i)->0;
    let w = s.subrange(i, j);
    if i + 1 < s.len() && operator_kind(s[i], s[i + 1]) is Some {
        assert(w[0] == s[i] && w[1] == s[i + 1]);
    } else if mark_kind(s[i]) is Some {
        assert(w[0] == s[i]);
    } else if is_ident_start(s[i]) {
        assert(w[0] == s[i]);
        lemma_ident_end(s, i + 1);
        lemma_ident_end_within(s, i, j, i + 1);
        assert(w.subrange(0, j - i) =~= w);
    } else {
        assert(w[0] == s[i]);
        lemma_digits_end(s, i + 1);
        let e = digits_end(s, i + 1);
        if e + 1 < s.len() && s[e] == 0x2e && is_digit(s[e + 1]) {
            lemma_digits_end(s, e + 2);
            lemma_digits_end_within(s, i, j, i + 1);
            lemma_digits_end_within(s, i, j, e + 2);
            assert(w[e - i] == s[e] && w[e - i + 1] == s[e + 1]);
        } else {
            lemma_digits_end_within(s, i, j, i + 1);
        }
    }
}

/// Every token of `scan(s, i)` is a lexeme that starts at or after `i` and, for an
/// integer, one whose value fits in 64 bits.
proof fn lemma_scan_tokens(s: Seq<u8>, i: int)
    requires
        s.len() <= usize::MAX,
        0 <= i,
    ensures
        forall|m: int|
            0 <= m < scan(s, i).0.len() ==> {
                let (k, sp) = #[trigger] scan(s, i).0[m];
                &&& i <= sp.start
                &&& lexeme(s, sp.start as int) == Some((k, sp.end as int))
                &&& !(k == TokenKind::Int && decimal(s.subrange(sp.start as int, sp.end as int)) > u64::MAX)
            },
        forall|m1: int, m2: int|
            0 <= m1 < m2 < scan(s, i).0.len() ==> (#[trigger] scan(s, i).0[m1]).1.end <= (#[trigger] scan(s, i).0[m2]).1.start,
    decreases s.len() - i,
{
    if 0 <= i < s.len() {
        if is_space(s[i]) {
            lemma_scan_tokens(s, i + 1);
        } else if s[i] == 0x23 {
            lemma_line_end(s, i + 1);
            lemma_scan_tokens(s, line_end(s, i + 1));
        } else if lexeme(s, i) is Some {
            lemma_lexeme_bounds(s, i);
            let (k, j) = lexeme(s, i)->0;
            lemma_scan_tokens(s, j);
            let rest = scan(s, j);
            if !(k == TokenKind::Int && decimal(s.subrange(i, j)) > u64::MAX) {
                assert forall|m: int| 0 <= m < scan(s, i).0.len() implies {
                    let (k2, sp) = #[trigger] scan(s, i).0[m];
                    &&& i <= sp.start
                    &&& lexeme(s, sp.start as int) == Some((k2, sp.end as int))
                    &&& !(k2 == TokenKind::Int && decimal(s.subrange(sp.start as int, sp.end as int)) > u64::MAX)
                } by {
                    if m > 0 {
                        assert(scan(s, i).0[m] == rest.0[m - 1]);
                    }
                }
                assert forall|m1: int, m2: int| 0 <= m1 < m2 < scan(s, i).0.len() implies (#[trigger] scan(s, i).0[m1]).1.end <= (#[trigger] scan(s, i).0[m2]).1.start by {
                    assert(scan(s, i).0[m2] == rest.0[m2 - 1]);
                    if m1 > 0 {
                        assert(scan(s, i).0[m1] == rest.0[m1 - 1]);
                    }
                }
            }
        } else {
            let j = i + char_width(s, i);
            lemma_scan_tokens(s, j);
        }
    }
}

/// Lexing exactly the text that a token of `s` covers gives that one token again, with
/// the same kind, and no error.
pub proof fn lemma_relex_token(s: Seq<u8>, m: int)
    requires
        s.len() <= usize::MAX,
        0 <= m < lex(s).0.len(),
    ensures
        ({
            let (k, sp) = lex(s).0[m];
            let w = s.subrange(sp.start as int, sp.end as int);
            lex(w) == (seq![(k, Span { start: 0, end: (sp.end - sp.start) as usize })], Seq::<LexError>::empty())
        }),
{
    lemma_scan_tokens(s, 0);
    let (k, sp) = lex(s).0[m];
    let i = sp.start as int;
    let j = sp.end as int;
    lemma_lexeme_bounds(s, i);
    lemma_lexeme_alone(s, i);
    let w = s.subrange(i, j);
    assert(w.subrange(0, j - i) =~= w);
    assert(!is_space(w[0]) && w[0] != 0x23) by {
        assert(w[0] == s[i]);
    }
    assert(scan(w, j - i) == (Seq::<(TokenKind, Span)>::empty(), Seq::<LexError>::empty()));
    assert(scan(w, 0).0 =~= seq![(k, Span { start: 0, end: (j - i) as usize })]);
    assert(scan(w, 0).1 =~= Seq::<LexError>::empty());
}

/// What the lexer makes of the whole input.
pub open spec fn lex(s: Seq<u8>) -> (Seq<(TokenKind, Span)>, Seq<LexError>) {
    scan(s, 0)
}

/// The kinds and spans of a token sequence.
pub open spec fn kinds_and_spans(ts: Seq<Token>) -> Seq<(TokenKind, Span)> {
    ts.map_values(|t: Token| (t.kind, t.span))
}

/// Each token's text is the part of `s` that its span covers.
pub open spec fn texts_from(ts: Seq<Token>, s: Seq<u8>) -> bool {
    forall|k: int|
        0 <= k < ts.len() ==> {
            let sp = #[trigger] ts[k].span;
            &&& sp.start <= sp.end <= s.len()
            &&& ts[k].text@ == s.subrange(sp.start as int, sp.end as int)
        }
}

/// The tokens that lexing `s` gives, each with the text its span covers.
pub open spec fn tokens_of(s: Seq<u8>) -> Seq<TokenV> {
    lex(s).0.map_values(
        |x: (TokenKind, Span)| TokenV { kind: x.0, span: x.1, text: s.subrange(x.1.start as int, x.1.end as int) },
    )
}

/// Each token's span is well formed, and the tokens come in source order without
/// overlapping.
pub open spec fn ordered_tokens(ts: Seq<TokenV>) -> bool {
    &&& forall|i: int| 0 <= i < ts.len() ==> (#[trigger] ts[i]).span.start <= ts[i].span.end
    &&& forall|i: int, j: int|
        0 <= i < j < ts.len() ==> (#[trigger] ts[i]).span.end <= (#[trigger] ts[j]).span.start
}

/// The tokens that lexing any input gives are in source order, each span well formed.
pub proof fn lemma_tokens_ordered(s: Seq<u8>)
    requires
        s.len() <= usize::MAX,
    ensures
        ordered_tokens(tokens_of(s)),
{
    lemma_scan_tokens(s, 0);
    let ts = tokens_of(s);
    assert forall|i: int| 0 <= i < ts.len() implies (#[trigger] ts[i]).span.start <= ts[i].span.end by {
        let (k, sp) = lex(s).0[i];
        lemma_lexeme_bounds(s, sp.start as int);
    }
    assert forall|i: int, j: int| 0 <= i < j < ts.len() implies (#[trigger] ts[i]).span.end <= (#[trigger] ts[j]).span.start by {
        assert(lex(s).0[i].1.end <= lex(s).0[j].1.start);
    }
}

/// The value of a decimal integer literal, saturated at the largest `u64`.
pub open spec fn int_value(d: Seq<u8>) -> u64 {
    if decimal(d) <= u64::MAX {
        decimal(d) as u64
    } else {
        u64::MAX
    }
}

proof fn lemma_decimal_grows(d: Seq<u8>, k: int)
    requires
        0 <= k <= d.len(),
    ensures
        decimal(d.subrange(0, k)) <= decimal(d),
    decreases d.len() - k,
{
    if k < d.len() {
        lemma_decimal_grows(d, k + 1);
        assert(d.subrange(0, k + 1).drop_last() =~= d.subrange(0, k));
    } else {
        assert(d.subrange(0, k) =~= d);
    }
}

/// The value of the digits `s[i..j]`, where it fits in a `u64`.
pub fn decimal_in(s: &[u8], i: usize, j: usize) -> (r: Option<u64>)
    requires
        i <= j <= s@.len(),
    ensures
        r is Some <==> decimal(s@.subrange(i as int, j as int)) <= u64::MAX,
        r is Some ==> r->0 == decimal(s@.subrange(i as int, j as int)),
{
    let ghost d = s@.subrange(i as int, j as int);
    let mut v: u64 = 0;
    let mut k: usize = i;
    assert(s@.subrange(i as int, i as int) =~= seq![]);
    while k < j
        invariant
            i <= k <= j <= s@.len(),
            d == s@.subrange(i as int, j as int),
            v == decimal(s@.subrange(i as int, k as int)),
        decreases j - k,
    {
        let b = s[k];
        let digit: u64 = if 0x30 <= b && b <= 0x39 { (b - 0x30) as u64 } else { 0 };
        proof {
            assert(s@.subrange(i as int, k + 1).drop_last() =~= s@.subrange(i as int, k as int));
            assert(d.subrange(0, k + 1 - i) =~= s@.subrange(i as int, k + 1));
            lemma_decimal_grows(d, k + 1 - i);
        }
        if v > (u64::MAX - digit) / 10 {
            assert(v * 10 + digit > u64::MAX) by (nonlinear_arith)
                requires
                    v > (u64::MAX - digit) / 10,
                    digit <= 9,
            ;
            return None;
        }
        assert(v * 10 + digit <= u64::MAX) by (nonlinear_arith)
            requires
                v <= (u64::MAX - digit) / 10,
                digit <= 9,
        ;
        v = v * 10 + digit;
        k = k + 1;
    }
    Some(v)
}

fn ident_end_from(s: &[u8], k: usize) -> (j: usize)
    requires
        k <= s@.len(),
    ensures
        j == ident_end(s@, k as int),
{
    let mut j = k;
    while j < s.len() && is_ident_byte(s[j])
        invariant
            k <= j <= s@.len(),
            ident_end(s@, j as int) == ident_end(s@, k as int),
        decreases s@.len() - j,
    {
        j = j + 1;
    }
    j
}

fn digits_end_from(s: &[u8], k: usize) -> (j: usize)
    requires
        k <= s@.len(),
    ensures
        j == digits_end(s@, k as int),
{
    let mut j = k;
    while j < s.len() && 0x30 <= s[j] && s[j] <= 0x39
        invariant
            k <= j <= s@.len(),
            digits_end(s@, j as int) == digits_end(s@, k as int),
        decreases s@.len() - j,
    {
        j = j + 1;
    }
    j
}

fn line_end_from(s: &[u8], k: usize) -> (j: usize)
    requires
        k <= s@.len(),
    ensures
        j == line_end(s@, k as int),
{
    let mut j = k;
    while j < s.len() && s[j] != 0x0a
        invariant
            k <= j <= s@.len(),
            line_end(s@, j as int) == line_end(s@, k as int),
        decreases s@.len() - j,
    {
        j = j + 1;
    }
    j
}

fn is_ident_byte(b: u8) -> (r: bool)
    ensures
        r == is_ident_continue(b),
{
    (0x41 <= b && b <= 0x5a) || (0x61 <= b && b <= 0x7a) || b == 0x5f || (0x30 <= b && b <= 0x39)
}

fn mark_kind_of(b: u8) -> (r: Option<TokenKind>)
    ensures
        r == mark_kind(b),
{
    if b == 0x24 {
        Some(TokenKind::DollarSign)
    } else if b == 0x26 {
        Some(TokenKind::Ampersand)
    } else if b == 0x7c {
        Some(TokenKind::Pipe)
    } else if b == 0x3d {
        Some(TokenKind::Equal)
    } else if b == 0x3a {
        Some(TokenKind::Colon)
    } else if b == 0x3b {
        Some(TokenKind::Semicolon)
    } else if b == 0x2e {
        Some(TokenKind::Period)
    } else if b == 0x2c {
        Some(TokenKind::Comma)
    } else if b == 0x28 {
        Some(TokenKind::OpenParen)
    } else if b == 0x29 {
        Some(TokenKind::CloseParen)
    } else {
        None
    }
}

fn operator_kind_of(a: u8, b: u8) -> (r: Option<TokenKind>)
    ensures
        r == operator_kind(a, b),
{
    if a == 0x2d && b == 0x3e {
        Some(TokenKind::Arrow)
    } else if a == 0x7c && b == 0x3e {
        Some(TokenKind::PipeInto)
    } else if a == 0x3c && b == 0x7c {
        Some(TokenKind::PipeFrom)
    } else {
        None
    }
}

fn word_kind_in(s: &[u8], i: usize, j: usize) -> (r: TokenKind)
    requires
        i <= j <= s@.len(),
    ensures
        r == word_kind(s@.subrange(i as int, j as int)),
{
    let ghost w = s@.subrange(i as int, j as int);
    let n = j - i;
    if n == 3 && s[i] == 0x6c && s[i + 1] == 0x65 && s[i + 2] == 0x74 {
        assert(w =~= seq![0x6cu8, 0x65, 0x74]);
        TokenKind::Let
    } else if n == 2 && s[i] == 0x69 && s[i + 1] == 0x6e {
        assert(w =~= seq![0x69u8, 0x6e]);
        TokenKind::In
    } else if n == 2 && s[i] == 0x69 && s[i + 1] == 0x66 {
        assert(w =~= seq![0x69u8, 0x66]);
        TokenKind::If
    } else if n == 4 && s[i] == 0x74 && s[i + 1] == 0x68 && s[i + 2] == 0x65 && s[i + 3] == 0x6e {
        assert(w =~= seq![0x74u8, 0x68, 0x65, 0x6e]);
        TokenKind::Then
    } else if n == 4 && s[i] == 0x65 && s[i + 1] == 0x6c && s[i + 2] == 0x73 && s[i + 3] == 0x65 {
        assert(w =~= seq![0x65u8, 0x6c, 0x73, 0x65]);
        TokenKind::Else
    } else {
        proof {
            assert(w.len() == n);
            assert(forall|k: int| 0 <= k < n ==> w[k] == s@[i + k]);
            let l1 = seq![0x6cu8, 0x65, 0x74];
            let l2 = seq![0x69u8, 0x6e];
            let l3 = seq![0x69u8, 0x66];
            let l4 = seq![0x74u8, 0x68, 0x65, 0x6e];
            let l5 = seq![0x65u8, 0x6c, 0x73, 0x65];
            assert(l1.len() == 3 && l1[0] == 0x6c && l1[1] == 0x65 && l1[2] == 0x74);
            assert(l2.len() == 2 && l2[0] == 0x69 && l2[1] == 0x6e);
            assert(l3.len() == 2 && l3[0] == 0x69 && l3[1] == 0x66);
            assert(l4.len() == 4 && l4[0] == 0x74 && l4[1] == 0x68 && l4[2] == 0x65 && l4[3] == 0x6e);
            assert(l5.len() == 4 && l5[0] == 0x65 && l5[1] == 0x6c && l5[2] == 0x73 && l5[3] == 0x65);
            if w == l1 {
                assert(w[0] == s@[i as int] && w[1] == s@[i + 1] && w[2] == s@[i + 2]);
            }
            if w == l2 || w == l3 {
                assert(w[0] == s@[i as int] && w[1] == s@[i + 1]);
            }
            if w == l4 || w == l5 {
                assert(w[0] == s@[i as int] && w[1] == s@[i + 1] && w[2] == s@[i + 2] && w[3] == s@[i + 3]);
            }
        }
        TokenKind::Name
    }
}

fn lexeme_at(s: &[u8], i: usize) -> (r: Option<(TokenKind, usize)>)
    requires
        i < s@.len(),
    ensures
        r is Some <==> lexeme(s@, i as int) is Some,
        r is Some ==> (r->0).0 == (lexeme(s@, i as int)->0).0,
        r is Some ==> (r->0).1 == (lexeme(s@, i as int)->0).1,
{
    let n = s.len();
    let b = s[i];
    if i + 1 < n {
        if let Some(k) = operator_kind_of(b, s[i + 1]) {
            return Some((k, i + 2));
        }
    }
    if let Some(k) = mark_kind_of(b) {
        return Some((k, i + 1));
    }
    if (0x41 <= b && b <= 0x5a) || (0x61 <= b && b <= 0x7a) || b == 0x5f {
        let j = ident_end_from(s, i + 1);
        proof {
            lemma_ident_end(s@, i + 1);
        }
        return Some((word_kind_in(s, i, j), j));
    }
    if 0x30 <= b && b <= 0x39 {
        let j = digits_end_from(s, i + 1);
        proof {
            lemma_digits_end(s@, i + 1);
        }
        if j < n && n - j > 1 && s[j] == 0x2e && 0x30 <= s[j + 1] && s[j + 1] <= 0x39 {
            let e = digits_end_from(s, j + 2);
            return Some((TokenKind::Float, e));
        }
        return Some((TokenKind::Int, j));
    }
    None
}

fn char_width_at(s: &[u8], i: usize) -> (w: usize)
    requires
        i < s@.len(),
    ensures
        w == char_width(s@, i as int),
{
    let b = s[i];
    let w: usize = if b >= 0xf0 {
        4
    } else if b >= 0xe0 {
        3
    } else if b >= 0xc0 {
        2
    } else {
        1
    };
    if w <= s.len() - i {
        w
    } else {
        s.len() - i
    }
}

fn copy_range(s: &[u8], i: usize, j: usize) -> (r: Vec<u8>)
    requires
        i <= j <= s@.len(),
    ensures
        r@ == s@.subrange(i as int, j as int),
{
    let mut r: Vec<u8> = Vec::new();
    let mut k = i;
    while k < j
        invariant
            i <= k <= j <= s@.len(),
            r@ == s@.subrange(i as int, k as int),
        decreases j - k,
    {
        r.push(s[k]);
        k = k + 1;
        assert(r@ =~= s@.subrange(i as int, k as int));
    }
    r
}

/// Splits `src` into tokens, skipping blanks and `#` comments. Every lexical error is
/// collected, each past the offending character; the tokens come back only where there
/// is none.
pub fn tokenize(src: &str) -> (r: (Option<Vec<Token>>, Vec<LexError>))
    ensures
        r.1@ == lex(src.spec_bytes()).1,
        r.0 is Some <==> r.1@.len() == 0,
        r.0 is Some ==> kinds_and_spans(r.0->0@) == lex(src.spec_bytes()).0,
        r.0 is Some ==> texts_from(r.0->0@, src.spec_bytes()),
        r.0 is Some ==> token_views(r.0->0@) == tokens_of(src.spec_bytes()),
        r.0 is Some ==> ordered_tokens(token_views(r.0->0@)),
{
    let s = src.as_bytes();
    let ghost g = s@;
    let n = s.len();
    let mut tokens: Vec<Token> = Vec::new();
    let mut errors: Vec<LexError> = Vec::new();
    let mut i: usize = 0;
    while i < n
        invariant
            g == s@,
            n == g.len(),
            i <= n,
            kinds_and_spans(tokens@) + scan(g, i as int).0 == lex(g).0,
            errors@ + scan(g, i as int).1 == lex(g).1,
            texts_from(tokens@, g),
        decreases n - i,
    {
        let b = s[i];
        if b == 0x20 || b == 0x09 || b == 0x0a || b == 0x0d {
            i = i + 1;
        } else if b == 0x23 {
            proof {
                lemma_line_end(g, i + 1);
            }
            i = line_end_from(s, i + 1);
        } else {
            match lexeme_at(s, i) {
                Some((kind, j)) => {
                    proof {
                        lemma_lexeme_bounds(g, i as int);
                    }
                    let span = Span { start: i, end: j };
                    let ghost rest = scan(g, j as int);
                    let too_large = match kind {
                        TokenKind::Int => decimal_in(s, i, j).is_none(),
                        _ => false,
                    };
                    if too_large {
                        let ghost before = errors@;
                        let e = LexError { kind: LexErrorKind::IntegerTooLarge, span };
                        errors.push(e);
                        proof {
                            assert(errors@ + rest.1 =~= before + (seq![e] + rest.1));
                        }
                    } else {
                        let ghost before = tokens@;
                        tokens.push(Token { kind, span, text: copy_range(s, i, j) });
                        proof {
                            assert(kinds_and_spans(tokens@) =~= kinds_and_spans(before).push((kind, span)));
                            assert(kinds_and_spans(tokens@) + rest.0 =~= kinds_and_spans(before) + (seq![(kind, span)] + rest.0));
                        }
                    }
                    i = j;
                }
                None => {
                    let w = char_width_at(s, i);
                    let span = Span { start: i, end: i + w };
                    let ghost before = errors@;
                    let ghost rest = scan(g, i + w);
                    let e = LexError { kind: LexErrorKind::UnexpectedCharacter, span };
                    errors.push(e);
                    proof {
                        assert(errors@ + rest.1 =~= before + (seq![e] + rest.1));
                    }
                    i = i + w;
                }
            }
        }
    }
    proof {
        assert(scan(g, i as int).0 =~= seq![]);
        assert(kinds_and_spans(tokens@) =~= lex(g).0);
        assert(token_views(tokens@) =~= tokens_of(g)) by {
            assert forall|k: int| 0 <= k < tokens@.len() implies #[trigger] token_views(tokens@)[k] == tokens_of(g)[k] by {
                assert(kinds_and_spans(tokens@)[k] == lex(g).0[k]);
            }
        }
    }
    proof {
        lemma_tokens_ordered(g);
    }
    if errors.len() == 0 {
        (Some(tokens), errors)
    } else {
        (None, errors)
    }
}

} // verus!
