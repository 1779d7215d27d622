//! Syntax tree
//!
//! The language has four kinds of token (`(`, `)`, number literals
//! and symbols) and five expression forms:
//!
//!  * `<symbol>` - reference to the variable `<symbol>`
//!  * `<number>` - a numeric literal
//!  * `(if <cond> <then> <else>)` - conditional expression
//!  * `(define <symbol> <expr>)` - binds a variable to a value
//!  * `(<symbol> <arg>...)` - call of the procedure `<symbol>`
//!
//! Every node keeps the tokens it was built from, so that each node can
//! be traced back to its source text.

use vstd::prelude::*;

verus! {

broadcast use vstd::std_specs::vec::group_vec_axioms, vstd::seq::group_seq_axioms;

/// A location in the source text: a pair of 1-based byte offsets, the
/// first one of the range and the one just past it.
#[derive(Clone, Copy, Debug, PartialEq, Eq, Structural)]
pub struct Span {
    pub start: u32,
    pub end: u32,
}

impl Span {
    /// Create a span running from `start` up to (not including) `end`.
    pub fn new(start: u32, end: u32) -> (r: Span)
        requires
            start <= end,
        ensures
            r.start == start,
            r.end == end,
    {
        Span { start, end }
    }
}

/// A single lexical token in the source text: its kind and where in
/// the text it was found.
#[derive(Debug, PartialEq)]
pub struct Token {
    pub kind: TokenKind,
    pub span: Span,
}

/// Datum for the four kinds of token
#[derive(Debug, PartialEq)]
pub enum TokenKind {
    /// The token is the `(` bracket
    LeftBracket,
    /// The token is the `)` bracket
    RightBracket,
    /// The token is a numeric literal
    Number(i64),
    /// The token is a symbol
    Symbol(String),
}

impl Token {
    /// Create a token with the given `kind` and `span`
    pub fn with_span(kind: TokenKind, span: Span) -> (r: Self)
        ensures
            r.kind == kind,
            r.span == span,
    {
        Token { kind, span }
    }

    /// A copy of this token.
    pub fn duplicate(&self) -> (r: Self)
        ensures
            r == *self,
    {
        let kind = match &self.kind {
            TokenKind::LeftBracket => TokenKind::LeftBracket,
            TokenKind::RightBracket => TokenKind::RightBracket,
            TokenKind::Number(n) => TokenKind::Number(*n),
            TokenKind::Symbol(s) => TokenKind::Symbol(s.clone()),
        };
        Token { kind, span: self.span }
    }
}

/// Syntax expression: one of the expression forms of the language.
#[derive(Debug, PartialEq)]
pub enum Expr {
    /// A direct reference to a variable symbol
    Symbol(Token, String),
    /// A numeric literal
    Number(Token, i64),
    /// A conditional expression: `(`, `if`, condition, then, else, `)`
    If(Token, Token, Box<Expr>, Box<Expr>, Box<Expr>, Token),
    /// A variable definition: `(`, `define`, target, value, `)`
    Define(Token, Token, Token, Box<Expr>, Token),
    /// A procedure call: `(`, callee, arguments, `)`
    Call(Token, Token, Vec<Expr>, Token),
}

/// The tokens an expression was built from, in source order.
pub open spec fn expr_tokens(e: Expr) -> Seq<Token>
    decreases e,
{
    match e {
        Expr::Symbol(t, _) => seq![t],
        Expr::Number(t, _) => seq![t],
        Expr::If(open, kw, c, t, f, close) => seq![open, kw] + expr_tokens(*c) + expr_tokens(*t)
            + expr_tokens(*f) + seq![close],
        Expr::Define(open, kw, target, v, close) => seq![open, kw, target] + expr_tokens(*v)
            + seq![close],
        Expr::Call(open, callee, args, close) => {
            proof {
                assert(decreases_to!(args => args@));
            }
            seq![open, callee] + list_tokens(args@) + seq![close]
        },
    }
}

/// The tokens of a list of expressions, one after the other.
pub open spec fn list_tokens(es: Seq<Expr>) -> Seq<Token>
    decreases es,
{
    if es.len() == 0 {
        seq![]
    } else {
        proof {
            assert(decreases_to!(es => es.last()));
        }
        list_tokens(es.drop_last()) + expr_tokens(es.last())
    }
}

/// `t` is the symbol token spelled `name`.
pub open spec fn names(t: Token, name: Seq<char>) -> bool {
    t.kind is Symbol && t.kind->Symbol_0@ == name
}

pub open spec fn if_keyword() -> Seq<char> {
    seq!['i', 'f']
}

pub open spec fn define_keyword() -> Seq<char> {
    seq!['d', 'e', 'f', 'i', 'n', 'e']
}

/// `e` follows the grammar, and each node agrees with the tokens it
/// holds:
///
/// ```text
/// expr := SYMBOL | NUMBER
///       | '(' 'if' expr expr expr ')'
///       | '(' 'define' SYMBOL expr ')'
///       | '(' SYMBOL expr* ')'
/// ```
///
/// where the callee of a call is neither `if` nor `define`.
pub open spec fn well_formed(e: Expr) -> bool
    decreases e,
{
    match e {
        Expr::Symbol(t, s) => t.kind is Symbol && t.kind->Symbol_0@ == s@,
        Expr::Number(t, n) => t.kind is Number && t.kind->Number_0 == n,
        Expr::If(open, kw, c, t, f, close) => {
            &&& open.kind is LeftBracket
            &&& names(kw, if_keyword())
            &&& well_formed(*c)
            &&& well_formed(*t)
            &&& well_formed(*f)
            &&& close.kind is RightBracket
        },
        Expr::Define(open, kw, target, v, close) => {
            &&& open.kind is LeftBracket
            &&& names(kw, define_keyword())
            &&& target.kind is Symbol
            &&& well_formed(*v)
            &&& close.kind is RightBracket
        },
        Expr::Call(open, callee, args, close) => {
            proof {
                assert(decreases_to!(args => args@));
            }
            &&& open.kind is LeftBracket
            &&& callee.kind is Symbol
            &&& !names(callee, if_keyword())
            &&& !names(callee, define_keyword())
            &&& all_well_formed(args@)
            &&& close.kind is RightBracket
        },
    }
}

/// Every expression of `es` is well formed.
pub open spec fn all_well_formed(es: Seq<Expr>) -> bool
    decreases es,
{
    if es.len() == 0 {
        true
    } else {
        proof {
            assert(decreases_to!(es => es.last()));
        }
        all_well_formed(es.drop_last()) && well_formed(es.last())
    }
}

/// A well-formed expression starts with its first token: a leaf is one
/// symbol or number token, and a form runs from `(` over its keyword or
/// callee to `)`.
pub proof fn lemma_expr_shape(e: Expr)
    requires
        well_formed(e),
    ensures
        expr_tokens(e).len() >= 1,
        e is Symbol ==> expr_tokens(e) == seq![e->Symbol_0] && e->Symbol_0.kind is Symbol,
        e is Number ==> expr_tokens(e) == seq![e->Number_0] && e->Number_0.kind is Number,
        !(e is Symbol || e is Number) ==> {
            let ts = expr_tokens(e);
            &&& ts.len() >= 3
            &&& ts[0].kind is LeftBracket
            &&& ts[1].kind is Symbol
        },
        !(expr_tokens(e)[0].kind is RightBracket),
{
}

/// The tokens of a list split where the list does.
pub proof fn lemma_list_tokens_split(es: Seq<Expr>, k: int)
    requires
        0 <= k <= es.len(),
    ensures
        list_tokens(es) == list_tokens(es.subrange(0, k)) + list_tokens(
            es.subrange(k, es.len() as int),
        ),
    decreases es.len(),
{
    let n = es.len() as int;
    if k == n {
        assert(es.subrange(0, k) =~= es);
        assert(es.subrange(k, n) =~= Seq::<Expr>::empty());
        assert(list_tokens(es) + Seq::<Token>::empty() =~= list_tokens(es));
    } else {
        lemma_list_tokens_split(es.drop_last(), k);
        assert(es.drop_last().subrange(0, k) =~= es.subrange(0, k));
        assert(es.subrange(k, n).drop_last() =~= es.drop_last().subrange(k, n - 1));
        assert(es.subrange(k, n).last() == es.last());
        assert(list_tokens(es) =~= list_tokens(es.subrange(0, k)) + list_tokens(
            es.subrange(k, n),
        ));
    }
}

/// The tokens of a one-expression list are that expression's.
pub proof fn lemma_list_tokens_one(e: Expr)
    ensures
        list_tokens(seq![e]) == expr_tokens(e),
{
    let one = seq![e];
    assert(one.drop_last() =~= Seq::<Expr>::empty());
    assert(one.last() == e);
    assert(list_tokens(one.drop_last()) =~= Seq::<Token>::empty());
    assert(list_tokens(one) == list_tokens(one.drop_last()) + expr_tokens(one.last()));
    assert(Seq::<Token>::empty() + expr_tokens(e) =~= expr_tokens(e));
}

/// A list is well formed when each of its expressions is.
pub proof fn lemma_all_well_formed(es: Seq<Expr>)
    ensures
        all_well_formed(es) <==> forall|i: int| 0 <= i < es.len() ==> well_formed(#[trigger] es[i]),
    decreases es.len(),
{
    if es.len() > 0 {
        lemma_all_well_formed(es.drop_last());
        assert forall|i: int| 0 <= i < es.len() - 1 implies es.drop_last()[i] == es[i] by {}
        if forall|i: int| 0 <= i < es.len() ==> well_formed(#[trigger] es[i]) {
            assert forall|i: int| 0 <= i < es.len() - 1 implies well_formed(
                #[trigger] es.drop_last()[i],
            ) by {
                assert(es.drop_last()[i] == es[i]);
            }
        }
    }
}

} // verus!
