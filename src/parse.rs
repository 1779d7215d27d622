//! Syntax parser
//!
//! Reads one expression from the front of the tokens of a source text
//! by recursive descent with one token of lookahead.

use vstd::prelude::*;
use vstd::utf8::{decode_utf8, encode_utf8_decode_utf8};
use vstd::string::StringSliceAdditionalSpecFns;
use crate::ast::{
    Expr, Token, TokenKind, all_well_formed, define_keyword, expr_tokens, if_keyword,
    lemma_all_well_formed, lemma_expr_shape, lemma_list_tokens_one, lemma_list_tokens_split,
    list_tokens, names, well_formed,
};
use crate::lex::{
    Lex, digits_value, is_digit, lemma_lexemes_shape, lemma_munch_end, lexemes_from,
    literals_fit, token_of, tokenise, tokenises_to,
};
use crate::text::lemma_byte_range;

verus! {

broadcast use vstd::seq::group_seq_axioms, vstd::seq_lib::group_seq_properties;

/// Why source text could not be parsed.
#[derive(Clone, Copy, Debug, PartialEq, Eq, Structural)]
pub enum ParseError {
    /// A number literal does not fit in an `i64`.
    NumberTooLarge,
    /// The tokens do not begin with an expression of the grammar.
    Malformed,
}

/// `part` stands in `toks` from position `pos` on.
pub open spec fn at(toks: Seq<Token>, pos: int, part: Seq<Token>) -> bool {
    &&& 0 <= pos
    &&& pos + part.len() <= toks.len()
    &&& toks.subrange(pos, pos + part.len()) == part
}

/// The tokens of `cs` begin with `part`.
pub open spec fn begins_with_tokens(cs: Seq<char>, part: Seq<Token>) -> bool {
    let lx = lexemes_from(cs, 0);
    &&& part.len() <= lx.len()
    &&& forall|k: int| 0 <= k < part.len() ==> token_of(#[trigger] part[k], cs, lx[k])
}

/// `e` is the expression that parsing `cs` gives: a well-formed tree
/// whose tokens are the first tokens of `cs`.
pub open spec fn parsed_from(cs: Seq<char>, e: Expr) -> bool {
    well_formed(e) && begins_with_tokens(cs, expr_tokens(e))
}

/// The characters that a token of kind `kind` is written with.
pub open spec fn spells(kind: TokenKind, text: Seq<char>) -> bool {
    match kind {
        TokenKind::LeftBracket => text == seq!['('],
        TokenKind::RightBracket => text == seq![')'],
        TokenKind::Number(n) => {
            &&& text.len() > 0
            &&& forall|i: int| 0 <= i < text.len() ==> is_digit(#[trigger] text[i])
            &&& digits_value(text) == n
        },
        TokenKind::Symbol(s) => s@ == text,
    }
}

/// Span fidelity: cutting the span of each token of a parsed tree out of
/// the source bytes gives back exactly the text of that token.
pub proof fn lemma_span_fidelity(source: &str, e: Expr)
    requires
        parsed_from(source@, e),
    ensures
        forall|k: int|
            0 <= k < expr_tokens(e).len() ==> {
                let t = #[trigger] expr_tokens(e)[k];
                &&& 1 <= t.span.start <= t.span.end <= source.spec_bytes().len() + 1
                &&& spells(
                    t.kind,
                    decode_utf8(source.spec_bytes().subrange(t.span.start - 1, t.span.end - 1)),
                )
            },
{
    let cs = source@;
    let part = expr_tokens(e);
    let lxs = lexemes_from(cs, 0);
    lemma_lexemes_shape(cs, 0);
    assert forall|k: int| 0 <= k < part.len() implies {
        let t = #[trigger] part[k];
        &&& 1 <= t.span.start <= t.span.end <= source.spec_bytes().len() + 1
        &&& spells(
            t.kind,
            decode_utf8(source.spec_bytes().subrange(t.span.start - 1, t.span.end - 1)),
        )
    } by {
        let t = part[k];
        let lx = lxs[k];
        assert(token_of(t, cs, lx));
        let text = cs.subrange(lx.start, lx.end);
        lemma_byte_range(cs, lx.start, lx.end);
        lemma_byte_range(cs, lx.end, cs.len() as int);
        assert(cs.subrange(0, cs.len() as int) =~= cs);
        encode_utf8_decode_utf8(text);
        lemma_munch_end(cs, lx.kind, lx.start + 1);
        if lx.kind == Lex::Open || lx.kind == Lex::Close {
            assert(lx.end == lx.start + 1);
            assert(text =~= seq![cs[lx.start]]);
        }
        if lx.kind == Lex::Digits {
            assert forall|i: int| 0 <= i < text.len() implies is_digit(#[trigger] text[i]) by {
                assert(text[i] == cs[lx.start + i]);
            }
        }
    }
}

proof fn lemma_at_concat(toks: Seq<Token>, pos: int, a: Seq<Token>, b: Seq<Token>)
    requires
        at(toks, pos, a),
        at(toks, pos + a.len(), b),
    ensures
        at(toks, pos, a + b),
{
    assert(toks.subrange(pos, pos + (a + b).len()) =~= a + b);
}

proof fn lemma_at_one(toks: Seq<Token>, pos: int)
    requires
        0 <= pos < toks.len(),
    ensures
        at(toks, pos, seq![toks[pos]]),
{
    assert(toks.subrange(pos, pos + 1) =~= seq![toks[pos]]);
}

proof fn lemma_at_split(toks: Seq<Token>, pos: int, a: Seq<Token>, b: Seq<Token>)
    requires
        at(toks, pos, a + b),
    ensures
        at(toks, pos, a),
        at(toks, pos + a.len(), b),
{
    let whole = toks.subrange(pos, pos + (a + b).len());
    assert(toks.subrange(pos, pos + a.len()) =~= whole.subrange(0, a.len() as int));
    assert(toks.subrange(pos + a.len(), pos + a.len() + b.len()) =~= whole.subrange(
        a.len() as int,
        (a + b).len() as int,
    ));
    assert((a + b).subrange(0, a.len() as int) =~= a);
    assert((a + b).subrange(a.len() as int, (a + b).len() as int) =~= b);
}

/// A non-empty list's tokens are those of its head, then its tail's.
proof fn lemma_list_front(es: Seq<Expr>)
    requires
        es.len() > 0,
    ensures
        list_tokens(es) == expr_tokens(es[0]) + list_tokens(es.subrange(1, es.len() as int)),
{
    lemma_list_tokens_split(es, 1);
    assert(es.subrange(0, 1) =~= seq![es[0]]);
    lemma_list_tokens_one(es[0]);
}

/// The grammar leaves no choice: two well-formed expressions that both
/// stand at the same place in a token sequence are made of the same
/// tokens.
proof fn lemma_prefix_free(e1: Expr, e2: Expr, toks: Seq<Token>, p: int)
    requires
        well_formed(e1),
        well_formed(e2),
        at(toks, p, expr_tokens(e1)),
        at(toks, p, expr_tokens(e2)),
    ensures
        expr_tokens(e1) == expr_tokens(e2),
    decreases e1,
{
    lemma_expr_shape(e1);
    lemma_expr_shape(e2);
    let t1 = expr_tokens(e1);
    let t2 = expr_tokens(e2);
    assert(t1[0] == toks[p]);
    assert(t2[0] == toks[p]);
    assert(if_keyword().len() == 2);
    assert(define_keyword().len() == 6);
    if e1 is Symbol || e1 is Number || e2 is Symbol || e2 is Number {
        assert(t1 =~= t2);
    } else {
        assert(t1[1] == toks[p + 1]);
        assert(t2[1] == toks[p + 1]);
        match (e1, e2) {
            (Expr::If(o, k, c, t, f, cl), Expr::If(o2, k2, c2, tt2, f2, cl2)) => {
                let a = seq![o, k];
                lemma_at_split(toks, p, a + expr_tokens(*c) + expr_tokens(*t) + expr_tokens(*f), seq![cl]);
                lemma_at_split(toks, p, a + expr_tokens(*c) + expr_tokens(*t), expr_tokens(*f));
                lemma_at_split(toks, p, a + expr_tokens(*c), expr_tokens(*t));
                lemma_at_split(toks, p, a, expr_tokens(*c));
                let b = seq![o2, k2];
                lemma_at_split(toks, p, b + expr_tokens(*c2) + expr_tokens(*tt2) + expr_tokens(*f2), seq![cl2]);
                lemma_at_split(toks, p, b + expr_tokens(*c2) + expr_tokens(*tt2), expr_tokens(*f2));
                lemma_at_split(toks, p, b + expr_tokens(*c2), expr_tokens(*tt2));
                lemma_at_split(toks, p, b, expr_tokens(*c2));
                assert(a =~= b);
                lemma_prefix_free(*c, *c2, toks, p + 2);
                lemma_prefix_free(*t, *tt2, toks, p + 2 + expr_tokens(*c).len());
                lemma_prefix_free(*f, *f2, toks, p + 2 + expr_tokens(*c).len() + expr_tokens(*t).len());
                assert(seq![cl] =~= seq![cl2]);
            },
            (Expr::Define(o, k, target, v, cl), Expr::Define(o2, k2, target2, v2, cl2)) => {
                let a = seq![o, k, target];
                lemma_at_split(toks, p, a + expr_tokens(*v), seq![cl]);
                lemma_at_split(toks, p, a, expr_tokens(*v));
                let b = seq![o2, k2, target2];
                lemma_at_split(toks, p, b + expr_tokens(*v2), seq![cl2]);
                lemma_at_split(toks, p, b, expr_tokens(*v2));
                assert(a[2] == toks[p + 2]);
                assert(b[2] == toks[p + 2]);
                assert(a =~= b);
                lemma_prefix_free(*v, *v2, toks, p + 3);
                assert(seq![cl] =~= seq![cl2]);
            },
            (Expr::Call(o, h, args, cl), Expr::Call(o2, h2, args2, cl2)) => {
                assert(decreases_to!(args => args@));
                let a = seq![o, h];
                lemma_at_split(toks, p, a + list_tokens(args@), seq![cl]);
                lemma_at_split(toks, p, a, list_tokens(args@));
                let b = seq![o2, h2];
                lemma_at_split(toks, p, b + list_tokens(args2@), seq![cl2]);
                lemma_at_split(toks, p, b, list_tokens(args2@));
                assert(a =~= b);
                let x1 = p + 2 + list_tokens(args@).len();
                let x2 = p + 2 + list_tokens(args2@).len();
                assert(toks.subrange(x1, x1 + 1)[0] == toks[x1]);
                assert(toks.subrange(x2, x2 + 1)[0] == toks[x2]);
                lemma_list_prefix_free(args@, args2@, toks, p + 2);
                assert(seq![cl] =~= seq![cl2]);
            },
            _ => {},
        }
    }
}

/// Two lists of well-formed expressions that each stand at the same
/// place, and are each followed by `)`, are made of the same tokens.
proof fn lemma_list_prefix_free(a1: Seq<Expr>, a2: Seq<Expr>, toks: Seq<Token>, q: int)
    requires
        all_well_formed(a1),
        all_well_formed(a2),
        at(toks, q, list_tokens(a1)),
        at(toks, q, list_tokens(a2)),
        q + list_tokens(a1).len() < toks.len(),
        toks[q + list_tokens(a1).len()].kind is RightBracket,
        q + list_tokens(a2).len() < toks.len(),
        toks[q + list_tokens(a2).len()].kind is RightBracket,
    ensures
        list_tokens(a1) == list_tokens(a2),
    decreases a1,
{
    lemma_all_well_formed(a1);
    lemma_all_well_formed(a2);
    if a1.len() == 0 && a2.len() == 0 {
        assert(list_tokens(a1) =~= list_tokens(a2));
    } else if a1.len() == 0 || a2.len() == 0 {
        let a = if a1.len() == 0 { a2 } else { a1 };
        let other = if a1.len() == 0 { a1 } else { a2 };
        assert(list_tokens(other) =~= Seq::<Token>::empty());
        lemma_list_front(a);
        lemma_at_split(toks, q, expr_tokens(a[0]), list_tokens(a.subrange(1, a.len() as int)));
        lemma_expr_shape(a[0]);
        assert(expr_tokens(a[0])[0] == toks[q]);
    } else {
        let r1 = a1.subrange(1, a1.len() as int);
        let r2 = a2.subrange(1, a2.len() as int);
        lemma_list_front(a1);
        lemma_list_front(a2);
        lemma_at_split(toks, q, expr_tokens(a1[0]), list_tokens(r1));
        lemma_at_split(toks, q, expr_tokens(a2[0]), list_tokens(r2));
        assert(decreases_to!(a1 => a1[0]));
        lemma_prefix_free(a1[0], a2[0], toks, q);
        lemma_all_well_formed(r1);
        lemma_all_well_formed(r2);
        assert forall|i: int| 0 <= i < r1.len() implies well_formed(#[trigger] r1[i]) by {
            assert(r1[i] == a1[i + 1]);
        }
        assert forall|i: int| 0 <= i < r2.len() implies well_formed(#[trigger] r2[i]) by {
            assert(r2[i] == a2[i + 1]);
        }
        assert(decreases_to!(a1 => r1));
        lemma_list_prefix_free(r1, r2, toks, q + expr_tokens(a1[0]).len());
    }
}

/// Some well-formed expression stands in `toks` at position `pos`.
pub open spec fn expr_at(toks: Seq<Token>, pos: int) -> bool {
    exists|e: Expr| well_formed(e) && #[trigger] at(toks, pos, expr_tokens(e))
}

/// No expression starts past the end, or at a `)`.
proof fn lemma_no_expr_at(toks: Seq<Token>, pos: int)
    requires
        0 <= pos,
        pos >= toks.len() || toks[pos].kind is RightBracket,
    ensures
        !expr_at(toks, pos),
{
    if expr_at(toks, pos) {
        let e = choose|e: Expr| well_formed(e) && #[trigger] at(toks, pos, expr_tokens(e));
        lemma_expr_shape(e);
        assert(expr_tokens(e)[0] == toks.subrange(pos, pos + expr_tokens(e).len())[0]);
    }
}

/// An expression at a `(` is a form: a symbol follows the bracket.
proof fn lemma_form_head(toks: Seq<Token>, open_at: int, e: Expr)
    requires
        well_formed(e),
        at(toks, open_at, expr_tokens(e)),
        toks[open_at].kind is LeftBracket,
    ensures
        !(e is Symbol || e is Number),
        open_at + 1 < toks.len(),
        toks[open_at + 1] == expr_tokens(e)[1],
        toks[open_at + 1].kind is Symbol,
{
    lemma_expr_shape(e);
    let ts = expr_tokens(e);
    assert(ts[0] == toks.subrange(open_at, open_at + ts.len())[0]);
    assert(ts[1] == toks.subrange(open_at, open_at + ts.len())[1]);
}

/// Where an `if` form stands at `open_at`, its three parts and its `)`.
proof fn lemma_if_parts(toks: Seq<Token>, open_at: int, e: Expr)
    requires
        well_formed(e),
        at(toks, open_at, expr_tokens(e)),
        toks[open_at].kind is LeftBracket,
        names(toks[open_at + 1], if_keyword()),
    ensures
        match e {
            Expr::If(_, _, c, t, f, _) => {
                let x = open_at + 2 + expr_tokens(*c).len() + expr_tokens(*t).len() + expr_tokens(*f).len();
                &&& well_formed(*c) && well_formed(*t) && well_formed(*f)
                &&& at(toks, open_at + 2, expr_tokens(*c))
                &&& at(toks, open_at + 2 + expr_tokens(*c).len(), expr_tokens(*t))
                &&& at(toks, open_at + 2 + expr_tokens(*c).len() + expr_tokens(*t).len(), expr_tokens(*f))
                &&& x < toks.len()
                &&& toks[x].kind is RightBracket
            },
            _ => false,
        },
{
    lemma_form_head(toks, open_at, e);
    assert(if_keyword().len() == 2);
    assert(define_keyword().len() == 6);
    if let Expr::If(o, k, c, t, f, cl) = e {
        let a = seq![o, k];
        lemma_at_split(toks, open_at, a + expr_tokens(*c) + expr_tokens(*t) + expr_tokens(*f), seq![cl]);
        lemma_at_split(toks, open_at, a + expr_tokens(*c) + expr_tokens(*t), expr_tokens(*f));
        lemma_at_split(toks, open_at, a + expr_tokens(*c), expr_tokens(*t));
        lemma_at_split(toks, open_at, a, expr_tokens(*c));
        let x = open_at + 2 + expr_tokens(*c).len() + expr_tokens(*t).len() + expr_tokens(*f).len();
        assert(toks.subrange(x, x + 1)[0] == toks[x]);
    }
}

/// Where a `define` form stands at `open_at`, its target, value and `)`.
proof fn lemma_define_parts(toks: Seq<Token>, open_at: int, e: Expr)
    requires
        well_formed(e),
        at(toks, open_at, expr_tokens(e)),
        toks[open_at].kind is LeftBracket,
        names(toks[open_at + 1], define_keyword()),
    ensures
        match e {
            Expr::Define(_, _, _, v, _) => {
                let x = open_at + 3 + expr_tokens(*v).len();
                &&& open_at + 2 < toks.len()
                &&& toks[open_at + 2].kind is Symbol
                &&& well_formed(*v)
                &&& at(toks, open_at + 3, expr_tokens(*v))
                &&& x < toks.len()
                &&& toks[x].kind is RightBracket
            },
            _ => false,
        },
{
    lemma_form_head(toks, open_at, e);
    assert(if_keyword().len() == 2);
    assert(define_keyword().len() == 6);
    if let Expr::Define(o, k, target, v, cl) = e {
        let a = seq![o, k, target];
        lemma_at_split(toks, open_at, a + expr_tokens(*v), seq![cl]);
        lemma_at_split(toks, open_at, a, expr_tokens(*v));
        assert(toks.subrange(open_at, open_at + 3)[2] == toks[open_at + 2]);
        let x = open_at + 3 + expr_tokens(*v).len();
        assert(toks.subrange(x, x + 1)[0] == toks[x]);
    }
}

/// Where a call stands at `open_at`, its arguments and its `)`.
proof fn lemma_call_parts(toks: Seq<Token>, open_at: int, e: Expr)
    requires
        well_formed(e),
        at(toks, open_at, expr_tokens(e)),
        toks[open_at].kind is LeftBracket,
        !names(toks[open_at + 1], if_keyword()),
        !names(toks[open_at + 1], define_keyword()),
    ensures
        match e {
            Expr::Call(_, _, args, _) => {
                let x = open_at + 2 + list_tokens(args@).len();
                &&& all_well_formed(args@)
                &&& at(toks, open_at + 2, list_tokens(args@))
                &&& x < toks.len()
                &&& toks[x].kind is RightBracket
            },
            _ => false,
        },
{
    lemma_form_head(toks, open_at, e);
    if let Expr::Call(o, h, args, cl) = e {
        let a = seq![o, h];
        lemma_at_split(toks, open_at, a + list_tokens(args@), seq![cl]);
        lemma_at_split(toks, open_at, a, list_tokens(args@));
        let x = open_at + 2 + list_tokens(args@).len();
        assert(toks.subrange(x, x + 1)[0] == toks[x]);
    }
}

/// One step through the arguments of a call that stands at `open_at` with
/// arguments `h`, when the arguments `a` read so far match its first ones.
proof fn lemma_call_step(toks: Seq<Token>, open_at: int, h: Seq<Expr>, a: Seq<Expr>)
    requires
        0 <= open_at,
        all_well_formed(h),
        at(toks, open_at + 2, list_tokens(h)),
        open_at + 2 + list_tokens(h).len() < toks.len(),
        toks[open_at + 2 + list_tokens(h).len()].kind is RightBracket,
        h.len() >= a.len(),
        list_tokens(h.subrange(0, a.len() as int)) == list_tokens(a),
    ensures
        open_at + 2 + list_tokens(a).len() < toks.len(),
        !(toks[open_at + 2 + list_tokens(a).len()].kind is RightBracket) ==> {
            let k = a.len() as int;
            &&& h.len() > k
            &&& well_formed(h[k])
            &&& at(toks, open_at + 2 + list_tokens(a).len(), expr_tokens(h[k]))
            &&& list_tokens(h.subrange(0, k + 1)) == list_tokens(a) + expr_tokens(h[k])
        },
{
    let k = a.len() as int;
    let n = h.len() as int;
    lemma_list_tokens_split(h, k);
    let rest = h.subrange(k, n);
    lemma_at_split(toks, open_at + 2, list_tokens(h.subrange(0, k)), list_tokens(rest));
    if k < n {
        lemma_list_front(rest);
        assert(rest[0] == h[k]);
        lemma_at_split(toks, open_at + 2 + list_tokens(a).len(), expr_tokens(h[k]), list_tokens(
            rest.subrange(1, rest.len() as int),
        ));
        lemma_all_well_formed(h);
        let pre = h.subrange(0, k + 1);
        assert(pre.drop_last() =~= h.subrange(0, k));
        assert(pre.last() == h[k]);
    } else {
        assert(rest =~= Seq::<Expr>::empty());
        assert(list_tokens(h) =~= list_tokens(h.subrange(0, k)));
    }
}

/// Whether two strings hold the same characters.
fn same_text(a: &str, b: &str) -> (r: bool)
    ensures
        r == (a@ == b@),
{
    let n = a.unicode_len();
    if n != b.unicode_len() {
        return false;
    }
    let mut i: usize = 0;
    while i < n
        invariant
            n == a@.len(),
            n == b@.len(),
            0 <= i <= n,
            a@.subrange(0, i as int) == b@.subrange(0, i as int),
        decreases n - i,
    {
        if a.get_char(i) != b.get_char(i) {
            return false;
        }
        proof {
            assert(a@.subrange(0, i + 1) =~= a@.subrange(0, i as int).push(a@[i as int]));
            assert(b@.subrange(0, i + 1) =~= b@.subrange(0, i as int).push(b@[i as int]));
        }
        i = i + 1;
    }
    proof {
        assert(a@ =~= a@.subrange(0, n as int));
        assert(b@ =~= b@.subrange(0, n as int));
    }
    true
}

/// Parser state: the tokens and the position of the next one to read.
struct ParseState {
    tokens: Vec<Token>,
    pos: usize,
}

impl ParseState {
    /// Parse one expression from the current position on.
    fn parse_expr(&mut self) -> (r: Result<Expr, ParseError>)
        requires
            old(self).pos <= old(self).tokens.len(),
        ensures
            final(self).tokens@ == old(self).tokens@,
            final(self).pos <= final(self).tokens.len(),
            match r {
                Ok(e) => {
                    &&& well_formed(e)
                    &&& at(old(self).tokens@, old(self).pos as int, expr_tokens(e))
                    &&& final(self).pos == old(self).pos + expr_tokens(e).len()
                    &&& final(self).pos > old(self).pos
                },
                Err(err) => err == ParseError::Malformed && !expr_at(
                    old(self).tokens@,
                    old(self).pos as int,
                ),
            },
        decreases old(self).tokens.len() - old(self).pos, 1int,
    {
        if self.pos >= self.tokens.len() {
            proof {
                lemma_no_expr_at(self.tokens@, self.pos as int);
            }
            return Err(ParseError::Malformed);
        }
        let token = self.tokens[self.pos].duplicate();
        proof {
            lemma_at_one(self.tokens@, self.pos as int);
        }
        self.pos = self.pos + 1;
        match &token.kind {
            TokenKind::LeftBracket => self.parse_form(token),
            TokenKind::RightBracket => {
                proof {
                    lemma_no_expr_at(self.tokens@, self.pos - 1);
                }
                Err(ParseError::Malformed)
            },
            TokenKind::Number(n) => {
                let n = *n;
                Ok(Expr::Number(token, n))
            },
            TokenKind::Symbol(s) => {
                let name = s.clone();
                Ok(Expr::Symbol(token, name))
            },
        }
    }

    /// Parse the rest of a form whose opening bracket `open` has just
    /// been read.
    fn parse_form(&mut self, open: Token) -> (r: Result<Expr, ParseError>)
        requires
            1 <= old(self).pos <= old(self).tokens.len(),
            old(self).tokens@[old(self).pos - 1] == open,
            open.kind is LeftBracket,
        ensures
            final(self).tokens@ == old(self).tokens@,
            final(self).pos <= final(self).tokens.len(),
            match r {
                Ok(e) => {
                    &&& well_formed(e)
                    &&& at(old(self).tokens@, old(self).pos - 1, expr_tokens(e))
                    &&& final(self).pos == old(self).pos - 1 + expr_tokens(e).len()
                    &&& final(self).pos > old(self).pos
                },
                Err(err) => err == ParseError::Malformed && !expr_at(
                    old(self).tokens@,
                    old(self).pos - 1,
                ),
            },
        decreases old(self).tokens.len() - old(self).pos, 0int,
    {
        let ghost toks = self.tokens@;
        let ghost open_at = self.pos - 1;
        let ghost hyp = choose|e: Expr| well_formed(e) && #[trigger] at(toks, open_at, expr_tokens(e));
        proof {
            lemma_at_one(toks, open_at);
            if expr_at(toks, open_at) {
                lemma_form_head(toks, open_at, hyp);
            }
        }
        if self.pos >= self.tokens.len() {
            return Err(ParseError::Malformed);
        }
        let head = self.tokens[self.pos].duplicate();
        proof {
            lemma_at_one(toks, open_at + 1);
            lemma_at_concat(toks, open_at, seq![open], seq![head]);
            assert(seq![open] + seq![head] =~= seq![open, head]);
        }
        let (is_if, is_define) = match &head.kind {
            TokenKind::Symbol(sym) => {
                let a = same_text(sym.as_str(), "if");
                let b = same_text(sym.as_str(), "define");
                proof {
                    reveal_strlit("if");
                    reveal_strlit("define");
                    assert("if"@ =~= if_keyword());
                    assert("define"@ =~= define_keyword());
                }
                (a, b)
            },
            _ => {
                return Err(ParseError::Malformed);
            },
        };
        self.pos = self.pos + 1;
        if is_if {
            proof {
                if expr_at(toks, open_at) {
                    lemma_if_parts(toks, open_at, hyp);
                }
            }
            let cond = match self.parse_expr() {
                Ok(e) => e,
                Err(err) => return Err(err),
            };
            proof {
                if expr_at(toks, open_at) {
                    lemma_prefix_free(cond, *hyp->If_2, toks, open_at + 2);
                }
            }
            let then = match self.parse_expr() {
                Ok(e) => e,
                Err(err) => return Err(err),
            };
            proof {
                if expr_at(toks, open_at) {
                    lemma_prefix_free(then, *hyp->If_3, toks, open_at + 2 + expr_tokens(cond).len());
                }
            }
            let elze = match self.parse_expr() {
                Ok(e) => e,
                Err(err) => return Err(err),
            };
            proof {
                if expr_at(toks, open_at) {
                    lemma_prefix_free(
                        elze,
                        *hyp->If_4,
                        toks,
                        open_at + 2 + expr_tokens(cond).len() + expr_tokens(then).len(),
                    );
                }
            }
            if self.pos >= self.tokens.len() {
                return Err(ParseError::Malformed);
            }
            let close = self.tokens[self.pos].duplicate();
            if !matches!(close.kind, TokenKind::RightBracket) {
                return Err(ParseError::Malformed);
            }
            proof {
                lemma_at_one(toks, self.pos as int);
                let a = seq![open, head];
                let b = a + expr_tokens(cond);
                let c = b + expr_tokens(then);
                let d = c + expr_tokens(elze);
                lemma_at_concat(toks, open_at, a, expr_tokens(cond));
                lemma_at_concat(toks, open_at, b, expr_tokens(then));
                lemma_at_concat(toks, open_at, c, expr_tokens(elze));
                lemma_at_concat(toks, open_at, d, seq![close]);
            }
            self.pos = self.pos + 1;
            Ok(Expr::If(open, head, Box::new(cond), Box::new(then), Box::new(elze), close))
        } else if is_define {
            proof {
                if expr_at(toks, open_at) {
                    lemma_define_parts(toks, open_at, hyp);
                }
            }
            if self.pos >= self.tokens.len() {
                return Err(ParseError::Malformed);
            }
            let target = self.tokens[self.pos].duplicate();
            if !matches!(target.kind, TokenKind::Symbol(_)) {
                return Err(ParseError::Malformed);
            }
            proof {
                lemma_at_one(toks, self.pos as int);
                lemma_at_concat(toks, open_at, seq![open, head], seq![target]);
                assert(seq![open, head] + seq![target] =~= seq![open, head, target]);
            }
            self.pos = self.pos + 1;
            let value = match self.parse_expr() {
                Ok(e) => e,
                Err(err) => return Err(err),
            };
            proof {
                if expr_at(toks, open_at) {
                    lemma_prefix_free(value, *hyp->Define_3, toks, open_at + 3);
                }
            }
            if self.pos >= self.tokens.len() {
                return Err(ParseError::Malformed);
            }
            let close = self.tokens[self.pos].duplicate();
            if !matches!(close.kind, TokenKind::RightBracket) {
                return Err(ParseError::Malformed);
            }
            proof {
                lemma_at_one(toks, self.pos as int);
                let a = seq![open, head, target];
                lemma_at_concat(toks, open_at, a, expr_tokens(value));
                lemma_at_concat(toks, open_at, a + expr_tokens(value), seq![close]);
            }
            self.pos = self.pos + 1;
            Ok(Expr::Define(open, head, target, Box::new(value), close))
        } else {
            let ghost h = hyp->Call_2@;
            proof {
                if expr_at(toks, open_at) {
                    lemma_call_parts(toks, open_at, hyp);
                }
            }
            let mut args: Vec<Expr> = Vec::new();
            proof {
                assert(list_tokens(args@) =~= Seq::<Token>::empty());
                assert(seq![open, head] + list_tokens(args@) =~= seq![open, head]);
                assert(h.subrange(0, 0) =~= Seq::<Expr>::empty());
            }
            loop
                invariant
                    toks == old(self).tokens@,
                    open_at == old(self).pos - 1,
                    self.tokens@ == toks,
                    open_at + 2 <= self.pos <= toks.len(),
                    all_well_formed(args@),
                    at(toks, open_at, seq![open, head] + list_tokens(args@)),
                    self.pos == open_at + 2 + list_tokens(args@).len(),
                    expr_at(toks, open_at) ==> {
                        &&& all_well_formed(h)
                        &&& at(toks, open_at + 2, list_tokens(h))
                        &&& open_at + 2 + list_tokens(h).len() < toks.len()
                        &&& toks[open_at + 2 + list_tokens(h).len()].kind is RightBracket
                        &&& h.len() >= args.len()
                        &&& list_tokens(h.subrange(0, args.len() as int)) == list_tokens(args@)
                    },
                ensures
                    self.tokens@ == toks,
                    open_at + 2 <= self.pos < toks.len(),
                    toks[self.pos as int].kind is RightBracket,
                    all_well_formed(args@),
                    at(toks, open_at, seq![open, head] + list_tokens(args@)),
                    self.pos == open_at + 2 + list_tokens(args@).len(),
                decreases self.tokens.len() - self.pos,
            {
                proof {
                    if expr_at(toks, open_at) {
                        lemma_call_step(toks, open_at, h, args@);
                    }
                }
                if self.pos >= self.tokens.len() {
                    return Err(ParseError::Malformed);
                }
                if matches!(self.tokens[self.pos].kind, TokenKind::RightBracket) {
                    break;
                }
                let arg = match self.parse_expr() {
                    Ok(e) => e,
                    Err(err) => return Err(err),
                };
                proof {
                    let before = args@;
                    lemma_at_concat(toks, open_at, seq![open, head] + list_tokens(before), expr_tokens(arg));
                    assert(before.push(arg).drop_last() =~= before);
                    assert(seq![open, head] + list_tokens(before.push(arg)) =~= seq![open, head]
                        + list_tokens(before) + expr_tokens(arg));
                    if expr_at(toks, open_at) {
                        let k = before.len() as int;
                        lemma_prefix_free(arg, h[k], toks, open_at + 2 + list_tokens(before).len());
                    }
                }
                args.push(arg);
            }
            let close = self.tokens[self.pos].duplicate();
            proof {
                lemma_at_one(toks, self.pos as int);
                lemma_at_concat(toks, open_at, seq![open, head] + list_tokens(args@), seq![close]);
            }
            self.pos = self.pos + 1;
            Ok(Expr::Call(open, head, args, close))
        }
    }
}

/// Parse source text into a syntax tree.
///
/// The text is tokenised, then one expression is read from the front of
/// the tokens; any tokens after it are left unread.
pub fn parse(source: &str) -> (r: Result<Expr, ParseError>)
    requires
        source.spec_bytes().len() < u32::MAX,
    ensures
        match r {
            Ok(e) => literals_fit(source@) && parsed_from(source@, e),
            Err(ParseError::NumberTooLarge) => !literals_fit(source@),
            Err(ParseError::Malformed) => literals_fit(source@) && exists|ts: Seq<Token>|
                tokenises_to(source@, ts) && !expr_at(ts, 0),
        },
{
    let tokens = match tokenise(source) {
        Some(ts) => ts,
        None => return Err(ParseError::NumberTooLarge),
    };
    let ghost toks = tokens@;
    let mut state = ParseState { tokens, pos: 0 };
    let r = state.parse_expr();
    proof {
        assert(tokenises_to(source@, toks));
        if r is Ok {
            let e = r->Ok_0;
            let part = expr_tokens(e);
            assert forall|k: int| 0 <= k < part.len() implies token_of(
                #[trigger] part[k],
                source@,
                lexemes_from(source@, 0)[k],
            ) by {
                assert(part[k] == toks.subrange(0, part.len() as int)[k]);
            }
        }
    }
    r
}

} // verus!
