//! Tokeniser
//!
//! Splits source text into tokens with a small deterministic automaton
//! over Unicode scalar values, taking the longest match at each step.

use vstd::prelude::*;
use vstd::utf8::encode_utf8;
use vstd::string::StringSliceAdditionalSpecFns;
use crate::ast::{Span, Token, TokenKind};
use crate::text::{
    byte_offset, is_white, lemma_byte_offset_grows, lemma_byte_offset_step, lemma_byte_range,
    utf8_width, white_space,
};

verus! {

broadcast use vstd::seq::group_seq_axioms, vstd::seq_lib::group_seq_properties;

/// The accepting states of the tokeniser's automaton. Each one, once
/// entered, is kept for as long as the input allows.
#[derive(Clone, Copy, Debug, PartialEq, Eq, Structural)]
pub enum Lex {
    /// `(` seen
    Open,
    /// `)` seen
    Close,
    /// one or more ASCII digits seen
    Digits,
    /// one or more symbol characters seen
    Word,
    /// Unicode whitespace
    Blank,
    /// a comment, from `;` to the end of the line
    Note,
}

pub open spec fn is_digit(c: char) -> bool {
    '0' <= c && c <= '9'
}

/// The characters that may start a symbol.
pub open spec fn is_symbol_char(c: char) -> bool {
    ||| ('a' <= c && c <= 'z')
    ||| ('A' <= c && c <= 'Z')
    ||| c == '!' || c == '%' || c == '&' || c == '*' || c == '+' || c == '-' || c == '.'
    ||| c == '/' || c == ':' || c == '<' || c == '=' || c == '>' || c == '?' || c == '@'
    ||| c == '$' || c == '^'
}

/// The state that the automaton enters from its start state on `c`;
/// `None` when it cannot leave the start state.
pub open spec fn first_state(c: char) -> Option<Lex> {
    if c == '(' {
        Some(Lex::Open)
    } else if c == ')' {
        Some(Lex::Close)
    } else if is_digit(c) {
        Some(Lex::Digits)
    } else if is_symbol_char(c) {
        Some(Lex::Word)
    } else if c == ';' {
        Some(Lex::Note)
    } else if white_space(c) {
        Some(Lex::Blank)
    } else {
        None
    }
}

/// Whether the automaton, in state `st`, takes `c` as part of the
/// current lexeme.
pub open spec fn continues(st: Lex, c: char) -> bool {
    match st {
        Lex::Open | Lex::Close => false,
        Lex::Digits => is_digit(c),
        Lex::Word => is_symbol_char(c) || is_digit(c),
        Lex::Blank => white_space(c),
        Lex::Note => c != '\r' && c != '\n',
    }
}

/// Where the longest run of characters from position `i` that state
/// `st` accepts ends.
pub open spec fn munch_end(cs: Seq<char>, st: Lex, i: int) -> int
    decreases cs.len() - i,
{
    if 0 <= i < cs.len() && continues(st, cs[i]) {
        munch_end(cs, st, i + 1)
    } else {
        i
    }
}

pub proof fn lemma_munch_end(cs: Seq<char>, st: Lex, i: int)
    requires
        0 <= i <= cs.len(),
    ensures
        i <= munch_end(cs, st, i) <= cs.len(),
        forall|k: int| i <= k < munch_end(cs, st, i) ==> continues(st, #[trigger] cs[k]),
    decreases cs.len() - i,
{
    if i < cs.len() && continues(st, cs[i]) {
        lemma_munch_end(cs, st, i + 1);
    }
}

/// A run of characters `start..end` that the automaton accepted in
/// state `kind`.
pub ghost struct Lexeme {
    pub kind: Lex,
    pub start: int,
    pub end: int,
}

/// The lexemes that produce tokens, scanning from position `i`:
/// whitespace and comments are skipped, and scanning stops at the end of
/// the input or at a character that starts no lexeme.
pub open spec fn lexemes_from(cs: Seq<char>, i: int) -> Seq<Lexeme>
    decreases cs.len() - i,
    via lexemes_from_decreases
{
    if 0 <= i < cs.len() {
        match first_state(cs[i]) {
            None => seq![],
            Some(st) => {
                let j = munch_end(cs, st, i + 1);
                if st == Lex::Blank || st == Lex::Note {
                    lexemes_from(cs, j)
                } else {
                    seq![Lexeme { kind: st, start: i, end: j }] + lexemes_from(cs, j)
                }
            },
        }
    } else {
        seq![]
    }
}

#[via_fn]
proof fn lexemes_from_decreases(cs: Seq<char>, i: int) {
    if 0 <= i < cs.len() {
        if let Some(st) = first_state(cs[i]) {
            lemma_munch_end(cs, st, i + 1);
        }
    }
}

/// The value of a run of decimal digits.
pub open spec fn digits_value(s: Seq<char>) -> int
    decreases s.len(),
{
    if s.len() == 0 {
        0
    } else {
        digits_value(s.drop_last()) * 10 + (s.last() as int - '0' as int)
    }
}

/// Token `t` is the one that lexeme `lx` of `cs` gives.
pub open spec fn token_of(t: Token, cs: Seq<char>, lx: Lexeme) -> bool {
    let text = cs.subrange(lx.start, lx.end);
    &&& t.span.start == byte_offset(cs, lx.start) + 1
    &&& t.span.end == byte_offset(cs, lx.end) + 1
    &&& match lx.kind {
        Lex::Open => t.kind is LeftBracket,
        Lex::Close => t.kind is RightBracket,
        Lex::Digits => t.kind is Number && t.kind->Number_0 == digits_value(text),
        Lex::Word => t.kind is Symbol && t.kind->Symbol_0@ == text,
        _ => false,
    }
}

/// Every number literal of `cs` fits in an `i64`.
pub open spec fn literals_fit(cs: Seq<char>) -> bool {
    let lx = lexemes_from(cs, 0);
    forall|k: int|
        0 <= k < lx.len() && (#[trigger] lx[k]).kind == Lex::Digits ==> digits_value(
            cs.subrange(lx[k].start, lx[k].end),
        ) <= i64::MAX
}

/// `ts` is the token sequence of `cs`.
pub open spec fn tokenises_to(cs: Seq<char>, ts: Seq<Token>) -> bool {
    let lx = lexemes_from(cs, 0);
    &&& ts.len() == lx.len()
    &&& forall|k: int| 0 <= k < ts.len() ==> token_of(#[trigger] ts[k], cs, lx[k])
}

fn first_state_of(c: char) -> (r: Option<Lex>)
    ensures
        r == first_state(c),
{
    if c == '(' {
        Some(Lex::Open)
    } else if c == ')' {
        Some(Lex::Close)
    } else if '0' <= c && c <= '9' {
        Some(Lex::Digits)
    } else if symbol_char(c) {
        Some(Lex::Word)
    } else if c == ';' {
        Some(Lex::Note)
    } else if is_white(c) {
        Some(Lex::Blank)
    } else {
        None
    }
}

fn symbol_char(c: char) -> (r: bool)
    ensures
        r == is_symbol_char(c),
{
    ('a' <= c && c <= 'z') || ('A' <= c && c <= 'Z') || c == '!' || c == '%' || c == '&' || c
        == '*' || c == '+' || c == '-' || c == '.' || c == '/' || c == ':' || c == '<' || c == '='
        || c == '>' || c == '?' || c == '@' || c == '$' || c == '^'
}

fn continues_with(st: Lex, c: char) -> (r: bool)
    ensures
        r == continues(st, c),
{
    match st {
        Lex::Open | Lex::Close => false,
        Lex::Digits => '0' <= c && c <= '9',
        Lex::Word => symbol_char(c) || ('0' <= c && c <= '9'),
        Lex::Blank => is_white(c),
        Lex::Note => c != '\r' && c != '\n',
    }
}

/// Split source text into tokens.
///
/// Whitespace and comments give no token; scanning stops silently at the
/// first character that can start no token. `None` when a number literal
/// does not fit in an `i64`.
pub fn tokenise(source: &str) -> (r: Option<Vec<Token>>)
    requires
        source.spec_bytes().len() < u32::MAX,
    ensures
        match r {
            Some(ts) => literals_fit(source@) && tokenises_to(source@, ts@),
            None => !literals_fit(source@),
        },
{
    let ghost cs = source@;
    let n = source.unicode_len();
    let mut result: Vec<Token> = Vec::new();
    let mut i: usize = 0;
    let mut offset: u32 = 0;
    let mut stopped = false;
    let ghost mut done: Seq<Lexeme> = seq![];
    proof {
        assert(cs.subrange(0, 0) =~= Seq::<char>::empty());
        assert(cs.subrange(0, n as int) =~= cs);
    }
    while i < n && !stopped
        invariant
            n == cs.len(),
            cs == source@,
            0 <= i <= n,
            encode_utf8(cs).len() < u32::MAX,
            byte_offset(cs, n as int) == encode_utf8(cs).len(),
            offset == byte_offset(cs, i as int),
            lexemes_from(cs, 0) == done + lexemes_from(cs, i as int),
            stopped ==> lexemes_from(cs, i as int) == Seq::<Lexeme>::empty(),
            result@.len() == done.len(),
            forall|k: int| 0 <= k < done.len() ==> token_of(#[trigger] result@[k], cs, done[k]),
            forall|k: int|
                0 <= k < done.len() && (#[trigger] done[k]).kind == Lex::Digits ==> digits_value(
                    cs.subrange(done[k].start, done[k].end),
                ) <= i64::MAX,
        decreases n - i, if stopped { 0int } else { 1int },
    {
        let c = source.get_char(i);
        let first = first_state_of(c);
        if first.is_none() {
            stopped = true;
        } else {
            let st = first.unwrap();
            proof {
                lemma_byte_offset_step(cs, i as int);
                lemma_byte_range(cs, i as int + 1, n as int);
            }
            let mut j: usize = i + 1;
            let mut end_offset: u32 = offset + utf8_width(c);
            let mut value: i64 = 0;
            let mut too_big = false;
            if st == Lex::Digits {
                value = (c as u32 - '0' as u32) as i64;
                proof {
                    let t = cs.subrange(i as int, j as int);
                    assert(t.drop_last() =~= Seq::<char>::empty());
                    assert(t.last() == c);
                    assert(digits_value(t.drop_last()) == 0);
                    assert(digits_value(t) == c as int - '0' as int);
                }
            }
            loop
                invariant
                    n == cs.len(),
                    cs == source@,
                    i < j <= n,
                    first_state(cs[i as int]) == Some(st),
                    encode_utf8(cs).len() < u32::MAX,
                    byte_offset(cs, n as int) == encode_utf8(cs).len(),
                    end_offset == byte_offset(cs, j as int),
                    munch_end(cs, st, i + 1) == munch_end(cs, st, j as int),
                    st == Lex::Digits ==> if too_big {
                        digits_value(cs.subrange(i as int, j as int)) > i64::MAX
                    } else {
                        value == digits_value(cs.subrange(i as int, j as int)) && value >= 0
                    },
                ensures
                    i < j <= n,
                    end_offset == byte_offset(cs, j as int),
                    j == munch_end(cs, st, i + 1),
                    st == Lex::Digits ==> if too_big {
                        digits_value(cs.subrange(i as int, j as int)) > i64::MAX
                    } else {
                        value == digits_value(cs.subrange(i as int, j as int))
                    },
                decreases n - j,
            {
                if j >= n {
                    break;
                }
                let d = source.get_char(j);
                if !continues_with(st, d) {
                    break;
                }
                proof {
                    lemma_byte_offset_step(cs, j as int);
                    lemma_byte_range(cs, j as int + 1, n as int);
                    let t = cs.subrange(i as int, j as int + 1);
                    assert(t.drop_last() =~= cs.subrange(i as int, j as int));
                    assert(t.last() == d);
                }
                if st == Lex::Digits && !too_big {
                    let digit = (d as u32 - '0' as u32) as i64;
                    match value.checked_mul(10) {
                        Some(m) => match m.checked_add(digit) {
                            Some(v) => {
                                value = v;
                            },
                            None => {
                                too_big = true;
                            },
                        },
                        None => {
                            too_big = true;
                        },
                    }
                }
                end_offset = end_offset + utf8_width(d);
                j = j + 1;
            }
            proof {
                lemma_munch_end(cs, st, i + 1);
                lemma_byte_range(cs, i as int, j as int);
                lemma_byte_range(cs, j as int, n as int);
            }
            let ghost lx = Lexeme { kind: st, start: i as int, end: j as int };
            if st == Lex::Digits && too_big {
                proof {
                    let all = lexemes_from(cs, 0);
                    assert(all[done.len() as int] == lx);
                }
                return None;
            }
            let kind = match st {
                Lex::Open => Some(TokenKind::LeftBracket),
                Lex::Close => Some(TokenKind::RightBracket),
                Lex::Digits => Some(TokenKind::Number(value)),
                Lex::Word => Some(TokenKind::Symbol(source.substring_char(i, j).to_owned())),
                Lex::Blank | Lex::Note => None,
            };
            if let Some(kind) = kind {
                result.push(Token::with_span(kind, Span::new(offset + 1, end_offset + 1)));
                proof {
                    assert(done.push(lx) + lexemes_from(cs, j as int) =~= done + (seq![lx]
                        + lexemes_from(cs, j as int)));
                    done = done.push(lx);
                }
            }
            i = j;
            offset = end_offset;
        }
    }
    proof {
        if !stopped {
            assert(lexemes_from(cs, i as int) == Seq::<Lexeme>::empty());
        }
        assert(lexemes_from(cs, 0) =~= done);
    }
    Some(result)
}

/// Every lexeme scanned from position `i` on lies in the text, after
/// `i`, and is the longest run its state accepts.
pub proof fn lemma_lexemes_shape(cs: Seq<char>, i: int)
    requires
        0 <= i,
    ensures
        forall|k: int|
            0 <= k < lexemes_from(cs, i).len() ==> {
                let lx = #[trigger] lexemes_from(cs, i)[k];
                &&& i <= lx.start < lx.end <= cs.len()
                &&& first_state(cs[lx.start]) == Some(lx.kind)
                &&& lx.end == munch_end(cs, lx.kind, lx.start + 1)
            },
    decreases cs.len() - i,
{
    if 0 <= i < cs.len() {
        if let Some(st) = first_state(cs[i]) {
            let j = munch_end(cs, st, i + 1);
            lemma_munch_end(cs, st, i + 1);
            lemma_lexemes_shape(cs, j);
            let rest = lexemes_from(cs, j);
            if !(st == Lex::Blank || st == Lex::Note) {
                let all = lexemes_from(cs, i);
                assert forall|k: int| 1 <= k < all.len() implies all[k] == rest[k - 1] by {}
            }
        }
    }
}

/// Lexemes come in the order of the text, one after the other.
proof fn lemma_lexemes_ordered(cs: Seq<char>, i: int)
    requires
        0 <= i,
    ensures
        forall|a: int, b: int|
            0 <= a < b < lexemes_from(cs, i).len() ==> (#[trigger] lexemes_from(cs, i)[a]).end
                <= (#[trigger] lexemes_from(cs, i)[b]).start,
    decreases cs.len() - i,
{
    lemma_lexemes_shape(cs, i);
    if 0 <= i < cs.len() {
        if let Some(st) = first_state(cs[i]) {
            let j = munch_end(cs, st, i + 1);
            lemma_munch_end(cs, st, i + 1);
            lemma_lexemes_ordered(cs, j);
            lemma_lexemes_shape(cs, j);
            let rest = lexemes_from(cs, j);
            let all = lexemes_from(cs, i);
            if !(st == Lex::Blank || st == Lex::Note) {
                assert forall|a: int, b: int| 0 <= a < b < all.len() implies (
                #[trigger] all[a]).end <= (#[trigger] all[b]).start by {
                    assert(all[b] == rest[b - 1]);
                    if a > 0 {
                        assert(all[a] == rest[a - 1]);
                    }
                }
            }
        }
    }
}

/// Tokens never overlap: each covers at least one byte, and each ends
/// at or before the start of the next.
pub proof fn lemma_tokens_in_order(source: &str, ts: Seq<Token>)
    requires
        tokenises_to(source@, ts),
    ensures
        forall|k: int| 0 <= k < ts.len() ==> (#[trigger] ts[k]).span.start < ts[k].span.end,
        forall|k: int|
            0 <= k < ts.len() - 1 ==> (#[trigger] ts[k]).span.end <= ts[k + 1].span.start,
{
    let cs = source@;
    let lxs = lexemes_from(cs, 0);
    lemma_lexemes_shape(cs, 0);
    lemma_lexemes_ordered(cs, 0);
    assert forall|k: int| 0 <= k < ts.len() implies (#[trigger] ts[k]).span.start
        < ts[k].span.end by {
        assert(token_of(ts[k], cs, lxs[k]));
        lemma_byte_offset_grows(cs, lxs[k].start, lxs[k].end);
    }
    assert forall|k: int| 0 <= k < ts.len() - 1 implies (#[trigger] ts[k]).span.end
        <= ts[k + 1].span.start by {
        assert(token_of(ts[k], cs, lxs[k]));
        assert(token_of(ts[k + 1], cs, lxs[k + 1]));
        assert(lxs[k].end <= lxs[k + 1].start);
        if lxs[k].end < lxs[k + 1].start {
            lemma_byte_offset_grows(cs, lxs[k].end, lxs[k + 1].start);
        }
    }
}

/// Every position that scanning skips to takes the automaton from
/// state `st` to the same end.
proof fn lemma_munch_across(cs: Seq<char>, st: Lex, i: int, j: int)
    requires
        0 <= i <= j <= cs.len(),
        forall|k: int| i <= k < j ==> continues(st, #[trigger] cs[k]),
    ensures
        munch_end(cs, st, i) == munch_end(cs, st, j),
    decreases j - i,
{
    if i < j {
        lemma_munch_across(cs, st, i + 1, j);
    }
}

/// A comment runs from `;` to the end of its line and gives no token:
/// scanning picks up again at the line break, and a comment that ends
/// the text leaves no token at all.
pub proof fn lemma_comment_line(body: Seq<char>, rest: Seq<char>)
    requires
        forall|i: int| 0 <= i < body.len() ==> #[trigger] body[i] != '\r' && body[i] != '\n',
        rest.len() == 0 || rest[0] == '\r' || rest[0] == '\n',
    ensures
        lexemes_from(seq![';'] + body + rest, 0) == lexemes_from(
            seq![';'] + body + rest,
            1 + body.len() as int,
        ),
        lexemes_from(seq![';'] + body, 0).len() == 0,
{
    let cs = seq![';'] + body + rest;
    let n = 1 + body.len() as int;
    assert forall|k: int| 1 <= k < n implies continues(Lex::Note, #[trigger] cs[k]) by {
        assert(cs[k] == body[k - 1]);
    }
    lemma_munch_across(cs, Lex::Note, 1, n);
    assert(cs[0] == ';');
    assert(munch_end(cs, Lex::Note, n) == n);
    let line = seq![';'] + body;
    assert forall|k: int| 1 <= k < n implies continues(Lex::Note, #[trigger] line[k]) by {
        assert(line[k] == body[k - 1]);
    }
    lemma_munch_across(line, Lex::Note, 1, n);
    assert(line[0] == ';');
    assert(lexemes_from(line, n) == Seq::<Lexeme>::empty());
}

/// A run of decimal digits whose value fits in an `i64` is exactly one
/// number token, covering the whole text.
pub proof fn lemma_number_literal(source: &str, ts: Seq<Token>)
    requires
        source@.len() > 0,
        forall|i: int| 0 <= i < source@.len() ==> is_digit(#[trigger] source@[i]),
        digits_value(source@) <= i64::MAX,
        tokenises_to(source@, ts),
    ensures
        ts.len() == 1,
        ts[0].kind == TokenKind::Number(digits_value(source@) as i64),
        ts[0].span.start == 1,
        ts[0].span.end == source.spec_bytes().len() + 1,
{
    let cs = source@;
    let n = cs.len() as int;
    lemma_munch_across(cs, Lex::Digits, 1, n);
    assert(first_state(cs[0]) == Some(Lex::Digits));
    assert(munch_end(cs, Lex::Digits, n) == n);
    let lx = Lexeme { kind: Lex::Digits, start: 0, end: n };
    assert(lexemes_from(cs, n) == Seq::<Lexeme>::empty());
    assert(lexemes_from(cs, 0) =~= seq![lx]);
    assert(token_of(ts[0], cs, lx));
    assert(cs.subrange(0, 0) =~= Seq::<char>::empty());
    assert(cs.subrange(0, n) =~= cs);
}

} // verus!
