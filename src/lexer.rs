use vstd::prelude::*;
use vstd::string::StringExecFns;

use crate::datatype::QueryError;
use crate::number::Number;
use crate::text::string_of;

verus! {

/// A binary arithmetic operator.
#[derive(Clone, Copy, Debug, PartialEq, Eq, Structural)]
pub enum BinOp {
    Add,
    Sub,
    Mul,
    Div,
    Rem,
}

/// A lexical unit of a script.
#[derive(Debug)]
pub enum Token {
    Number(Number),
    Str(String),
    Ident(String),
    Return,
    Op(BinOp),
    Assign,
    Semi,
    Comma,
    Colon,
    LParen,
    RParen,
    LBracket,
    RBracket,
    LBrace,
    RBrace,
}

/// Every number token has a positive denominator.
pub open spec fn tokens_wf(ts: Seq<Token>) -> bool {
    forall|i: int| 0 <= i < ts.len() ==> (#[trigger] ts[i] matches Token::Number(n) ==> n.wf())
}

pub open spec fn is_digit(c: char) -> bool {
    '0' <= c <= '9'
}

pub open spec fn is_ident_start(c: char) -> bool {
    ('a' <= c <= 'z') || ('A' <= c <= 'Z') || c == '_'
}

pub open spec fn is_ident_char(c: char) -> bool {
    is_ident_start(c) || is_digit(c)
}

fn digit_value(c: char) -> (r: i64)
    requires
        is_digit(c),
    ensures
        0 <= r <= 9,
        r == c as int - '0' as int,
{
    (c as u32 - '0' as u32) as i64
}

pub(crate) fn parse_error(msg: &str) -> (r: QueryError)
    ensures
        r is ParsingError,
{
    QueryError::ParsingError(String::from_str(msg))
}

/// The lexical unit a token stands for, with texts as character sequences.
pub enum Tok {
    Number(Number),
    Str(Seq<char>),
    Ident(Seq<char>),
    Return,
    Op(BinOp),
    Assign,
    Semi,
    Comma,
    Colon,
    LParen,
    RParen,
    LBracket,
    RBracket,
    LBrace,
    RBrace,
}

pub open spec fn tok_of(t: Token) -> Tok {
    match t {
        Token::Number(n) => Tok::Number(n),
        Token::Str(s) => Tok::Str(s@),
        Token::Ident(s) => Tok::Ident(s@),
        Token::Return => Tok::Return,
        Token::Op(o) => Tok::Op(o),
        Token::Assign => Tok::Assign,
        Token::Semi => Tok::Semi,
        Token::Comma => Tok::Comma,
        Token::Colon => Tok::Colon,
        Token::LParen => Tok::LParen,
        Token::RParen => Tok::RParen,
        Token::LBracket => Tok::LBracket,
        Token::RBracket => Tok::RBracket,
        Token::LBrace => Tok::LBrace,
        Token::RBrace => Tok::RBrace,
    }
}

pub open spec fn toks_of(ts: Seq<Token>) -> Seq<Tok> {
    ts.map_values(|t: Token| tok_of(t))
}

/// The token of a one-character symbol.
pub open spec fn single_tok(c: char) -> Option<Tok> {
    if c == '+' { Some(Tok::Op(BinOp::Add)) }
    else if c == '-' { Some(Tok::Op(BinOp::Sub)) }
    else if c == '*' { Some(Tok::Op(BinOp::Mul)) }
    else if c == '/' { Some(Tok::Op(BinOp::Div)) }
    else if c == '%' { Some(Tok::Op(BinOp::Rem)) }
    else if c == '=' { Some(Tok::Assign) }
    else if c == ';' { Some(Tok::Semi) }
    else if c == ',' { Some(Tok::Comma) }
    else if c == ':' { Some(Tok::Colon) }
    else if c == '(' { Some(Tok::LParen) }
    else if c == ')' { Some(Tok::RParen) }
    else if c == '[' { Some(Tok::LBracket) }
    else if c == ']' { Some(Tok::RBracket) }
    else if c == '{' { Some(Tok::LBrace) }
    else if c == '}' { Some(Tok::RBrace) }
    else { None }
}

pub open spec fn is_blank(c: char) -> bool {
    c == ' ' || c == '\t' || c == '\n' || c == '\r'
}

/// The position of the first newline at or after `i`, or the end.
pub open spec fn line_end(cs: Seq<char>, i: int) -> int
    decreases cs.len() - i,
{
    if 0 <= i < cs.len() && cs[i] != '\n' { line_end(cs, i + 1) } else { i }
}

/// The position after the identifier characters that start at `i`.
pub open spec fn ident_end(cs: Seq<char>, i: int) -> int
    decreases cs.len() - i,
{
    if 0 <= i < cs.len() && is_ident_char(cs[i]) { ident_end(cs, i + 1) } else { i }
}

/// Reads a number literal from `i` on, having read `num / den` so far:
/// digits, and at most one point after which each digit multiplies `den`
/// by ten. `None` when the numerator or the denominator exceeds 64 bits.
pub open spec fn number_scan(cs: Seq<char>, i: int, num: int, den: int, seen: bool) -> Option<(Number, int)>
    decreases cs.len() - i,
{
    if 0 <= i < cs.len() && (is_digit(cs[i]) || (cs[i] == '.' && !seen)) {
        if cs[i] == '.' {
            number_scan(cs, i + 1, num, den, true)
        } else {
            let n2 = num * 10 + (cs[i] as int - '0' as int);
            let d2 = if seen { den * 10 } else { den };
            if n2 > i64::MAX || d2 > i64::MAX { None } else { number_scan(cs, i + 1, n2, d2, seen) }
        }
    } else {
        Some((Number { num: num as i64, den: den as i64 }, i))
    }
}

/// Reads the rest of a string literal from `i` (after its opening quote)
/// up to its closing quote: its text and the position after the quote. A
/// backslash takes the next character as it is. `None` when unterminated.
pub open spec fn string_scan(cs: Seq<char>, i: int) -> Option<(Seq<char>, int)>
    decreases cs.len() - i,
{
    if i < 0 || i >= cs.len() {
        None
    } else if cs[i] == '"' {
        Some((Seq::<char>::empty(), i + 1))
    } else if cs[i] == '\\' && i + 1 < cs.len() {
        match string_scan(cs, i + 2) {
            Some((t, j)) => Some((seq![cs[i + 1]] + t, j)),
            None => None,
        }
    } else {
        match string_scan(cs, i + 1) {
            Some((t, j)) => Some((seq![cs[i]] + t, j)),
            None => None,
        }
    }
}

pub open spec fn prepend(t: Tok, rest: Option<Seq<Tok>>) -> Option<Seq<Tok>> {
    match rest {
        Some(r) => Some(seq![t] + r),
        None => None,
    }
}

pub open spec fn prepend_all(p: Seq<Tok>, rest: Option<Seq<Tok>>) -> Option<Seq<Tok>> {
    match rest {
        Some(r) => Some(p + r),
        None => None,
    }
}

/// The tokens of `cs` from position `i` on, under the lexical rules:
/// blanks separate tokens, `#` starts a comment that runs to the end of the
/// line, then number literals, identifiers (`return` is a keyword), string
/// literals and one-character symbols. `None` when some character fits no
/// rule, a string literal is unterminated, or a number does not fit.
pub open spec fn lex_from(cs: Seq<char>, i: int) -> Option<Seq<Tok>>
    decreases cs.len() - i,
{
    if i < 0 || i >= cs.len() {
        Some(Seq::<Tok>::empty())
    } else if is_blank(cs[i]) {
        lex_from(cs, i + 1)
    } else if cs[i] == '#' {
        let j = line_end(cs, i + 1);
        if i < j <= cs.len() { lex_from(cs, j) } else { None }
    } else if is_digit(cs[i]) {
        match number_scan(cs, i, 0, 1, false) {
            Some((n, j)) => if i < j <= cs.len() { prepend(Tok::Number(n), lex_from(cs, j)) } else { None },
            None => None,
        }
    } else if is_ident_start(cs[i]) {
        let j = ident_end(cs, i);
        if i < j <= cs.len() {
            let w = cs.subrange(i, j);
            prepend(if w == "return"@ { Tok::Return } else { Tok::Ident(w) }, lex_from(cs, j))
        } else {
            None
        }
    } else if cs[i] == '"' {
        match string_scan(cs, i + 1) {
            Some((t, j)) => if i < j <= cs.len() { prepend(Tok::Str(t), lex_from(cs, j)) } else { None },
            None => None,
        }
    } else {
        match single_tok(cs[i]) {
            Some(t) => prepend(t, lex_from(cs, i + 1)),
            None => None,
        }
    }
}

proof fn lemma_prepend_step(p: Seq<Tok>, t: Tok, rest: Option<Seq<Tok>>)
    ensures
        prepend_all(p, prepend(t, rest)) == prepend_all(p.push(t), rest),
{
    if let Some(r) = rest {
        assert(p + (seq![t] + r) =~= p.push(t) + r);
    }
}

/// Reads the number literal that starts at `start` (digits, then
/// optionally a point and more digits) as `digits / 10^k`, `k` the digits
/// after the point; returns it with the position after it.
fn lex_number(cs: &Vec<char>, start: usize) -> (r: Result<(Number, usize), QueryError>)
    requires
        start < cs@.len(),
        is_digit(cs@[start as int]),
    ensures
        r matches Ok((n, next)) ==> n.wf() && start < next <= cs@.len()
            && number_scan(cs@, start as int, 0, 1, false) == Some((n, next as int)),
        r matches Err(e) ==> e is ParsingError && number_scan(cs@, start as int, 0, 1, false) is None,
{
    let mut i = start;
    let mut num: i64 = 0;
    let mut den: i64 = 1;
    let mut seen_point = false;
    while i < cs.len() && (is_digit_exec(cs[i]) || (cs[i] == '.' && !seen_point))
        invariant
            start <= i <= cs@.len(),
            den >= 1,
            num >= 0,
            i == start ==> !seen_point,
            number_scan(cs@, start as int, 0, 1, false) == number_scan(cs@, i as int, num as int, den as int, seen_point),
        decreases cs@.len() - i,
    {
        if cs[i] == '.' {
            seen_point = true;
        } else {
            let d = digit_value(cs[i]);
            let nn: i128 = num as i128 * 10 + d as i128;
            let dd: i128 = if seen_point { den as i128 * 10 } else { den as i128 };
            if nn > i64::MAX as i128 || dd > i64::MAX as i128 {
                return Err(parse_error("number literal out of range"));
            }
            num = nn as i64;
            den = dd as i64;
        }
        i += 1;
    }
    Ok((Number { num, den }, i))
}

fn is_digit_exec(c: char) -> (r: bool)
    ensures
        r == is_digit(c),
{
    '0' <= c && c <= '9'
}

fn is_ident_start_exec(c: char) -> (r: bool)
    ensures
        r == is_ident_start(c),
{
    ('a' <= c && c <= 'z') || ('A' <= c && c <= 'Z') || c == '_'
}

fn is_ident_char_exec(c: char) -> (r: bool)
    ensures
        r == is_ident_char(c),
{
    is_ident_start_exec(c) || is_digit_exec(c)
}

fn single(c: char) -> (r: Option<Token>)
    ensures
        r matches Some(t) ==> !(t is Number) && single_tok(c) == Some(tok_of(t)),
        r is None ==> single_tok(c) is None,
{
    match c {
        '+' => Some(Token::Op(BinOp::Add)),
        '-' => Some(Token::Op(BinOp::Sub)),
        '*' => Some(Token::Op(BinOp::Mul)),
        '/' => Some(Token::Op(BinOp::Div)),
        '%' => Some(Token::Op(BinOp::Rem)),
        '=' => Some(Token::Assign),
        ';' => Some(Token::Semi),
        ',' => Some(Token::Comma),
        ':' => Some(Token::Colon),
        '(' => Some(Token::LParen),
        ')' => Some(Token::RParen),
        '[' => Some(Token::LBracket),
        ']' => Some(Token::RBracket),
        '{' => Some(Token::LBrace),
        '}' => Some(Token::RBrace),
        _ => None,
    }
}

/// Splits a script into tokens, under the rules of `lex_from`.
pub fn tokenize(cs: &Vec<char>) -> (r: Result<Vec<Token>, QueryError>)
    ensures
        r matches Ok(ts) ==> tokens_wf(ts@) && lex_from(cs@, 0) == Some(toks_of(ts@)),
        r matches Err(e) ==> e is ParsingError && lex_from(cs@, 0) is None,
{
    let mut out: Vec<Token> = Vec::new();
    let mut i: usize = 0;
    proof {
        assert(toks_of(out@) =~= Seq::<Tok>::empty());
        if let Some(r) = lex_from(cs@, 0) {
            assert(Seq::<Tok>::empty() + r =~= r);
        }
    }
    while i < cs.len()
        invariant
            i <= cs@.len(),
            tokens_wf(out@),
            lex_from(cs@, 0) == prepend_all(toks_of(out@), lex_from(cs@, i as int)),
        decreases cs@.len() - i,
    {
        let c = cs[i];
        let ghost i0 = i as int;
        let ghost before = out@;
        if c == ' ' || c == '\t' || c == '\n' || c == '\r' {
            i += 1;
        } else if c == '#' {
            i += 1;
            while i < cs.len() && cs[i] != '\n'
                invariant
                    0 <= i0 < i <= cs@.len(),
                    line_end(cs@, i0 + 1) == line_end(cs@, i as int),
                decreases cs@.len() - i,
            {
                i += 1;
            }
        } else if is_digit_exec(c) {
            let (n, next) = match lex_number(cs, i) {
                Ok(x) => x,
                Err(e) => return Err(e),
            };
            out.push(Token::Number(n));
            i = next;
            proof {
                assert(toks_of(out@) =~= toks_of(before).push(Tok::Number(n)));
                lemma_prepend_step(toks_of(before), Tok::Number(n), lex_from(cs@, i as int));
            }
        } else if is_ident_start_exec(c) {
            let mut word: Vec<char> = Vec::new();
            word.push(c);
            i += 1;
            while i < cs.len() && is_ident_char_exec(cs[i])
                invariant
                    0 <= i0 < i <= cs@.len(),
                    word@ == cs@.subrange(i0, i as int),
                    ident_end(cs@, i0) == ident_end(cs@, i as int),
                decreases cs@.len() - i,
            {
                let ghost w0 = word@;
                let ghost k = i as int;
                word.push(cs[i]);
                i += 1;
                proof {
                    assert(0 <= i0 <= k < cs@.len());
                    assert(w0 == cs@.subrange(i0, k));
                    assert(word@ == w0.push(cs@[k]));
                    assert forall|m: int| 0 <= m < word@.len() implies word@[m] == cs@.subrange(i0, k + 1)[m] by {
                        if m < w0.len() {
                            assert(word@[m] == w0[m]);
                        }
                    }
                    assert(word@ =~= cs@.subrange(i0, k + 1));
                }
            }
            let w = string_of(&word);
            let t = if w == String::from_str("return") {
                Token::Return
            } else {
                Token::Ident(w)
            };
            out.push(t);
            proof {
                assert(toks_of(out@) =~= toks_of(before).push(tok_of(t)));
                lemma_prepend_step(toks_of(before), tok_of(t), lex_from(cs@, i as int));
            }
        } else if c == '"' {
            let mut lit: Vec<char> = Vec::new();
            i += 1;
            let mut closed = false;
            while i < cs.len() && !closed
                invariant
                    0 <= i0 < i <= cs@.len(),
                    !closed ==> string_scan(cs@, i0 + 1) == match string_scan(cs@, i as int) {
                        Some((t, j)) => Some((lit@ + t, j)),
                        None => None::<(Seq<char>, int)>,
                    },
                    closed ==> string_scan(cs@, i0 + 1) == Some((lit@, i as int)),
                decreases cs@.len() - i,
            {
                let ghost l0 = lit@;
                if cs[i] == '"' {
                    closed = true;
                    proof {
                        assert(l0 + Seq::<char>::empty() =~= l0);
                    }
                } else if cs[i] == '\\' && i + 1 < cs.len() {
                    lit.push(cs[i + 1]);
                    i += 1;
                    proof {
                        if let Some((t, j)) = string_scan(cs@, i + 1) {
                            assert(l0 + (seq![cs@[i as int]] + t) =~= lit@ + t);
                        }
                    }
                } else {
                    lit.push(cs[i]);
                    proof {
                        if let Some((t, j)) = string_scan(cs@, i + 1) {
                            assert(l0 + (seq![cs@[i as int]] + t) =~= lit@ + t);
                        }
                    }
                }
                i += 1;
            }
            if !closed {
                return Err(parse_error("unterminated string literal"));
            }
            let t = Token::Str(string_of(&lit));
            out.push(t);
            proof {
                assert(toks_of(out@) =~= toks_of(before).push(tok_of(t)));
                lemma_prepend_step(toks_of(before), tok_of(t), lex_from(cs@, i as int));
            }
        } else {
            match single(c) {
                Some(t) => {
                    out.push(t);
                    i += 1;
                    proof {
                        assert(toks_of(out@) =~= toks_of(before).push(tok_of(t)));
                        lemma_prepend_step(toks_of(before), tok_of(t), lex_from(cs@, i as int));
                    }
                },
                None => return Err(parse_error("unexpected character")),
            }
        }
    }
    proof {
        assert(toks_of(out@) + Seq::<Tok>::empty() =~= toks_of(out@));
    }
    Ok(out)
}

} // verus!
