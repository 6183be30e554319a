use vstd::prelude::*;

use crate::datatype::QueryError;
use crate::lexer::{parse_error, tok_of, toks_of, BinOp, Tok, Token};
use crate::number::Number;

verus! {

broadcast use vstd::std_specs::vec::axiom_spec_len;

/// An expression of the query language.
#[derive(Debug)]
pub enum Expr {
    Number(Number),
    Str(String),
    Var(String),
    List(Vec<Expr>),
    /// Keys and, at the same positions, the expressions of their values.
    Dict(Vec<String>, Vec<Expr>),
    Call(String, Vec<Expr>),
    Bin(BinOp, Box<Expr>, Box<Expr>),
}

/// A statement; each ends with `;`.
#[derive(Debug)]
pub enum Stmt {
    Assign(String, Expr),
    Return(Expr),
    Eval(Expr),
}

/// The shape of an expression, with texts as character sequences.
pub enum EM {
    Number(Number),
    Str(Seq<char>),
    Var(Seq<char>),
    List(Seq<EM>),
    Dict(Seq<Seq<char>>, Seq<EM>),
    Call(Seq<char>, Seq<EM>),
    Bin(BinOp, Box<EM>, Box<EM>),
}

/// The shape of a statement.
pub enum SM {
    Assign(Seq<char>, EM),
    Return(EM),
    Eval(EM),
}

/// Expression `e` has shape `m`.
pub open spec fn expr_model(e: Expr, m: EM) -> bool
    decreases e,
{
    match e {
        Expr::Number(n) => m == EM::Number(n),
        Expr::Str(s) => m == EM::Str(s@),
        Expr::Var(s) => m == EM::Var(s@),
        Expr::List(items) => m matches EM::List(ms) && ms.len() == items@.len()
            && forall|i: int| 0 <= i < ms.len() ==> expr_model(#[trigger] items@[i], ms[i]),
        Expr::Dict(keys, vals) => m matches EM::Dict(ks, ms) && ks.len() == keys@.len()
            && (forall|i: int| 0 <= i < ks.len() ==> (#[trigger] keys@[i])@ == ks[i])
            && ms.len() == vals@.len()
            && forall|i: int| 0 <= i < ms.len() ==> expr_model(#[trigger] vals@[i], ms[i]),
        Expr::Call(name, args) => m matches EM::Call(n, ms) && n == name@ && ms.len() == args@.len()
            && forall|i: int| 0 <= i < ms.len() ==> expr_model(#[trigger] args@[i], ms[i]),
        Expr::Bin(op, l, r) => m matches EM::Bin(op2, lm, rm) && op2 == op && expr_model(*l, *lm)
            && expr_model(*r, *rm),
    }
}

/// Statement `s` has shape `m`.
pub open spec fn stmt_model(s: Stmt, m: SM) -> bool {
    match s {
        Stmt::Assign(name, e) => m matches SM::Assign(n, em) && n == name@ && expr_model(e, em),
        Stmt::Return(e) => m matches SM::Return(em) && expr_model(e, em),
        Stmt::Eval(e) => m matches SM::Eval(em) && expr_model(e, em),
    }
}

/// Statements `ss` have shapes `ms`, one for one.
pub open spec fn stmts_model(ss: Seq<Stmt>, ms: Seq<SM>) -> bool {
    &&& ss.len() == ms.len()
    &&& forall|i: int| 0 <= i < ss.len() ==> stmt_model(#[trigger] ss[i], ms[i])
}

pub open spec fn is_at(t: Seq<Tok>, p: int, want: Tok) -> bool {
    0 <= p < t.len() && t[p] == want
}

pub open spec fn is_add_op(x: Tok) -> bool {
    x == Tok::Op(BinOp::Add) || x == Tok::Op(BinOp::Sub)
}

pub open spec fn is_mul_op(x: Tok) -> bool {
    x == Tok::Op(BinOp::Mul) || x == Tok::Op(BinOp::Div) || x == Tok::Op(BinOp::Rem)
}

/// `expr := term (('+' | '-') term)*`, from `pos`: the expression and the
/// position after it.
pub open spec fn p_expr(t: Seq<Tok>, pos: int) -> Option<(EM, int)>
    decreases t.len() - pos, 4nat,
{
    if pos < 0 || pos > t.len() {
        None
    } else {
        match p_term(t, pos) {
            Some((lhs, q)) => if pos < q <= t.len() { p_expr_rest(t, lhs, q) } else { None },
            None => None,
        }
    }
}

/// The `(('+' | '-') term)*` tail after `lhs`, grouping to the left.
pub open spec fn p_expr_rest(t: Seq<Tok>, lhs: EM, p: int) -> Option<(EM, int)>
    decreases t.len() - p, 3nat,
{
    if 0 <= p < t.len() && is_add_op(t[p]) {
        match p_term(t, p + 1) {
            Some((rhs, q)) => if p + 1 < q <= t.len() {
                p_expr_rest(t, EM::Bin(t[p]->Op_0, Box::new(lhs), Box::new(rhs)), q)
            } else {
                None
            },
            None => None,
        }
    } else {
        Some((lhs, p))
    }
}

/// `term := factor (('*' | '/' | '%') factor)*`.
pub open spec fn p_term(t: Seq<Tok>, pos: int) -> Option<(EM, int)>
    decreases t.len() - pos, 2nat,
{
    if pos < 0 || pos > t.len() {
        None
    } else {
        match p_factor(t, pos) {
            Some((lhs, q)) => if pos < q <= t.len() { p_term_rest(t, lhs, q) } else { None },
            None => None,
        }
    }
}

pub open spec fn p_term_rest(t: Seq<Tok>, lhs: EM, p: int) -> Option<(EM, int)>
    decreases t.len() - p, 1nat,
{
    if 0 <= p < t.len() && is_mul_op(t[p]) {
        match p_factor(t, p + 1) {
            Some((rhs, q)) => if p + 1 < q <= t.len() {
                p_term_rest(t, EM::Bin(t[p]->Op_0, Box::new(lhs), Box::new(rhs)), q)
            } else {
                None
            },
            None => None,
        }
    } else {
        Some((lhs, p))
    }
}

/// `factor := number | string | name | name '(' items ')' | '(' expr ')'
/// | '[' items ']' | '{' entries '}'`.
pub open spec fn p_factor(t: Seq<Tok>, pos: int) -> Option<(EM, int)>
    decreases t.len() - pos, 0nat,
{
    if pos < 0 || pos >= t.len() {
        None
    } else {
        match t[pos] {
            Tok::Number(n) => Some((EM::Number(n), pos + 1)),
            Tok::Str(s) => Some((EM::Str(s), pos + 1)),
            Tok::Ident(name) => if is_at(t, pos + 1, Tok::LParen) {
                match p_items(t, pos + 2, Tok::RParen) {
                    Some((args, p)) => Some((EM::Call(name, args), p)),
                    None => None,
                }
            } else {
                Some((EM::Var(name), pos + 1))
            },
            Tok::LParen => match p_expr(t, pos + 1) {
                Some((e, q)) => if is_at(t, q, Tok::RParen) { Some((e, q + 1)) } else { None },
                None => None,
            },
            Tok::LBracket => match p_items(t, pos + 1, Tok::RBracket) {
                Some((items, p)) => Some((EM::List(items), p)),
                None => None,
            },
            Tok::LBrace => p_dict(t, pos + 1),
            _ => None,
        }
    }
}

/// `items := (expr (',' expr)*)? close`, from `pos`.
pub open spec fn p_items(t: Seq<Tok>, pos: int, close: Tok) -> Option<(Seq<EM>, int)>
    decreases t.len() - pos, 6nat,
{
    if pos < 0 || pos > t.len() {
        None
    } else if is_at(t, pos, close) {
        Some((Seq::<EM>::empty(), pos + 1))
    } else {
        p_items_more(t, Seq::<EM>::empty(), pos, close)
    }
}

pub open spec fn p_items_more(t: Seq<Tok>, acc: Seq<EM>, p: int, close: Tok) -> Option<(Seq<EM>, int)>
    decreases t.len() - p, 5nat,
{
    if p < 0 || p > t.len() {
        None
    } else {
        match p_expr(t, p) {
            Some((e, q)) => if p < q <= t.len() {
                if is_at(t, q, Tok::Comma) {
                    p_items_more(t, acc.push(e), q + 1, close)
                } else if is_at(t, q, close) {
                    Some((acc.push(e), q + 1))
                } else {
                    None
                }
            } else {
                None
            },
            None => None,
        }
    }
}

/// `entries := (string ':' expr (',' string ':' expr)*)? '}'`, from `pos`.
pub open spec fn p_dict(t: Seq<Tok>, pos: int) -> Option<(EM, int)>
    decreases t.len() - pos, 6nat,
{
    if pos < 0 || pos > t.len() {
        None
    } else if is_at(t, pos, Tok::RBrace) {
        Some((EM::Dict(Seq::<Seq<char>>::empty(), Seq::<EM>::empty()), pos + 1))
    } else {
        p_dict_more(t, Seq::<Seq<char>>::empty(), Seq::<EM>::empty(), pos)
    }
}

pub open spec fn p_dict_more(t: Seq<Tok>, ks: Seq<Seq<char>>, ms: Seq<EM>, p: int) -> Option<(EM, int)>
    decreases t.len() - p, 5nat,
{
    if 0 <= p < t.len() && t[p] is Str && is_at(t, p + 1, Tok::Colon) {
        match p_expr(t, p + 2) {
            Some((e, q)) => if p + 2 < q <= t.len() {
                if is_at(t, q, Tok::Comma) {
                    p_dict_more(t, ks.push(t[p]->Str_0), ms.push(e), q + 1)
                } else if is_at(t, q, Tok::RBrace) {
                    Some((EM::Dict(ks.push(t[p]->Str_0), ms.push(e)), q + 1))
                } else {
                    None
                }
            } else {
                None
            },
            None => None,
        }
    } else {
        None
    }
}

pub open spec fn prepend_stmt(m: SM, rest: Option<Seq<SM>>) -> Option<Seq<SM>> {
    match rest {
        Some(r) => Some(seq![m] + r),
        None => None,
    }
}

/// The statements of `t` from `p` on: `return expr;`, `name = expr;` or
/// `expr;`, up to the end.
pub open spec fn p_stmts(t: Seq<Tok>, p: int) -> Option<Seq<SM>>
    decreases t.len() - p,
{
    if p < 0 || p >= t.len() {
        Some(Seq::<SM>::empty())
    } else if t[p] == Tok::Return {
        match p_expr(t, p + 1) {
            Some((e, q)) => if p < q < t.len() && t[q] == Tok::Semi { prepend_stmt(SM::Return(e), p_stmts(t, q + 1)) } else { None },
            None => None,
        }
    } else if t[p] is Ident && is_at(t, p + 1, Tok::Assign) {
        match p_expr(t, p + 2) {
            Some((e, q)) => if p < q < t.len() && t[q] == Tok::Semi {
                prepend_stmt(SM::Assign(t[p]->Ident_0, e), p_stmts(t, q + 1))
            } else {
                None
            },
            None => None,
        }
    } else {
        match p_expr(t, p) {
            Some((e, q)) => if p < q < t.len() && t[q] == Tok::Semi { prepend_stmt(SM::Eval(e), p_stmts(t, q + 1)) } else { None },
            None => None,
        }
    }
}

proof fn lemma_toks(ts: Seq<Token>)
    ensures
        toks_of(ts).len() == ts.len(),
        forall|i: int| 0 <= i < ts.len() ==> #[trigger] toks_of(ts)[i] == tok_of(ts[i]),
{
}

/// A token without a payload, which `is_tok` compares by kind.
pub open spec fn simple(w: Token) -> bool {
    w is Semi || w is Comma || w is Colon || w is Assign || w is LParen || w is RParen || w is RBracket || w is RBrace
}

fn is_tok(ts: &Vec<Token>, p: usize, want: &Token) -> (r: bool)
    requires
        simple(*want),
    ensures
        r ==> p < ts.len(),
        r == is_at(toks_of(ts@), p as int, tok_of(*want)),
{
    proof {
        lemma_toks(ts@);
    }
    if p >= ts.len() {
        return false;
    }
    match (&ts[p], want) {
        (Token::Semi, Token::Semi) => true,
        (Token::Comma, Token::Comma) => true,
        (Token::Colon, Token::Colon) => true,
        (Token::Assign, Token::Assign) => true,
        (Token::LParen, Token::LParen) => true,
        (Token::RParen, Token::RParen) => true,
        (Token::RBracket, Token::RBracket) => true,
        (Token::RBrace, Token::RBrace) => true,
        _ => false,
    }
}

fn expect(ts: &Vec<Token>, p: usize, want: &Token) -> (r: Result<usize, QueryError>)
    requires
        simple(*want),
    ensures
        r matches Ok(q) ==> q == p + 1 && q <= ts@.len() && is_at(toks_of(ts@), p as int, tok_of(*want)),
        r matches Err(e) ==> e is ParsingError && !is_at(toks_of(ts@), p as int, tok_of(*want)),
{
    if is_tok(ts, p, want) {
        Ok(p + 1)
    } else {
        Err(parse_error("unexpected token"))
    }
}

fn add_op_at(ts: &Vec<Token>, p: usize) -> (r: Option<BinOp>)
    ensures
        r matches Some(op) ==> p < ts.len() && toks_of(ts@)[p as int] == Tok::Op(op) && is_add_op(toks_of(ts@)[p as int]),
        r is None ==> !(p < ts@.len() && is_add_op(toks_of(ts@)[p as int])),
{
    proof {
        lemma_toks(ts@);
    }
    if p >= ts.len() {
        return None;
    }
    match &ts[p] {
        Token::Op(BinOp::Add) => Some(BinOp::Add),
        Token::Op(BinOp::Sub) => Some(BinOp::Sub),
        _ => None,
    }
}

fn mul_op_at(ts: &Vec<Token>, p: usize) -> (r: Option<BinOp>)
    ensures
        r matches Some(op) ==> p < ts.len() && toks_of(ts@)[p as int] == Tok::Op(op) && is_mul_op(toks_of(ts@)[p as int]),
        r is None ==> !(p < ts@.len() && is_mul_op(toks_of(ts@)[p as int])),
{
    proof {
        lemma_toks(ts@);
    }
    if p >= ts.len() {
        return None;
    }
    match &ts[p] {
        Token::Op(BinOp::Mul) => Some(BinOp::Mul),
        Token::Op(BinOp::Div) => Some(BinOp::Div),
        Token::Op(BinOp::Rem) => Some(BinOp::Rem),
        _ => None,
    }
}

fn parse_expr(ts: &Vec<Token>, pos: usize) -> (r: Result<(Expr, usize), QueryError>)
    requires
        pos <= ts@.len(),
    ensures
        r matches Ok((e, p)) ==> pos < p <= ts@.len()
            && (p_expr(toks_of(ts@), pos as int) matches Some((m, q)) && q == p && expr_model(e, m)),
        r matches Err(err) ==> err is ParsingError && p_expr(toks_of(ts@), pos as int) is None,
    decreases ts@.len() - pos, 4nat,
{
    let ghost t = toks_of(ts@);
    proof {
        lemma_toks(ts@);
    }
    let (mut lhs, mut p) = parse_term(ts, pos)?;
    let ghost mut lm: EM = (p_term(t, pos as int)->0).0;
    loop
        invariant
            pos < p <= ts@.len(),
            t == toks_of(ts@),
            t.len() == ts@.len(),
            expr_model(lhs, lm),
            p_expr(t, pos as int) == p_expr_rest(t, lm, p as int),
        decreases ts@.len() - p,
    {
        match add_op_at(ts, p) {
            None => return Ok((lhs, p)),
            Some(op) => {
                let (rhs, q) = parse_term(ts, p + 1)?;
                let ghost rm: EM = (p_term(t, p + 1)->0).0;
                lhs = Expr::Bin(op, Box::new(lhs), Box::new(rhs));
                proof {
                    lm = EM::Bin(op, Box::new(lm), Box::new(rm));
                }
                p = q;
            },
        }
    }
}

fn parse_term(ts: &Vec<Token>, pos: usize) -> (r: Result<(Expr, usize), QueryError>)
    requires
        pos <= ts@.len(),
    ensures
        r matches Ok((e, p)) ==> pos < p <= ts@.len()
            && (p_term(toks_of(ts@), pos as int) matches Some((m, q)) && q == p && expr_model(e, m)),
        r matches Err(err) ==> err is ParsingError && p_term(toks_of(ts@), pos as int) is None,
    decreases ts@.len() - pos, 2nat,
{
    let ghost t = toks_of(ts@);
    proof {
        lemma_toks(ts@);
    }
    let (mut lhs, mut p) = parse_factor(ts, pos)?;
    let ghost mut lm: EM = (p_factor(t, pos as int)->0).0;
    loop
        invariant
            pos < p <= ts@.len(),
            t == toks_of(ts@),
            t.len() == ts@.len(),
            expr_model(lhs, lm),
            p_term(t, pos as int) == p_term_rest(t, lm, p as int),
        decreases ts@.len() - p,
    {
        match mul_op_at(ts, p) {
            None => return Ok((lhs, p)),
            Some(op) => {
                let (rhs, q) = parse_factor(ts, p + 1)?;
                let ghost rm: EM = (p_factor(t, p + 1)->0).0;
                lhs = Expr::Bin(op, Box::new(lhs), Box::new(rhs));
                proof {
                    lm = EM::Bin(op, Box::new(lm), Box::new(rm));
                }
                p = q;
            },
        }
    }
}

/// Expressions separated by commas up to the closing token `close`, from
/// `pos` (right after the opening token); returns them with the position
/// after `close`.
fn parse_items(ts: &Vec<Token>, pos: usize, close: &Token) -> (r: Result<(Vec<Expr>, usize), QueryError>)
    requires
        0 < pos <= ts@.len(),
        simple(*close),
    ensures
        r matches Ok((items, p)) ==> pos < p <= ts@.len()
            && (p_items(toks_of(ts@), pos as int, tok_of(*close)) matches Some((ms, q)) && q == p
            && ms.len() == items@.len()
            && forall|i: int| 0 <= i < ms.len() ==> expr_model(#[trigger] items@[i], ms[i])),
        r matches Err(err) ==> err is ParsingError && p_items(toks_of(ts@), pos as int, tok_of(*close)) is None,
    decreases ts@.len() - pos, 6nat,
{
    let ghost t = toks_of(ts@);
    let ghost c = tok_of(*close);
    proof {
        lemma_toks(ts@);
    }
    let mut items: Vec<Expr> = Vec::new();
    if is_tok(ts, pos, close) {
        return Ok((items, pos + 1));
    }
    let mut p = pos;
    let ghost mut ms: Seq<EM> = Seq::empty();
    loop
        invariant
            0 < pos <= p <= ts@.len(),
            t == toks_of(ts@),
            t.len() == ts@.len(),
            c == tok_of(*close),
            simple(*close),
            ms.len() == items@.len(),
            forall|i: int| 0 <= i < ms.len() ==> expr_model(#[trigger] items@[i], ms[i]),
            p_items(t, pos as int, c) == p_items_more(t, ms, p as int, c),
        decreases ts@.len() - p,
    {
        let (e, q) = parse_expr(ts, p)?;
        let ghost em: EM = (p_expr(t, p as int)->0).0;
        let ghost i0 = items@;
        items.push(e);
        proof {
            ms = ms.push(em);
            assert forall|i: int| 0 <= i < ms.len() implies expr_model(#[trigger] items@[i], ms[i]) by {
                if i < ms.len() - 1 {
                    assert(items@[i] == i0[i]);
                }
            }
        }
        if is_tok(ts, q, &Token::Comma) {
            p = q + 1;
        } else {
            let end = expect(ts, q, close)?;
            return Ok((items, end));
        }
    }
}

/// `{"key": expr, ...}` from the position after `{`.
fn parse_dict(ts: &Vec<Token>, pos: usize) -> (r: Result<(Expr, usize), QueryError>)
    requires
        0 < pos <= ts@.len(),
    ensures
        r matches Ok((e, p)) ==> pos < p <= ts@.len()
            && (p_dict(toks_of(ts@), pos as int) matches Some((m, q)) && q == p && expr_model(e, m)),
        r matches Err(err) ==> err is ParsingError && p_dict(toks_of(ts@), pos as int) is None,
    decreases ts@.len() - pos, 6nat,
{
    let ghost t = toks_of(ts@);
    proof {
        lemma_toks(ts@);
    }
    let mut keys: Vec<String> = Vec::new();
    let mut values: Vec<Expr> = Vec::new();
    if is_tok(ts, pos, &Token::RBrace) {
        let e = Expr::Dict(keys, values);
        proof {
            assert(expr_model(e, EM::Dict(Seq::<Seq<char>>::empty(), Seq::<EM>::empty())));
        }
        return Ok((e, pos + 1));
    }
    let mut p = pos;
    let ghost mut ks: Seq<Seq<char>> = Seq::empty();
    let ghost mut ms: Seq<EM> = Seq::empty();
    loop
        invariant
            0 < pos <= p <= ts@.len(),
            t == toks_of(ts@),
            t.len() == ts@.len(),
            ks.len() == keys@.len(),
            forall|i: int| 0 <= i < ks.len() ==> (#[trigger] keys@[i])@ == ks[i],
            ms.len() == values@.len(),
            forall|i: int| 0 <= i < ms.len() ==> expr_model(#[trigger] values@[i], ms[i]),
            p_dict(t, pos as int) == p_dict_more(t, ks, ms, p as int),
        decreases ts@.len() - p,
    {
        if p >= ts.len() {
            return Err(parse_error("unterminated dictionary"));
        }
        let key = match &ts[p] {
            Token::Str(s) => s.clone(),
            _ => return Err(parse_error("dictionary keys must be strings")),
        };
        let c = expect(ts, p + 1, &Token::Colon)?;
        let (e, q) = parse_expr(ts, c)?;
        let ghost em: EM = (p_expr(t, c as int)->0).0;
        let ghost k0 = keys@;
        let ghost v0 = values@;
        keys.push(key);
        values.push(e);
        proof {
            ks = ks.push(t[p as int]->Str_0);
            ms = ms.push(em);
            assert forall|i: int| 0 <= i < ks.len() implies (#[trigger] keys@[i])@ == ks[i] by {
                if i < ks.len() - 1 {
                    assert(keys@[i] == k0[i]);
                }
            }
            assert forall|i: int| 0 <= i < ms.len() implies expr_model(#[trigger] values@[i], ms[i]) by {
                if i < ms.len() - 1 {
                    assert(values@[i] == v0[i]);
                }
            }
        }
        if is_tok(ts, q, &Token::Comma) {
            p = q + 1;
        } else {
            let end = expect(ts, q, &Token::RBrace)?;
            let d = Expr::Dict(keys, values);
            proof {
                assert(expr_model(d, EM::Dict(ks, ms)));
            }
            return Ok((d, end));
        }
    }
}

/// A literal, a name, a call, or a parenthesised expression.
fn parse_factor(ts: &Vec<Token>, pos: usize) -> (r: Result<(Expr, usize), QueryError>)
    requires
        pos <= ts@.len(),
    ensures
        r matches Ok((e, p)) ==> pos < p <= ts@.len()
            && (p_factor(toks_of(ts@), pos as int) matches Some((m, q)) && q == p && expr_model(e, m)),
        r matches Err(err) ==> err is ParsingError && p_factor(toks_of(ts@), pos as int) is None,
    decreases ts@.len() - pos, 0nat,
{
    let ghost t = toks_of(ts@);
    proof {
        lemma_toks(ts@);
    }
    if pos >= ts.len() {
        return Err(parse_error("unexpected end of script"));
    }
    match &ts[pos] {
        Token::Number(n) => Ok((Expr::Number(*n), pos + 1)),
        Token::Str(s) => Ok((Expr::Str(s.clone()), pos + 1)),
        Token::Ident(name) => {
            if is_tok(ts, pos + 1, &Token::LParen) {
                let (args, p) = parse_items(ts, pos + 2, &Token::RParen)?;
                let e = Expr::Call(name.clone(), args);
                proof {
                    let ms = (p_items(t, pos + 2, Tok::RParen)->0).0;
                    assert(expr_model(e, EM::Call(name@, ms)));
                }
                Ok((e, p))
            } else {
                Ok((Expr::Var(name.clone()), pos + 1))
            }
        },
        Token::LParen => {
            let (e, q) = parse_expr(ts, pos + 1)?;
            let p = expect(ts, q, &Token::RParen)?;
            Ok((e, p))
        },
        Token::LBracket => {
            let (items, p) = parse_items(ts, pos + 1, &Token::RBracket)?;
            let e = Expr::List(items);
            proof {
                let ms = (p_items(t, pos + 1, Tok::RBracket)->0).0;
                assert(expr_model(e, EM::List(ms)));
            }
            Ok((e, p))
        },
        Token::LBrace => parse_dict(ts, pos + 1),
        _ => Err(parse_error("unexpected token")),
    }
}

pub open spec fn prepend_all_stmts(p: Seq<SM>, rest: Option<Seq<SM>>) -> Option<Seq<SM>> {
    match rest {
        Some(r) => Some(p + r),
        None => None,
    }
}

/// Parses a whole script, under the grammar of `p_stmts`.
pub fn parse(ts: &Vec<Token>) -> (r: Result<Vec<Stmt>, QueryError>)
    ensures
        r matches Ok(stmts) ==> (p_stmts(toks_of(ts@), 0) matches Some(ms) && stmts_model(stmts@, ms)),
        r matches Err(e) ==> e is ParsingError && p_stmts(toks_of(ts@), 0) is None,
{
    let ghost t = toks_of(ts@);
    proof {
        lemma_toks(ts@);
    }
    let mut out: Vec<Stmt> = Vec::new();
    let mut p: usize = 0;
    let ghost mut ms: Seq<SM> = Seq::empty();
    proof {
        if let Some(rest) = p_stmts(t, 0) {
            assert(Seq::<SM>::empty() + rest =~= rest);
        }
    }
    while p < ts.len()
        invariant
            p <= ts@.len(),
            t == toks_of(ts@),
            t.len() == ts@.len(),
            stmts_model(out@, ms),
            p_stmts(t, 0) == prepend_all_stmts(ms, p_stmts(t, p as int)),
        decreases ts@.len() - p,
    {
        let is_return = match &ts[p] {
            Token::Return => true,
            _ => false,
        };
        let target = match &ts[p] {
            Token::Ident(name) => if is_tok(ts, p + 1, &Token::Assign) {
                Some(name.clone())
            } else {
                None
            },
            _ => None,
        };
        let ghost p0 = p as int;
        let ghost o0 = out@;
        let ghost sm: SM;
        if is_return {
            let (e, q) = parse_expr(ts, p + 1)?;
            p = expect(ts, q, &Token::Semi)?;
            proof {
                sm = SM::Return((p_expr(t, p0 + 1)->0).0);
            }
            out.push(Stmt::Return(e));
        } else if let Some(name) = target {
            let (e, q) = parse_expr(ts, p + 2)?;
            p = expect(ts, q, &Token::Semi)?;
            proof {
                sm = SM::Assign(t[p0]->Ident_0, (p_expr(t, p0 + 2)->0).0);
            }
            out.push(Stmt::Assign(name, e));
        } else {
            let (e, q) = parse_expr(ts, p)?;
            p = expect(ts, q, &Token::Semi)?;
            proof {
                sm = SM::Eval((p_expr(t, p0)->0).0);
            }
            out.push(Stmt::Eval(e));
        }
        proof {
            let ms0 = ms;
            ms = ms.push(sm);
            assert forall|i: int| 0 <= i < out@.len() implies stmt_model(#[trigger] out@[i], ms[i]) by {
                if i < o0.len() {
                    assert(out@[i] == o0[i]);
                    assert(ms[i] == ms0[i]);
                }
            }
            if let Some(rest) = p_stmts(t, p as int) {
                assert(ms0 + (seq![sm] + rest) =~= ms + rest);
            }
        }
    }
    proof {
        assert(ms + Seq::<SM>::empty() =~= ms);
    }
    Ok(out)
}

} // verus!
