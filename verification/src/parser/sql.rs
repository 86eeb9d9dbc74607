//! Reading statements: the text is split into tokens, and the tokens are read by the
//! grammar of `grammar.rs`, one statement after another, each ended by `;`.
use vstd::prelude::*;
use crate::parser::ast::{
    AlterStmt, Column, CopyStmt, DatabaseStmt, Expr, Field, IndexStmt, Op, Selector, SetClause,
    Sql, Stmt, SystemStmt, TableStmt, Type, Value, WhereClause,
};
use crate::parser::grammar::{
    sep_render, lemma_sep_render_push, kw, tok_name, paren, render_names, size_tok, render_type, render_value, render_not_null, render_default, render_field, render_fields, render_values, render_value_list, render_value_lists, render_column, op_tok, render_expr, render_where, render_wheres, render_opt_where, render_set, render_sets, render_columns, render_selector, alter_head, render_stmt, render_stmts, render_sql, wf_field, wf_opt_where, wf_stmt, wf_sql, read_as, is_tok, is_kw, is_ident_at, sp_list, sp_paren, sp_name, sp_names, sp_paren_names, canon_int, is_size_at, sp_type, is_value_at, sp_value, sp_column_field, sp_foreign_tail, sp_field, sp_fields, sp_values, sp_value_list, sp_value_lists, sp_column, sp_columns, is_op, sp_expr, sp_where, sp_wheres, sp_opt_where, sp_set, sp_sets, sp_selector, then_where, sp_show, sp_create, sp_drop, sp_alter_add, sp_alter_drop, sp_alter, sp_stmt, sp_sql_from, sp_sql,
};
use crate::parser::roundtrip::lemma_refused_renders_nothing;
use crate::parser::lexer::{Kw, STok, Token, lex, toks_view, tokenize, chars_of, is_digit_char};
use crate::utils::text::{decimal_chars, digit_char, int_chars, push_int};

verus! {

// ---------------------------------------------------------------- widths

/// The value of a run of decimal digits.
pub open spec fn dec_value(s: Seq<char>) -> int
    decreases s.len(),
{
    if s.len() == 0 {
        0
    } else {
        dec_value(s.drop_last()) * 10 + (s.last() as int - 48)
    }
}

pub open spec fn all_digit_chars(s: Seq<char>) -> bool {
    forall|i: int| 0 <= i < s.len() ==> is_digit_char(#[trigger] s[i])
}

proof fn lemma_decimal_chars(n: nat)
    ensures
        decimal_chars(n).len() >= 1,
        all_digit_chars(decimal_chars(n)),
        dec_value(decimal_chars(n)) == n,
    decreases n,
{
    let s = decimal_chars(n);
    lemma_digit_char(n % 10);
    if n < 10 {
        assert(s.drop_last() =~= Seq::<char>::empty());
        assert(dec_value(s.drop_last()) == 0);
    } else {
        lemma_decimal_chars(n / 10);
        assert(s.drop_last() =~= decimal_chars(n / 10));
        assert(s.last() == digit_char(n % 10));
        assert(dec_value(s) == (n / 10) * 10 + n % 10);
    }
}

proof fn lemma_dec_value_prefix(s: Seq<char>, i: int)
    requires
        0 <= i <= s.len(),
        all_digit_chars(s),
    ensures
        0 <= dec_value(s.take(i)) <= dec_value(s),
    decreases s.len() - i,
{
    if i < s.len() {
        lemma_dec_value_prefix(s, i + 1);
        assert(s.take(i + 1).drop_last() =~= s.take(i));
        lemma_dec_value_nonneg(s.take(i));
    } else {
        assert(s.take(i) =~= s);
        lemma_dec_value_nonneg(s);
    }
}

proof fn lemma_dec_value_nonneg(s: Seq<char>)
    requires
        all_digit_chars(s),
    ensures
        dec_value(s) >= 0,
    decreases s.len(),
{
    if s.len() > 0 {
        lemma_dec_value_nonneg(s.drop_last());
    }
}

proof fn lemma_digit_char(d: nat)
    requires
        d < 10,
    ensures
        digit_char(d) as int == d + 48,
        is_digit_char(digit_char(d)),
{
}

/// How `int_chars` writes `m`: a sign for negative numbers, then the digits of its size.
proof fn lemma_int_chars_shape(m: i64)
    ensures
        ({
            let a: nat = if m < 0 { (0 - m) as nat } else { m as nat };
            let c = int_chars(m as int);
            let start: int = if m < 0 { 1 } else { 0 };
            &&& c.len() >= start + 1
            &&& (c[0] == '-') == (m < 0)
            &&& c.subrange(start, c.len() as int) == decimal_chars(a)
            &&& all_digit_chars(decimal_chars(a))
            &&& dec_value(decimal_chars(a)) == a
        }),
{
    let a: nat = if m < 0 { (0 - m) as nat } else { m as nat };
    lemma_decimal_chars(a);
    let c = int_chars(m as int);
    if m < 0 {
        assert(c.subrange(1, c.len() as int) =~= decimal_chars(a));
    } else {
        assert(is_digit_char(decimal_chars(a)[0]));
        assert(c.subrange(0, c.len() as int) =~= decimal_chars(a));
    }
}

/// The width written in `s`, when `s` writes one without leading zeros.
fn size_value(s: &String) -> (r: Option<i64>)
    ensures
        match r {
            Some(n) => int_chars(n as int) == s@,
            None => !canon_int(s@),
        },
{
    let c = chars_of(s.as_str());
    let n = c.len();
    if n == 0 {
        proof {
            assert forall|m: i64| int_chars(m as int) != s@ by {
                lemma_int_chars_shape(m);
            }
        }
        return None;
    }
    let neg = c[0] == '-';
    let start: usize = if neg { 1 } else { 0 };
    if start >= n {
        proof {
            assert forall|m: i64| int_chars(m as int) != s@ by {
                lemma_int_chars_shape(m);
            }
        }
        return None;
    }
    let ghost digits = c@.subrange(start as int, n as int);
    let mut v: u64 = 0;
    let mut i: usize = start;
    while i < n
        invariant
            start <= i <= n,
            n == c@.len(),
            c@ == s@,
            neg == (c@[0] == '-'),
            start == (if neg { 1usize } else { 0usize }),
            digits == c@.subrange(start as int, n as int),
            v == dec_value(digits.take(i - start)),
            all_digit_chars(digits.take(i - start)),
        decreases n - i,
    {
        let ch = c[i];
        if !('0' <= ch && ch <= '9') {
            proof {
                assert forall|m: i64| int_chars(m as int) != s@ by {
                    lemma_int_chars_shape(m);
                    if int_chars(m as int) == s@ {
                        assert(digits[i - start] == ch);
                    }
                }
            }
            return None;
        }
        let d: u64 = (ch as u32 - 48) as u64;
        proof {
            assert(digits.take(i + 1 - start).drop_last() =~= digits.take(i - start));
            assert(digits.take(i + 1 - start).last() == ch);
        }
        if v > (u64::MAX - d) / 10 {
            proof {
                assert forall|m: i64| int_chars(m as int) != s@ by {
                    lemma_int_chars_shape(m);
                    if int_chars(m as int) == s@ {
                        lemma_dec_value_prefix(digits, i + 1 - start);
                    }
                }
            }
            return None;
        }
        v = v * 10 + d;
        i = i + 1;
        assert(all_digit_chars(digits.take(i - start)));
    }
    assert(digits.take(n - start) =~= digits);
    let cand: i64;
    if neg {
        if v > 0x8000_0000_0000_0000u64 {
            proof {
                assert forall|m: i64| int_chars(m as int) != s@ by {
                    lemma_int_chars_shape(m);
                }
            }
            return None;
        }
        cand = if v == 0x8000_0000_0000_0000u64 { i64::MIN } else { 0 - (v as i64) };
    } else {
        if v > 0x7fff_ffff_ffff_ffffu64 {
            proof {
                assert forall|m: i64| int_chars(m as int) != s@ by {
                    lemma_int_chars_shape(m);
                }
            }
            return None;
        }
        cand = v as i64;
    }
    let mut out = String::new();
    push_int(&mut out, cand);
    assert(out@ =~= int_chars(cand as int));
    if out == *s {
        Some(cand)
    } else {
        proof {
            assert forall|m: i64| int_chars(m as int) != s@ by {
                lemma_int_chars_shape(m);
                if int_chars(m as int) == s@ {
                    assert(m == cand);
                }
            }
        }
        None
    }
}

// ---------------------------------------------------------------- tokens

fn same_tok(a: &Token, b: &Token) -> (r: bool)
    ensures
        r == (a@ == b@),
{
    match (a, b) {
        (Token::Kw(x), Token::Kw(y)) => *x == *y,
        (Token::Ident(x), Token::Ident(y)) => *x == *y,
        (Token::Int(x), Token::Int(y)) => *x == *y,
        (Token::Float(x), Token::Float(y)) => *x == *y,
        (Token::Str(x), Token::Str(y)) => *x == *y,
        (Token::Date(x), Token::Date(y)) => *x == *y,
        (Token::LParen, Token::LParen) => true,
        (Token::RParen, Token::RParen) => true,
        (Token::Comma, Token::Comma) => true,
        (Token::Semi, Token::Semi) => true,
        (Token::Dot, Token::Dot) => true,
        (Token::Star, Token::Star) => true,
        (Token::Eq, Token::Eq) => true,
        (Token::Ne, Token::Ne) => true,
        (Token::Lt, Token::Lt) => true,
        (Token::Le, Token::Le) => true,
        (Token::Gt, Token::Gt) => true,
        (Token::Ge, Token::Ge) => true,
        _ => false,
    }
}

/// Whether token `i` is `want`.
fn at(toks: &Vec<Token>, i: usize, want: Token) -> (r: bool)
    ensures
        r == is_tok(toks_view(toks@), i as int, want@),
        toks@.len() <= usize::MAX,
{
    i < toks.len() && same_tok(&toks[i], &want)
}

fn at_kw(toks: &Vec<Token>, i: usize, k: Kw) -> (r: bool)
    ensures
        r == is_kw(toks_view(toks@), i as int, k),
        toks@.len() <= usize::MAX,
{
    at(toks, i, Token::Kw(k))
}

fn ident_at(toks: &Vec<Token>, i: usize) -> (r: Option<String>)
    ensures
        match r {
            Some(s) => is_ident_at(toks_view(toks@), i as int) && toks_view(toks@)[i as int]
                == STok::Ident(s@),
            None => !is_ident_at(toks_view(toks@), i as int),
        },
        toks@.len() <= usize::MAX,
{
    if i < toks.len() {
        match &toks[i] {
            Token::Ident(s) => Some(s.clone()),
            _ => None,
        }
    } else {
        None
    }
}

// ---------------------------------------------------------------- names

fn p_name(toks: &Vec<Token>, p: usize) -> (r: Option<(String, usize)>)
    ensures
        match r {
            Some((x, k)) => read_as(
                toks_view(toks@),
                p as int,
                k as int,
                sp_name(toks_view(toks@), p as int),
                tok_name(x),
            ),
            None => sp_name(toks_view(toks@), p as int) is None,
        },
{
    match ident_at(toks, p) {
        Some(s) => {
            assert(toks_view(toks@).subrange(p as int, p + 1) =~= tok_name(s));
            Some((s, p + 1))
        },
        None => None,
    }
}

fn p_names(toks: &Vec<Token>, p: usize) -> (r: Option<(Vec<String>, usize)>)
    requires
        p <= toks@.len(),
    ensures
        match r {
            Some((v, k)) => read_as(
                toks_view(toks@),
                p as int,
                k as int,
                sp_names(toks_view(toks@), p as int),
                render_names(v@),
            ) && v@.len() >= 1,
            None => sp_names(toks_view(toks@), p as int) is None,
        },
{
    let ghost t = toks_view(toks@);
    let mut v: Vec<String> = Vec::new();
    let mut cur = p;
    loop
        invariant
            t == toks_view(toks@),
            p <= cur <= toks@.len(),
            sp_names(t, p as int) == sp_names(t, cur as int),
            v@.len() == 0 ==> cur == p,
            v@.len() > 0 ==> p + 1 <= cur && is_tok(t, cur - 1, STok::Comma) && t.subrange(
                p as int,
                cur - 1,
            ) == render_names(v@),
        decreases toks@.len() - cur,
    {
        match p_name(toks, cur) {
            None => {
                return None;
            },
            Some((x, q)) => {
                let ghost old_v = v@;
                v.push(x);
                proof {
                    lemma_sep_render_push(old_v, |n: String| tok_name(n), STok::Comma, x);
                    if old_v.len() > 0 {
                        assert(t.subrange(p as int, q as int) =~= t.subrange(p as int, cur - 1)
                            + seq![STok::Comma] + t.subrange(cur as int, q as int));
                    }
                }
                if at(toks, q, Token::Comma) {
                    cur = q + 1;
                } else {
                    return Some((v, q));
                }
            },
        }
    }
}

fn p_paren_names(toks: &Vec<Token>, p: usize) -> (r: Option<(Vec<String>, usize)>)
    ensures
        match r {
            Some((v, k)) => read_as(
                toks_view(toks@),
                p as int,
                k as int,
                sp_paren_names(toks_view(toks@), p as int),
                paren(render_names(v@)),
            ) && v@.len() >= 1,
            None => sp_paren_names(toks_view(toks@), p as int) is None,
        },
{
    let ghost t = toks_view(toks@);
    if !at(toks, p, Token::LParen) {
        return None;
    }
    match p_names(toks, p + 1) {
        None => None,
        Some((v, q)) => {
            if at(toks, q, Token::RParen) {
                assert(t.subrange(p as int, q + 1) =~= paren(render_names(v@)));
                Some((v, q + 1))
            } else {
                None
            }
        },
    }
}

// ---------------------------------------------------------------- types and values

fn p_size(toks: &Vec<Token>, p: usize) -> (r: Option<i64>)
    ensures
        match r {
            Some(n) => is_size_at(toks_view(toks@), p as int) && toks_view(toks@)[p as int]
                == size_tok(n),
            None => !is_size_at(toks_view(toks@), p as int),
        },
{
    if p < toks.len() {
        match &toks[p] {
            Token::Int(s) => size_value(s),
            _ => None,
        }
    } else {
        None
    }
}

fn p_type(toks: &Vec<Token>, p: usize) -> (r: Option<(Type, usize)>)
    ensures
        match r {
            Some((ty, k)) => read_as(
                toks_view(toks@),
                p as int,
                k as int,
                sp_type(toks_view(toks@), p as int),
                render_type(ty),
            ),
            None => sp_type(toks_view(toks@), p as int) is None,
        },
{
    let ghost t = toks_view(toks@);
    let is_int = at_kw(toks, p, Kw::Int);
    if is_int || at_kw(toks, p, Kw::Varchar) {
        if at(toks, p + 1, Token::LParen) {
            match p_size(toks, p + 2) {
                Some(n) => {
                    if at(toks, p + 3, Token::RParen) {
                        let ty = if is_int { Type::Int(n) } else { Type::Varchar(n) };
                        assert(t.subrange(p as int, p + 4) =~= render_type(ty));
                        return Some((ty, p + 4));
                    }
                },
                None => {},
            }
        }
        return None;
    }
    if at_kw(toks, p, Kw::Date) {
        assert(t.subrange(p as int, p + 1) =~= render_type(Type::Date));
        return Some((Type::Date, p + 1));
    }
    if at_kw(toks, p, Kw::Float) {
        assert(t.subrange(p as int, p + 1) =~= render_type(Type::Float));
        return Some((Type::Float, p + 1));
    }
    if at_kw(toks, p, Kw::Numeric) {
        if at(toks, p + 1, Token::LParen) {
            match p_size(toks, p + 2) {
                Some(a) => {
                    if at(toks, p + 3, Token::Comma) {
                        match p_size(toks, p + 4) {
                            Some(b) => {
                                if at(toks, p + 5, Token::RParen) {
                                    let ty = Type::Numeric(a, b);
                                    assert(t.subrange(p as int, p + 6) =~= render_type(ty));
                                    return Some((ty, p + 6));
                                }
                            },
                            None => {},
                        }
                    }
                },
                None => {},
            }
        }
        return None;
    }
    None
}

fn p_value(toks: &Vec<Token>, p: usize) -> (r: Option<(Value, usize)>)
    ensures
        match r {
            Some((v, k)) => read_as(
                toks_view(toks@),
                p as int,
                k as int,
                sp_value(toks_view(toks@), p as int),
                render_value(v),
            ),
            None => sp_value(toks_view(toks@), p as int) is None,
        },
{
    let ghost t = toks_view(toks@);
    if p >= toks.len() {
        return None;
    }
    let v = match &toks[p] {
        Token::Int(s) => Value::Int(s.clone()),
        Token::Str(s) => Value::Str(s.clone()),
        Token::Float(s) => Value::Float(s.clone()),
        Token::Date(s) => Value::Date(s.clone()),
        Token::Kw(k) => {
            if *k == Kw::Null {
                Value::Null
            } else {
                return None;
            }
        },
        _ => {
            return None;
        },
    };
    assert(t.subrange(p as int, p + 1) =~= render_value(v));
    Some((v, p + 1))
}


// ---------------------------------------------------------------- fields

fn p_column_field(toks: &Vec<Token>, p: usize) -> (r: Option<(Field, usize)>)
    ensures
        match r {
            Some((f, k)) => read_as(
                toks_view(toks@),
                p as int,
                k as int,
                sp_column_field(toks_view(toks@), p as int),
                render_field(f),
            ) && f is ColumnField,
            None => sp_column_field(toks_view(toks@), p as int) is None,
        },
{
    let ghost t = toks_view(toks@);
    let name = match ident_at(toks, p) {
        Some(s) => s,
        None => {
            return None;
        },
    };
    match p_type(toks, p + 1) {
        None => None,
        Some((ty, q)) => {
            let mut e = q;
            let mut not_null = false;
            if at_kw(toks, q, Kw::Not) {
                if at_kw(toks, q + 1, Kw::Null) {
                    e = q + 2;
                    not_null = true;
                } else {
                    return None;
                }
            }
            assert(t.subrange(q as int, e as int) =~= render_not_null(not_null));
            if at_kw(toks, e, Kw::Default) {
                match p_value(toks, e + 1) {
                    Some((v, k)) => {
                        let f = Field::ColumnField {
                            col_name: name,
                            ty: ty,
                            not_null: not_null,
                            default_value: Some(v),
                        };
                        assert(t.subrange(p as int, k as int) =~= tok_name(name) + t.subrange(
                            p + 1,
                            q as int,
                        ) + t.subrange(q as int, e as int) + (seq![kw(Kw::Default)]
                            + t.subrange(e + 1, k as int)));
                        return Some((f, k));
                    },
                    None => {
                        return None;
                    },
                }
            }
            let f = Field::ColumnField {
                col_name: name,
                ty: ty,
                not_null: not_null,
                default_value: None,
            };
            assert(t.subrange(p as int, e as int) =~= tok_name(name) + t.subrange(p + 1, q as int)
                + t.subrange(q as int, e as int) + Seq::<STok>::empty());
            Some((f, e))
        },
    }
}

fn p_foreign_tail(toks: &Vec<Token>, p: usize) -> (r: Option<(Vec<String>, String, Vec<String>, usize)>)
    ensures
        match r {
            Some((a, b, c, k)) => read_as(
                toks_view(toks@),
                p as int,
                k as int,
                sp_foreign_tail(toks_view(toks@), p as int),
                paren(render_names(a@)) + seq![kw(Kw::References)] + tok_name(b) + paren(
                    render_names(c@),
                ),
            ) && a@.len() >= 1 && c@.len() >= 1,
            None => sp_foreign_tail(toks_view(toks@), p as int) is None,
        },
{
    let ghost t = toks_view(toks@);
    match p_paren_names(toks, p) {
        None => None,
        Some((a, q)) => {
            if !at_kw(toks, q, Kw::References) {
                return None;
            }
            let b = match ident_at(toks, q + 1) {
                Some(s) => s,
                None => {
                    return None;
                },
            };
            match p_paren_names(toks, q + 2) {
                None => None,
                Some((c, k)) => {
                    assert(t.subrange(p as int, k as int) =~= t.subrange(p as int, q as int)
                        + seq![kw(Kw::References)] + tok_name(b) + t.subrange(q + 2, k as int));
                    Some((a, b, c, k))
                },
            }
        },
    }
}

fn p_field(toks: &Vec<Token>, p: usize) -> (r: Option<(Field, usize)>)
    ensures
        match r {
            Some((f, k)) => read_as(
                toks_view(toks@),
                p as int,
                k as int,
                sp_field(toks_view(toks@), p as int),
                render_field(f),
            ) && wf_field(f),
            None => sp_field(toks_view(toks@), p as int) is None,
        },
{
    let ghost t = toks_view(toks@);
    if at_kw(toks, p, Kw::Primary) {
        if !at_kw(toks, p + 1, Kw::Key) {
            return None;
        }
        match p_paren_names(toks, p + 2) {
            None => None,
            Some((v, k)) => {
                let f = Field::PrimaryKeyField { column_list: v };
                assert(t.subrange(p as int, k as int) =~= seq![kw(Kw::Primary), kw(Kw::Key)]
                    + t.subrange(p + 2, k as int));
                assert(t.subrange(p as int, k as int) =~= render_field(f));
                Some((f, k))
            },
        }
    } else if at_kw(toks, p, Kw::Foreign) {
        if !at_kw(toks, p + 1, Kw::Key) {
            return None;
        }
        match p_foreign_tail(toks, p + 2) {
            None => None,
            Some((a, b, c, k)) => {
                let f = Field::ForeignKeyField {
                    column_list: a,
                    foreign_tb_name: b,
                    foreign_column_list: c,
                };
                assert(t.subrange(p as int, k as int) =~= seq![kw(Kw::Foreign), kw(Kw::Key)]
                    + t.subrange(p + 2, k as int));
                assert(t.subrange(p as int, k as int) =~= render_field(f));
                Some((f, k))
            },
        }
    } else {
        p_column_field(toks, p)
    }
}

fn p_fields(toks: &Vec<Token>, p: usize) -> (r: Option<(Vec<Field>, usize)>)
    requires
        p <= toks@.len(),
    ensures
        match r {
            Some((v, k)) => read_as(
                toks_view(toks@),
                p as int,
                k as int,
                sp_fields(toks_view(toks@), p as int),
                render_fields(v@),
            ) && v@.len() >= 1 && forall|i: int| 0 <= i < v@.len() ==> wf_field(#[trigger] v@[i]),
            None => sp_fields(toks_view(toks@), p as int) is None,
        },
{
    let ghost t = toks_view(toks@);
    let mut v: Vec<Field> = Vec::new();
    let mut cur = p;
    loop
        invariant
            t == toks_view(toks@),
            p <= cur <= toks@.len(),
            sp_fields(t, p as int) == sp_fields(t, cur as int),
            v@.len() == 0 ==> cur == p,
            v@.len() > 0 ==> p + 1 <= cur && is_tok(t, cur - 1, STok::Comma) && t.subrange(
                p as int,
                cur - 1,
            ) == render_fields(v@),
            forall|i: int| 0 <= i < v@.len() ==> wf_field(#[trigger] v@[i]),
        decreases toks@.len() - cur,
    {
        match p_field(toks, cur) {
            None => {
                return None;
            },
            Some((x, q)) => {
                let ghost old_v = v@;
                v.push(x);
                proof {
                    lemma_sep_render_push(old_v, |f: Field| render_field(f), STok::Comma, x);
                    if old_v.len() > 0 {
                        assert(t.subrange(p as int, q as int) =~= t.subrange(p as int, cur - 1)
                            + seq![STok::Comma] + t.subrange(cur as int, q as int));
                    }
                    assert(forall|i: int| 0 <= i < old_v.len() ==> v@[i] == old_v[i]);
                }
                if at(toks, q, Token::Comma) {
                    cur = q + 1;
                } else {
                    return Some((v, q));
                }
            },
        }
    }
}

// ---------------------------------------------------------------- values

fn p_values(toks: &Vec<Token>, p: usize) -> (r: Option<(Vec<Value>, usize)>)
    requires
        p <= toks@.len(),
    ensures
        match r {
            Some((v, k)) => read_as(
                toks_view(toks@),
                p as int,
                k as int,
                sp_values(toks_view(toks@), p as int),
                render_values(v@),
            ) && v@.len() >= 1,
            None => sp_values(toks_view(toks@), p as int) is None,
        },
{
    let ghost t = toks_view(toks@);
    let mut v: Vec<Value> = Vec::new();
    let mut cur = p;
    loop
        invariant
            t == toks_view(toks@),
            p <= cur <= toks@.len(),
            sp_values(t, p as int) == sp_values(t, cur as int),
            v@.len() == 0 ==> cur == p,
            v@.len() > 0 ==> p + 1 <= cur && is_tok(t, cur - 1, STok::Comma) && t.subrange(
                p as int,
                cur - 1,
            ) == render_values(v@),
        decreases toks@.len() - cur,
    {
        match p_value(toks, cur) {
            None => {
                return None;
            },
            Some((x, q)) => {
                let ghost old_v = v@;
                v.push(x);
                proof {
                    lemma_sep_render_push(old_v, |v: Value| render_value(v), STok::Comma, x);
                    if old_v.len() > 0 {
                        assert(t.subrange(p as int, q as int) =~= t.subrange(p as int, cur - 1)
                            + seq![STok::Comma] + t.subrange(cur as int, q as int));
                    }
                }
                if at(toks, q, Token::Comma) {
                    cur = q + 1;
                } else {
                    return Some((v, q));
                }
            },
        }
    }
}

fn p_value_list(toks: &Vec<Token>, p: usize) -> (r: Option<(Vec<Value>, usize)>)
    ensures
        match r {
            Some((v, k)) => read_as(
                toks_view(toks@),
                p as int,
                k as int,
                sp_value_list(toks_view(toks@), p as int),
                render_value_list(v),
            ) && v@.len() >= 1,
            None => sp_value_list(toks_view(toks@), p as int) is None,
        },
{
    let ghost t = toks_view(toks@);
    if !at(toks, p, Token::LParen) {
        return None;
    }
    match p_values(toks, p + 1) {
        None => None,
        Some((v, q)) => {
            if at(toks, q, Token::RParen) {
                assert(t.subrange(p as int, q + 1) =~= render_value_list(v));
                Some((v, q + 1))
            } else {
                None
            }
        },
    }
}

fn p_value_lists(toks: &Vec<Token>, p: usize) -> (r: Option<(Vec<Vec<Value>>, usize)>)
    requires
        p <= toks@.len(),
    ensures
        match r {
            Some((v, k)) => read_as(
                toks_view(toks@),
                p as int,
                k as int,
                sp_value_lists(toks_view(toks@), p as int),
                render_value_lists(v@),
            ) && v@.len() >= 1 && forall|i: int| 0 <= i < v@.len() ==> (#[trigger] v@[i])@.len()
                >= 1,
            None => sp_value_lists(toks_view(toks@), p as int) is None,
        },
{
    let ghost t = toks_view(toks@);
    let mut v: Vec<Vec<Value>> = Vec::new();
    let mut cur = p;
    loop
        invariant
            t == toks_view(toks@),
            p <= cur <= toks@.len(),
            sp_value_lists(t, p as int) == sp_value_lists(t, cur as int),
            v@.len() == 0 ==> cur == p,
            v@.len() > 0 ==> p + 1 <= cur && is_tok(t, cur - 1, STok::Comma) && t.subrange(
                p as int,
                cur - 1,
            ) == render_value_lists(v@),
            forall|i: int| 0 <= i < v@.len() ==> (#[trigger] v@[i])@.len() >= 1,
        decreases toks@.len() - cur,
    {
        match p_value_list(toks, cur) {
            None => {
                return None;
            },
            Some((x, q)) => {
                let ghost old_v = v@;
                v.push(x);
                proof {
                    lemma_sep_render_push(
                        old_v,
                        |v: Vec<Value>| render_value_list(v),
                        STok::Comma,
                        x,
                    );
                    if old_v.len() > 0 {
                        assert(t.subrange(p as int, q as int) =~= t.subrange(p as int, cur - 1)
                            + seq![STok::Comma] + t.subrange(cur as int, q as int));
                    }
                    assert(forall|i: int| 0 <= i < old_v.len() ==> v@[i] == old_v[i]);
                }
                if at(toks, q, Token::Comma) {
                    cur = q + 1;
                } else {
                    return Some((v, q));
                }
            },
        }
    }
}

// ---------------------------------------------------------------- conditions

fn p_column(toks: &Vec<Token>, p: usize) -> (r: Option<(Column, usize)>)
    ensures
        match r {
            Some((c, k)) => read_as(
                toks_view(toks@),
                p as int,
                k as int,
                sp_column(toks_view(toks@), p as int),
                render_column(c),
            ),
            None => sp_column(toks_view(toks@), p as int) is None,
        },
{
    let ghost t = toks_view(toks@);
    let first = match ident_at(toks, p) {
        Some(s) => s,
        None => {
            return None;
        },
    };
    if at(toks, p + 1, Token::Dot) {
        match ident_at(toks, p + 2) {
            Some(second) => {
                let c = Column { tb_name: Some(first), col_name: second };
                assert(t.subrange(p as int, p + 3) =~= render_column(c));
                Some((c, p + 3))
            },
            None => None,
        }
    } else {
        let c = Column { tb_name: None, col_name: first };
        assert(t.subrange(p as int, p + 1) =~= render_column(c));
        Some((c, p + 1))
    }
}

fn p_columns(toks: &Vec<Token>, p: usize) -> (r: Option<(Vec<Column>, usize)>)
    requires
        p <= toks@.len(),
    ensures
        match r {
            Some((v, k)) => read_as(
                toks_view(toks@),
                p as int,
                k as int,
                sp_columns(toks_view(toks@), p as int),
                render_columns(v@),
            ) && v@.len() >= 1,
            None => sp_columns(toks_view(toks@), p as int) is None,
        },
{
    let ghost t = toks_view(toks@);
    let mut v: Vec<Column> = Vec::new();
    let mut cur = p;
    loop
        invariant
            t == toks_view(toks@),
            p <= cur <= toks@.len(),
            sp_columns(t, p as int) == sp_columns(t, cur as int),
            v@.len() == 0 ==> cur == p,
            v@.len() > 0 ==> p + 1 <= cur && is_tok(t, cur - 1, STok::Comma) && t.subrange(
                p as int,
                cur - 1,
            ) == render_columns(v@),
        decreases toks@.len() - cur,
    {
        match p_column(toks, cur) {
            None => {
                return None;
            },
            Some((x, q)) => {
                let ghost old_v = v@;
                v.push(x);
                proof {
                    lemma_sep_render_push(old_v, |c: Column| render_column(c), STok::Comma, x);
                    if old_v.len() > 0 {
                        assert(t.subrange(p as int, q as int) =~= t.subrange(p as int, cur - 1)
                            + seq![STok::Comma] + t.subrange(cur as int, q as int));
                    }
                }
                if at(toks, q, Token::Comma) {
                    cur = q + 1;
                } else {
                    return Some((v, q));
                }
            },
        }
    }
}

fn p_op(toks: &Vec<Token>, p: usize) -> (r: Option<Op>)
    ensures
        match r {
            Some(op) => (p as int) < toks@.len() && toks_view(toks@)[p as int] == op_tok(op),
            None => !((p as int) < toks@.len() && is_op(toks_view(toks@)[p as int])),
        },
{
    if p >= toks.len() {
        return None;
    }
    match &toks[p] {
        Token::Eq => Some(Op::Equal),
        Token::Ne => Some(Op::NotEqual),
        Token::Le => Some(Op::LessEqual),
        Token::Ge => Some(Op::GreaterEqual),
        Token::Lt => Some(Op::Less),
        Token::Gt => Some(Op::Greater),
        _ => None,
    }
}

fn p_expr(toks: &Vec<Token>, p: usize) -> (r: Option<(Expr, usize)>)
    ensures
        match r {
            Some((e, k)) => read_as(
                toks_view(toks@),
                p as int,
                k as int,
                sp_expr(toks_view(toks@), p as int),
                render_expr(e),
            ),
            None => sp_expr(toks_view(toks@), p as int) is None,
        },
{
    match ident_at(toks, p) {
        Some(_) => match p_column(toks, p) {
            Some((c, k)) => Some((Expr::Column(c), k)),
            None => None,
        },
        None => match p_value(toks, p) {
            Some((v, k)) => Some((Expr::Value(v), k)),
            None => None,
        },
    }
}

fn p_where(toks: &Vec<Token>, p: usize) -> (r: Option<(WhereClause, usize)>)
    ensures
        match r {
            Some((w, k)) => read_as(
                toks_view(toks@),
                p as int,
                k as int,
                sp_where(toks_view(toks@), p as int),
                render_where(w),
            ),
            None => sp_where(toks_view(toks@), p as int) is None,
        },
{
    let ghost t = toks_view(toks@);
    match p_column(toks, p) {
        None => None,
        Some((col, q)) => {
            if at_kw(toks, q, Kw::Is) {
                if at_kw(toks, q + 1, Kw::Not) {
                    if at_kw(toks, q + 2, Kw::Null) {
                        let w = WhereClause::IsAssert { col: col, null: false };
                        assert(t.subrange(p as int, q + 3) =~= t.subrange(p as int, q as int)
                            + seq![kw(Kw::Is), kw(Kw::Not), kw(Kw::Null)]);
                        Some((w, q + 3))
                    } else {
                        None
                    }
                } else if at_kw(toks, q + 1, Kw::Null) {
                    let w = WhereClause::IsAssert { col: col, null: true };
                    assert(t.subrange(p as int, q + 2) =~= t.subrange(p as int, q as int) + seq![
                        kw(Kw::Is),
                        kw(Kw::Null),
                    ]);
                    Some((w, q + 2))
                } else {
                    None
                }
            } else {
                match p_op(toks, q) {
                    None => None,
                    Some(op) => match p_expr(toks, q + 1) {
                        None => None,
                        Some((e, k)) => {
                            let w = WhereClause::Comparison { col: col, op: op, expr: e };
                            assert(t.subrange(p as int, k as int) =~= t.subrange(p as int, q as int)
                                + seq![op_tok(op)] + t.subrange(q + 1, k as int));
                            Some((w, k))
                        },
                    },
                }
            }
        },
    }
}

fn p_wheres(toks: &Vec<Token>, p: usize) -> (r: Option<(Vec<WhereClause>, usize)>)
    requires
        p <= toks@.len(),
    ensures
        match r {
            Some((v, k)) => read_as(
                toks_view(toks@),
                p as int,
                k as int,
                sp_wheres(toks_view(toks@), p as int),
                render_wheres(v@),
            ) && v@.len() >= 1,
            None => sp_wheres(toks_view(toks@), p as int) is None,
        },
{
    let ghost t = toks_view(toks@);
    let mut v: Vec<WhereClause> = Vec::new();
    let mut cur = p;
    loop
        invariant
            t == toks_view(toks@),
            p <= cur <= toks@.len(),
            sp_wheres(t, p as int) == sp_wheres(t, cur as int),
            v@.len() == 0 ==> cur == p,
            v@.len() > 0 ==> p + 1 <= cur && is_kw(t, cur - 1, Kw::And) && t.subrange(
                p as int,
                cur - 1,
            ) == render_wheres(v@),
        decreases toks@.len() - cur,
    {
        match p_where(toks, cur) {
            None => {
                return None;
            },
            Some((x, q)) => {
                let ghost old_v = v@;
                v.push(x);
                proof {
                    lemma_sep_render_push(
                        old_v,
                        |w: WhereClause| render_where(w),
                        kw(Kw::And),
                        x,
                    );
                    if old_v.len() > 0 {
                        assert(t.subrange(p as int, q as int) =~= t.subrange(p as int, cur - 1)
                            + seq![kw(Kw::And)] + t.subrange(cur as int, q as int));
                    }
                }
                if at_kw(toks, q, Kw::And) {
                    cur = q + 1;
                } else {
                    return Some((v, q));
                }
            },
        }
    }
}

fn p_opt_where(toks: &Vec<Token>, p: usize) -> (r: Option<(Option<Vec<WhereClause>>, usize)>)
    requires
        p <= toks@.len(),
    ensures
        match r {
            Some((o, k)) => sp_opt_where(toks_view(toks@), p as int) == Some(k as int) && p <= k
                <= toks@.len() && toks_view(toks@).subrange(p as int, k as int)
                == render_opt_where(o) && wf_opt_where(o),
            None => sp_opt_where(toks_view(toks@), p as int) is None,
        },
{
    let ghost t = toks_view(toks@);
    if at_kw(toks, p, Kw::Where) {
        match p_wheres(toks, p + 1) {
            None => None,
            Some((v, k)) => {
                assert(t.subrange(p as int, k as int) =~= seq![kw(Kw::Where)] + t.subrange(
                    p + 1,
                    k as int,
                ));
                Some((Some(v), k))
            },
        }
    } else {
        assert(t.subrange(p as int, p as int) =~= Seq::<STok>::empty());
        Some((None, p))
    }
}

fn p_set(toks: &Vec<Token>, p: usize) -> (r: Option<(SetClause, usize)>)
    ensures
        match r {
            Some((c, k)) => read_as(
                toks_view(toks@),
                p as int,
                k as int,
                sp_set(toks_view(toks@), p as int),
                render_set(c),
            ),
            None => sp_set(toks_view(toks@), p as int) is None,
        },
{
    let ghost t = toks_view(toks@);
    let name = match ident_at(toks, p) {
        Some(s) => s,
        None => {
            return None;
        },
    };
    if !at(toks, p + 1, Token::Eq) {
        return None;
    }
    match p_value(toks, p + 2) {
        None => None,
        Some((v, k)) => {
            let c = SetClause { col_name: name, value: v };
            assert(t.subrange(p as int, k as int) =~= seq![STok::Ident(name@), STok::Eq]
                + t.subrange(p + 2, k as int));
            Some((c, k))
        },
    }
}

fn p_sets(toks: &Vec<Token>, p: usize) -> (r: Option<(Vec<SetClause>, usize)>)
    requires
        p <= toks@.len(),
    ensures
        match r {
            Some((v, k)) => read_as(
                toks_view(toks@),
                p as int,
                k as int,
                sp_sets(toks_view(toks@), p as int),
                render_sets(v@),
            ) && v@.len() >= 1,
            None => sp_sets(toks_view(toks@), p as int) is None,
        },
{
    let ghost t = toks_view(toks@);
    let mut v: Vec<SetClause> = Vec::new();
    let mut cur = p;
    loop
        invariant
            t == toks_view(toks@),
            p <= cur <= toks@.len(),
            sp_sets(t, p as int) == sp_sets(t, cur as int),
            v@.len() == 0 ==> cur == p,
            v@.len() > 0 ==> p + 1 <= cur && is_tok(t, cur - 1, STok::Comma) && t.subrange(
                p as int,
                cur - 1,
            ) == render_sets(v@),
        decreases toks@.len() - cur,
    {
        match p_set(toks, cur) {
            None => {
                return None;
            },
            Some((x, q)) => {
                let ghost old_v = v@;
                v.push(x);
                proof {
                    lemma_sep_render_push(old_v, |c: SetClause| render_set(c), STok::Comma, x);
                    if old_v.len() > 0 {
                        assert(t.subrange(p as int, q as int) =~= t.subrange(p as int, cur - 1)
                            + seq![STok::Comma] + t.subrange(cur as int, q as int));
                    }
                }
                if at(toks, q, Token::Comma) {
                    cur = q + 1;
                } else {
                    return Some((v, q));
                }
            },
        }
    }
}

fn p_selector(toks: &Vec<Token>, p: usize) -> (r: Option<(Selector, usize)>)
    requires
        p <= toks@.len(),
    ensures
        match r {
            Some((s, k)) => read_as(
                toks_view(toks@),
                p as int,
                k as int,
                sp_selector(toks_view(toks@), p as int),
                render_selector(s),
            ) && (s matches Selector::Columns(v) ==> v@.len() >= 1),
            None => sp_selector(toks_view(toks@), p as int) is None,
        },
{
    let ghost t = toks_view(toks@);
    if at(toks, p, Token::Star) {
        assert(t.subrange(p as int, p + 1) =~= render_selector(Selector::All));
        Some((Selector::All, p + 1))
    } else {
        match p_columns(toks, p) {
            None => None,
            Some((v, k)) => Some((Selector::Columns(v), k)),
        }
    }
}


// ---------------------------------------------------------------- statements

fn p_show(toks: &Vec<Token>, p: usize) -> (r: Option<(Stmt, usize)>)
    requires
        is_kw(toks_view(toks@), p as int, Kw::Show),
    ensures
        match r {
            Some((s, k)) => read_as(
                toks_view(toks@),
                p as int,
                k as int,
                sp_show(toks_view(toks@), p as int),
                render_stmt(s),
            ) && wf_stmt(s),
            None => sp_show(toks_view(toks@), p as int) is None,
        },
{
    let ghost t = toks_view(toks@);
    let n = toks.len();
    assert(p < n);
    if at_kw(toks, p + 1, Kw::Databases) {
        let s = Stmt::System(SystemStmt::ShowDatabases);
        assert(t.subrange(p as int, p + 2) =~= render_stmt(s));
        Some((s, p + 2))
    } else if at_kw(toks, p + 1, Kw::Tables) {
        let s = Stmt::Database(DatabaseStmt::ShowTables);
        assert(t.subrange(p as int, p + 2) =~= render_stmt(s));
        Some((s, p + 2))
    } else {
        None
    }
}

fn p_create(toks: &Vec<Token>, p: usize) -> (r: Option<(Stmt, usize)>)
    requires
        is_kw(toks_view(toks@), p as int, Kw::Create),
    ensures
        match r {
            Some((s, k)) => read_as(
                toks_view(toks@),
                p as int,
                k as int,
                sp_create(toks_view(toks@), p as int),
                render_stmt(s),
            ) && wf_stmt(s),
            None => sp_create(toks_view(toks@), p as int) is None,
        },
{
    let ghost t = toks_view(toks@);
    let n = toks.len();
    assert(p < n);
    if at_kw(toks, p + 1, Kw::Database) {
        match p_name(toks, p + 2) {
            Some((n, k)) => {
                let s = Stmt::Database(DatabaseStmt::CreateDatabase { db_name: n });
                assert(t.subrange(p as int, k as int) =~= render_stmt(s));
                Some((s, k))
            },
            None => None,
        }
    } else if at_kw(toks, p + 1, Kw::Table) {
        let tb = match ident_at(toks, p + 2) {
            Some(x) => x,
            None => {
                return None;
            },
        };
        if !at(toks, p + 3, Token::LParen) {
            return None;
        }
        match p_fields(toks, p + 4) {
            None => None,
            Some((v, q)) => {
                if at(toks, q, Token::RParen) {
                    let s = Stmt::Table(TableStmt::CreateTable { tb_name: tb, field_list: v });
                    assert(t.subrange(p as int, q + 1) =~= seq![kw(Kw::Create), kw(Kw::Table)]
                        + tok_name(tb) + paren(t.subrange(p + 4, q as int)));
                    Some((s, q + 1))
                } else {
                    None
                }
            },
        }
    } else if at_kw(toks, p + 1, Kw::Index) {
        let idx = match ident_at(toks, p + 2) {
            Some(x) => x,
            None => {
                return None;
            },
        };
        if !at_kw(toks, p + 3, Kw::On) {
            return None;
        }
        let tb = match ident_at(toks, p + 4) {
            Some(x) => x,
            None => {
                return None;
            },
        };
        match p_paren_names(toks, p + 5) {
            None => None,
            Some((v, k)) => {
                let s = Stmt::Index(
                    IndexStmt::CreateIndex { idx_name: idx, tb_name: tb, column_list: v },
                );
                assert(t.subrange(p as int, k as int) =~= seq![kw(Kw::Create), kw(Kw::Index)]
                    + tok_name(idx) + seq![kw(Kw::On)] + tok_name(tb) + t.subrange(
                    p + 5,
                    k as int,
                ));
                Some((s, k))
            },
        }
    } else {
        None
    }
}

fn p_drop(toks: &Vec<Token>, p: usize) -> (r: Option<(Stmt, usize)>)
    requires
        is_kw(toks_view(toks@), p as int, Kw::Drop),
    ensures
        match r {
            Some((s, k)) => read_as(
                toks_view(toks@),
                p as int,
                k as int,
                sp_drop(toks_view(toks@), p as int),
                render_stmt(s),
            ) && wf_stmt(s),
            None => sp_drop(toks_view(toks@), p as int) is None,
        },
{
    let ghost t = toks_view(toks@);
    let n = toks.len();
    assert(p < n);
    let is_db = at_kw(toks, p + 1, Kw::Database);
    if is_db || at_kw(toks, p + 1, Kw::Table) {
        match p_name(toks, p + 2) {
            Some((n, k)) => {
                let s = if is_db {
                    Stmt::Database(DatabaseStmt::DropDatabase { db_name: n })
                } else {
                    Stmt::Table(TableStmt::DropTable { tb_name: n })
                };
                assert(t.subrange(p as int, k as int) =~= render_stmt(s));
                Some((s, k))
            },
            None => None,
        }
    } else if at_kw(toks, p + 1, Kw::Index) {
        let idx = match ident_at(toks, p + 2) {
            Some(x) => x,
            None => {
                return None;
            },
        };
        if !at_kw(toks, p + 3, Kw::On) {
            return None;
        }
        match p_name(toks, p + 4) {
            Some((tb, k)) => {
                let s = Stmt::Index(IndexStmt::DropIndex { idx_name: idx, tb_name: tb });
                assert(t.subrange(p as int, k as int) =~= render_stmt(s));
                Some((s, k))
            },
            None => None,
        }
    } else {
        None
    }
}

/// The head `alter table <tb> <word>` stands at `p`.
pub open spec fn alter_at(t: Seq<STok>, p: int, tb: String, k: Kw) -> bool {
    is_kw(t, p, Kw::Alter) && is_kw(t, p + 1, Kw::Table) && 0 <= p + 2 < t.len() && t[p + 2]
        == STok::Ident(tb@) && is_kw(t, p + 3, k)
}

fn p_alter_add(toks: &Vec<Token>, p: usize, tb: String) -> (r: Option<(Stmt, usize)>)
    requires
        alter_at(toks_view(toks@), p as int, tb, Kw::Add),
    ensures
        match r {
            Some((s, k)) => sp_alter_add(toks_view(toks@), p + 4) == Some(k as int) && p < k
                <= toks@.len() && toks_view(toks@).subrange(p as int, k as int) == render_stmt(s)
                && wf_stmt(s),
            None => sp_alter_add(toks_view(toks@), p + 4) is None,
        },
{
    let ghost t = toks_view(toks@);
    let n = toks.len();
    assert(p < n);
    let a = p + 4;
    assert(t.subrange(p as int, a as int) =~= alter_head(tb) + seq![kw(Kw::Add)]);
    if at_kw(toks, a, Kw::Index) {
        let idx = match ident_at(toks, a + 1) {
            Some(x) => x,
            None => {
                return None;
            },
        };
        match p_paren_names(toks, a + 2) {
            None => None,
            Some((v, k)) => {
                let s = Stmt::Index(
                    IndexStmt::AlterAddIndex { idx_name: idx, tb_name: tb, column_list: v },
                );
                assert(t.subrange(p as int, k as int) =~= alter_head(tb) + seq![
                    kw(Kw::Add),
                    kw(Kw::Index),
                ] + tok_name(idx) + t.subrange(a + 2, k as int));
                Some((s, k))
            },
        }
    } else if at_kw(toks, a, Kw::Primary) {
        if !at_kw(toks, a + 1, Kw::Key) {
            return None;
        }
        match p_paren_names(toks, a + 2) {
            None => None,
            Some((v, k)) => {
                let s = Stmt::Alter(AlterStmt::AddPrimaryKey { tb_name: tb, column_list: v });
                assert(t.subrange(p as int, k as int) =~= alter_head(tb) + seq![
                    kw(Kw::Add),
                    kw(Kw::Primary),
                    kw(Kw::Key),
                ] + t.subrange(a + 2, k as int));
                Some((s, k))
            },
        }
    } else if at_kw(toks, a, Kw::Constraint) {
        p_add_constraint(toks, p, tb)
    } else {
        match p_column_field(toks, a) {
            None => None,
            Some((f, k)) => {
                let s = Stmt::Alter(AlterStmt::AddColumn { tb_name: tb, field: f });
                assert(t.subrange(p as int, k as int) =~= t.subrange(p as int, a as int)
                    + t.subrange(a as int, k as int));
                Some((s, k))
            },
        }
    }
}


fn p_add_constraint(toks: &Vec<Token>, p: usize, tb: String) -> (r: Option<(Stmt, usize)>)
    requires
        alter_at(toks_view(toks@), p as int, tb, Kw::Add),
        is_kw(toks_view(toks@), p + 4, Kw::Constraint),
    ensures
        match r {
            Some((s, k)) => sp_alter_add(toks_view(toks@), p + 4) == Some(k as int) && p < k
                <= toks@.len() && toks_view(toks@).subrange(p as int, k as int) == render_stmt(s)
                && wf_stmt(s),
            None => sp_alter_add(toks_view(toks@), p + 4) is None,
        },
{
    let ghost t = toks_view(toks@);
    let n = toks.len();
    assert(p + 4 < n);
    let a = p + 4;
    let cname = match ident_at(toks, a + 1) {
        Some(x) => x,
        None => {
            return None;
        },
    };
    if at_kw(toks, a + 2, Kw::Primary) && at_kw(toks, a + 3, Kw::Key) {
        match p_paren_names(toks, a + 4) {
            None => None,
            Some((v, k)) => {
                let s = Stmt::Alter(
                    AlterStmt::AddConstraintPrimaryKey {
                        tb_name: tb,
                        pk_name: cname,
                        column_list: v,
                    },
                );
                assert(t.subrange(p as int, k as int) =~= alter_head(tb) + seq![
                    kw(Kw::Add),
                    kw(Kw::Constraint),
                ] + tok_name(cname) + seq![kw(Kw::Primary), kw(Kw::Key)] + t.subrange(
                    a + 4,
                    k as int,
                ));
                Some((s, k))
            },
        }
    } else if at_kw(toks, a + 2, Kw::Foreign) && at_kw(toks, a + 3, Kw::Key) {
        match p_foreign_tail(toks, a + 4) {
            None => None,
            Some((cl, ftb, fcl, k)) => {
                let s = Stmt::Alter(
                    AlterStmt::AddConstraintForeignKey {
                        tb_name: tb,
                        fk_name: cname,
                        column_list: cl,
                        foreign_tb_name: ftb,
                        foreign_column_list: fcl,
                    },
                );
                assert(t.subrange(p as int, k as int) =~= alter_head(tb) + seq![
                    kw(Kw::Add),
                    kw(Kw::Constraint),
                ] + tok_name(cname) + seq![kw(Kw::Foreign), kw(Kw::Key)] + t.subrange(
                    a + 4,
                    k as int,
                ));
                assert(t.subrange(p as int, k as int) =~= render_stmt(s));
                Some((s, k))
            },
        }
    } else {
        None
    }
}

fn p_alter_drop(toks: &Vec<Token>, p: usize, tb: String) -> (r: Option<(Stmt, usize)>)
    requires
        alter_at(toks_view(toks@), p as int, tb, Kw::Drop),
    ensures
        match r {
            Some((s, k)) => sp_alter_drop(toks_view(toks@), p + 4) == Some(k as int) && p < k
                <= toks@.len() && toks_view(toks@).subrange(p as int, k as int) == render_stmt(s)
                && wf_stmt(s),
            None => sp_alter_drop(toks_view(toks@), p + 4) is None,
        },
{
    let ghost t = toks_view(toks@);
    let n = toks.len();
    assert(p < n);
    let a = p + 4;
    if at_kw(toks, a, Kw::Index) {
        match p_name(toks, a + 1) {
            None => None,
            Some((idx, k)) => {
                let s = Stmt::Index(IndexStmt::AlterDropIndex { idx_name: idx, tb_name: tb });
                assert(t.subrange(p as int, k as int) =~= render_stmt(s));
                Some((s, k))
            },
        }
    } else if at_kw(toks, a, Kw::Primary) {
        if !at_kw(toks, a + 1, Kw::Key) {
            return None;
        }
        match ident_at(toks, a + 2) {
            Some(pk) => {
                let s = Stmt::Alter(
                    AlterStmt::DropConstraintPrimaryKey { tb_name: tb, pk_name: pk },
                );
                assert(t.subrange(p as int, a + 3) =~= render_stmt(s));
                Some((s, a + 3))
            },
            None => {
                let s = Stmt::Alter(AlterStmt::DropPrimaryKey { tb_name: tb });
                assert(t.subrange(p as int, a + 2) =~= render_stmt(s));
                Some((s, a + 2))
            },
        }
    } else if at_kw(toks, a, Kw::Foreign) {
        if !at_kw(toks, a + 1, Kw::Key) {
            return None;
        }
        match p_name(toks, a + 2) {
            None => None,
            Some((fk, k)) => {
                let s = Stmt::Alter(
                    AlterStmt::DropConstraintForeignKey { tb_name: tb, fk_name: fk },
                );
                assert(t.subrange(p as int, k as int) =~= render_stmt(s));
                Some((s, k))
            },
        }
    } else {
        match p_name(toks, a) {
            None => None,
            Some((col, k)) => {
                let s = Stmt::Alter(AlterStmt::DropColumn { tb_name: tb, col_name: col });
                assert(t.subrange(p as int, k as int) =~= render_stmt(s));
                Some((s, k))
            },
        }
    }
}

fn p_alter(toks: &Vec<Token>, p: usize) -> (r: Option<(Stmt, usize)>)
    requires
        is_kw(toks_view(toks@), p as int, Kw::Alter),
    ensures
        match r {
            Some((s, k)) => read_as(
                toks_view(toks@),
                p as int,
                k as int,
                sp_alter(toks_view(toks@), p as int),
                render_stmt(s),
            ) && wf_stmt(s),
            None => sp_alter(toks_view(toks@), p as int) is None,
        },
{
    let ghost t = toks_view(toks@);
    let n = toks.len();
    assert(p < n);
    if !at_kw(toks, p + 1, Kw::Table) {
        return None;
    }
    let tb = match ident_at(toks, p + 2) {
        Some(x) => x,
        None => {
            return None;
        },
    };
    if at_kw(toks, p + 3, Kw::Add) {
        p_alter_add(toks, p, tb)
    } else if at_kw(toks, p + 3, Kw::Drop) {
        p_alter_drop(toks, p, tb)
    } else if at_kw(toks, p + 3, Kw::Change) {
        let col = match ident_at(toks, p + 4) {
            Some(x) => x,
            None => {
                return None;
            },
        };
        match p_column_field(toks, p + 5) {
            None => None,
            Some((f, k)) => {
                let s = Stmt::Alter(
                    AlterStmt::ChangeColumn { tb_name: tb, col_name: col, field: f },
                );
                assert(t.subrange(p as int, k as int) =~= alter_head(tb) + seq![kw(Kw::Change)]
                    + tok_name(col) + t.subrange(p + 5, k as int));
                Some((s, k))
            },
        }
    } else if at_kw(toks, p + 3, Kw::Rename) {
        if !at_kw(toks, p + 4, Kw::To) {
            return None;
        }
        match p_name(toks, p + 5) {
            None => None,
            Some((n, k)) => {
                let s = Stmt::Alter(AlterStmt::RenameTable { tb_name: tb, new_name: n });
                assert(t.subrange(p as int, k as int) =~= render_stmt(s));
                Some((s, k))
            },
        }
    } else {
        None
    }
}

fn p_insert(toks: &Vec<Token>, p: usize) -> (r: Option<(Stmt, usize)>)
    requires
        is_kw(toks_view(toks@), p as int, Kw::Insert),
    ensures
        match r {
            Some((s, k)) => read_as(
                toks_view(toks@),
                p as int,
                k as int,
                sp_stmt(toks_view(toks@), p as int),
                render_stmt(s),
            ) && wf_stmt(s),
            None => sp_stmt(toks_view(toks@), p as int) is None,
        },
{
    let ghost t = toks_view(toks@);
    let n = toks.len();
    assert(p < n);
    if !at_kw(toks, p + 1, Kw::Into) {
        return None;
    }
    let tb = match ident_at(toks, p + 2) {
        Some(x) => x,
        None => {
            return None;
        },
    };
    if !at_kw(toks, p + 3, Kw::Values) {
        return None;
    }
    match p_value_lists(toks, p + 4) {
        None => None,
        Some((v, k)) => {
            let s = Stmt::Table(TableStmt::Insert { tb_name: tb, value_lists: v });
            assert(t.subrange(p as int, k as int) =~= seq![kw(Kw::Insert), kw(Kw::Into)]
                + tok_name(tb) + seq![kw(Kw::Values)] + t.subrange(p + 4, k as int));
            Some((s, k))
        },
    }
}

fn p_delete(toks: &Vec<Token>, p: usize) -> (r: Option<(Stmt, usize)>)
    requires
        is_kw(toks_view(toks@), p as int, Kw::Delete),
    ensures
        match r {
            Some((s, k)) => read_as(
                toks_view(toks@),
                p as int,
                k as int,
                sp_stmt(toks_view(toks@), p as int),
                render_stmt(s),
            ) && wf_stmt(s),
            None => sp_stmt(toks_view(toks@), p as int) is None,
        },
{
    let ghost t = toks_view(toks@);
    let n = toks.len();
    assert(p < n);
    if !at_kw(toks, p + 1, Kw::From) {
        return None;
    }
    let tb = match ident_at(toks, p + 2) {
        Some(x) => x,
        None => {
            return None;
        },
    };
    match p_opt_where(toks, p + 3) {
        None => None,
        Some((w, k)) => {
            let s = Stmt::Table(TableStmt::Delete { tb_name: tb, where_clause: w });
            assert(t.subrange(p as int, k as int) =~= seq![kw(Kw::Delete), kw(Kw::From)]
                + tok_name(tb) + t.subrange(p + 3, k as int));
            Some((s, k))
        },
    }
}

fn p_update(toks: &Vec<Token>, p: usize) -> (r: Option<(Stmt, usize)>)
    requires
        is_kw(toks_view(toks@), p as int, Kw::Update),
    ensures
        match r {
            Some((s, k)) => read_as(
                toks_view(toks@),
                p as int,
                k as int,
                sp_stmt(toks_view(toks@), p as int),
                render_stmt(s),
            ) && wf_stmt(s),
            None => sp_stmt(toks_view(toks@), p as int) is None,
        },
{
    let ghost t = toks_view(toks@);
    let n = toks.len();
    assert(p < n);
    let tb = match ident_at(toks, p + 1) {
        Some(x) => x,
        None => {
            return None;
        },
    };
    if !at_kw(toks, p + 2, Kw::SetKw) {
        return None;
    }
    match p_sets(toks, p + 3) {
        None => None,
        Some((sets, q)) => match p_opt_where(toks, q) {
            None => None,
            Some((w, k)) => {
                let s = Stmt::Table(
                    TableStmt::Update { tb_name: tb, set_clause: sets, where_clause: w },
                );
                assert(t.subrange(p as int, k as int) =~= seq![kw(Kw::Update)] + tok_name(tb)
                    + seq![kw(Kw::SetKw)] + t.subrange(p + 3, q as int) + t.subrange(
                    q as int,
                    k as int,
                ));
                Some((s, k))
            },
        },
    }
}

fn p_select(toks: &Vec<Token>, p: usize) -> (r: Option<(Stmt, usize)>)
    requires
        is_kw(toks_view(toks@), p as int, Kw::Select),
    ensures
        match r {
            Some((s, k)) => read_as(
                toks_view(toks@),
                p as int,
                k as int,
                sp_stmt(toks_view(toks@), p as int),
                render_stmt(s),
            ) && wf_stmt(s),
            None => sp_stmt(toks_view(toks@), p as int) is None,
        },
{
    let ghost t = toks_view(toks@);
    let n = toks.len();
    assert(p < n);
    match p_selector(toks, p + 1) {
        None => None,
        Some((sel, q)) => {
            if !at_kw(toks, q, Kw::From) {
                return None;
            }
            match p_names(toks, q + 1) {
                None => None,
                Some((tables, e)) => match p_opt_where(toks, e) {
                    None => None,
                    Some((w, k)) => {
                        let s = Stmt::Table(
                            TableStmt::Select {
                                table_list: tables,
                                selector: sel,
                                where_clause: w,
                            },
                        );
                        assert(t.subrange(p as int, k as int) =~= seq![kw(Kw::Select)]
                            + t.subrange(p + 1, q as int) + seq![kw(Kw::From)] + t.subrange(
                            q + 1,
                            e as int,
                        ) + t.subrange(e as int, k as int));
                        Some((s, k))
                    },
                },
            }
        },
    }
}

fn p_copy(toks: &Vec<Token>, p: usize) -> (r: Option<(Stmt, usize)>)
    requires
        is_kw(toks_view(toks@), p as int, Kw::Copy),
    ensures
        match r {
            Some((s, k)) => read_as(
                toks_view(toks@),
                p as int,
                k as int,
                sp_stmt(toks_view(toks@), p as int),
                render_stmt(s),
            ) && wf_stmt(s),
            None => sp_stmt(toks_view(toks@), p as int) is None,
        },
{
    let ghost t = toks_view(toks@);
    let n = toks.len();
    assert(p < n);
    let tb = match ident_at(toks, p + 1) {
        Some(x) => x,
        None => {
            return None;
        },
    };
    if !at_kw(toks, p + 2, Kw::From) {
        return None;
    }
    if p + 3 < toks.len() {
        match &toks[p + 3] {
            Token::Str(path) => {
                let s = Stmt::Copy(CopyStmt { tb_name: tb, path: path.clone() });
                assert(t.subrange(p as int, p + 4) =~= render_stmt(s));
                return Some((s, p + 4));
            },
            _ => {},
        }
    }
    None
}

/// Reads one statement at `p`.
fn p_stmt(toks: &Vec<Token>, p: usize) -> (r: Option<(Stmt, usize)>)
    ensures
        match r {
            Some((s, k)) => read_as(
                toks_view(toks@),
                p as int,
                k as int,
                sp_stmt(toks_view(toks@), p as int),
                render_stmt(s),
            ) && wf_stmt(s),
            None => sp_stmt(toks_view(toks@), p as int) is None,
        },
{
    if at_kw(toks, p, Kw::Show) {
        p_show(toks, p)
    } else if at_kw(toks, p, Kw::Create) {
        p_create(toks, p)
    } else if at_kw(toks, p, Kw::Drop) {
        p_drop(toks, p)
    } else if at_kw(toks, p, Kw::Use) || at_kw(toks, p, Kw::Desc) {
        let is_use = at_kw(toks, p, Kw::Use);
        match p_name(toks, p + 1) {
            None => None,
            Some((n, k)) => {
                let s = if is_use {
                    Stmt::Database(DatabaseStmt::UseDatabase { db_name: n })
                } else {
                    Stmt::Table(TableStmt::Desc { tb_name: n })
                };
                assert(toks_view(toks@).subrange(p as int, k as int) =~= render_stmt(s));
                Some((s, k))
            },
        }
    } else if at_kw(toks, p, Kw::Insert) {
        p_insert(toks, p)
    } else if at_kw(toks, p, Kw::Delete) {
        p_delete(toks, p)
    } else if at_kw(toks, p, Kw::Update) {
        p_update(toks, p)
    } else if at_kw(toks, p, Kw::Select) {
        p_select(toks, p)
    } else if at_kw(toks, p, Kw::Alter) {
        p_alter(toks, p)
    } else if at_kw(toks, p, Kw::Copy) {
        p_copy(toks, p)
    } else {
        None
    }
}


// ---------------------------------------------------------------- the text

/// Why a text could not be read.
#[derive(Clone, Copy, Debug, PartialEq, Eq, Structural)]
pub enum ParseError {
    /// Some character starts no token: an unknown mark, or a quote that is never closed.
    InvalidToken,
    /// The tokens do not form `;`-ended statements; `at` is the index of the token where
    /// the statement that could not be read begins.
    UnrecognizedToken { at: usize },
}

/// Reads a text as a list of statements, each ended by `;`.
pub fn parse_sql(input: &str) -> (r: Result<Sql, ParseError>)
    ensures
        match r {
            Ok(sql) => lex(input@) == Some(render_sql(sql)) && wf_sql(sql),
            Err(ParseError::InvalidToken) => lex(input@) is None,
            Err(ParseError::UnrecognizedToken { .. }) => lex(input@) matches Some(t) && !sp_sql(t),
        },
        r is Err ==> forall|q: Sql| wf_sql(q) ==> lex(input@) != Some(render_sql(q)),
{
    let toks = match tokenize(input) {
        Some(v) => v,
        None => {
            return Err(ParseError::InvalidToken);
        },
    };
    let ghost t = toks_view(toks@);
    let mut stmts: Vec<Stmt> = Vec::new();
    let mut p: usize = 0;
    while p < toks.len()
        invariant
            t == toks_view(toks@),
            lex(input@) == Some(t),
            p <= toks@.len(),
            sp_sql(t) == sp_sql_from(t, p as int),
            t.subrange(0, p as int) == render_stmts(stmts@),
            forall|i: int| 0 <= i < stmts@.len() ==> wf_stmt(#[trigger] stmts@[i]),
        decreases toks@.len() - p,
    {
        match p_stmt(&toks, p) {
            None => {
                proof {
                    lemma_refused_renders_nothing(t);
                }
                return Err(ParseError::UnrecognizedToken { at: p });
            },
            Some((s, q)) => {
                if !at(&toks, q, Token::Semi) {
                    proof {
                        lemma_refused_renders_nothing(t);
                    }
                    return Err(ParseError::UnrecognizedToken { at: p });
                }
                let ghost old_s = stmts@;
                stmts.push(s);
                proof {
                    assert(stmts@.drop_last() =~= old_s);
                    assert(t.subrange(0, q + 1) =~= t.subrange(0, p as int) + t.subrange(
                        p as int,
                        q as int,
                    ) + seq![STok::Semi]);
                    assert(forall|i: int| 0 <= i < old_s.len() ==> stmts@[i] == old_s[i]);
                }
                p = q + 1;
            },
        }
    }
    assert(t.subrange(0, t.len() as int) =~= t);
    Ok(Sql { stmt_list: stmts })
}

} // verus!
