use vstd::prelude::*;
use vstd::string::StrSliceExecFns;
use crate::utils::text::push_char;

verus! {

/// The keywords of the statement language (matched without regard to case).
#[derive(Clone, Copy, Debug, PartialEq, Eq, Structural)]
pub enum Kw {
    Show,
    Databases,
    Database,
    Create,
    Drop,
    Use,
    Tables,
    Table,
    Desc,
    Insert,
    Into,
    Values,
    Delete,
    From,
    Where,
    Update,
    SetKw,
    Select,
    Index,
    On,
    Alter,
    Add,
    Change,
    Rename,
    To,
    Primary,
    Key,
    Foreign,
    References,
    Constraint,
    Not,
    Null,
    Default,
    Int,
    Varchar,
    Date,
    Float,
    Numeric,
    And,
    Is,
    Copy
}

/// The lower-case form of an ASCII letter; other characters are unchanged.
pub open spec fn lower(c: char) -> char {
    if 'A' <= c && c <= 'Z' { ((c as u32) + 32) as char } else { c }
}

pub open spec fn lower_seq(s: Seq<char>) -> Seq<char> {
    Seq::new(s.len(), |i: int| lower(s[i]))
}

/// The keyword that a word spells, if it spells one.
pub open spec fn keyword_of(w: Seq<char>) -> Option<Kw> {
    let l = lower_seq(w);
    if l == seq!['s', 'h', 'o', 'w'] {
        Some(Kw::Show)
    } else 
    if l == seq!['d', 'a', 't', 'a', 'b', 'a', 's', 'e', 's'] {
        Some(Kw::Databases)
    } else 
    if l == seq!['d', 'a', 't', 'a', 'b', 'a', 's', 'e'] {
        Some(Kw::Database)
    } else 
    if l == seq!['c', 'r', 'e', 'a', 't', 'e'] {
        Some(Kw::Create)
    } else 
    if l == seq!['d', 'r', 'o', 'p'] {
        Some(Kw::Drop)
    } else 
    if l == seq!['u', 's', 'e'] {
        Some(Kw::Use)
    } else 
    if l == seq!['t', 'a', 'b', 'l', 'e', 's'] {
        Some(Kw::Tables)
    } else 
    if l == seq!['t', 'a', 'b', 'l', 'e'] {
        Some(Kw::Table)
    } else 
    if l == seq!['d', 'e', 's', 'c'] {
        Some(Kw::Desc)
    } else 
    if l == seq!['i', 'n', 's', 'e', 'r', 't'] {
        Some(Kw::Insert)
    } else 
    if l == seq!['i', 'n', 't', 'o'] {
        Some(Kw::Into)
    } else 
    if l == seq!['v', 'a', 'l', 'u', 'e', 's'] {
        Some(Kw::Values)
    } else 
    if l == seq!['d', 'e', 'l', 'e', 't', 'e'] {
        Some(Kw::Delete)
    } else 
    if l == seq!['f', 'r', 'o', 'm'] {
        Some(Kw::From)
    } else 
    if l == seq!['w', 'h', 'e', 'r', 'e'] {
        Some(Kw::Where)
    } else 
    if l == seq!['u', 'p', 'd', 'a', 't', 'e'] {
        Some(Kw::Update)
    } else 
    if l == seq!['s', 'e', 't'] {
        Some(Kw::SetKw)
    } else 
    if l == seq!['s', 'e', 'l', 'e', 'c', 't'] {
        Some(Kw::Select)
    } else 
    if l == seq!['i', 'n', 'd', 'e', 'x'] {
        Some(Kw::Index)
    } else 
    if l == seq!['o', 'n'] {
        Some(Kw::On)
    } else 
    if l == seq!['a', 'l', 't', 'e', 'r'] {
        Some(Kw::Alter)
    } else 
    if l == seq!['a', 'd', 'd'] {
        Some(Kw::Add)
    } else 
    if l == seq!['c', 'h', 'a', 'n', 'g', 'e'] {
        Some(Kw::Change)
    } else 
    if l == seq!['r', 'e', 'n', 'a', 'm', 'e'] {
        Some(Kw::Rename)
    } else 
    if l == seq!['t', 'o'] {
        Some(Kw::To)
    } else 
    if l == seq!['p', 'r', 'i', 'm', 'a', 'r', 'y'] {
        Some(Kw::Primary)
    } else 
    if l == seq!['k', 'e', 'y'] {
        Some(Kw::Key)
    } else 
    if l == seq!['f', 'o', 'r', 'e', 'i', 'g', 'n'] {
        Some(Kw::Foreign)
    } else 
    if l == seq!['r', 'e', 'f', 'e', 'r', 'e', 'n', 'c', 'e', 's'] {
        Some(Kw::References)
    } else 
    if l == seq!['c', 'o', 'n', 's', 't', 'r', 'a', 'i', 'n', 't'] {
        Some(Kw::Constraint)
    } else 
    if l == seq!['n', 'o', 't'] {
        Some(Kw::Not)
    } else 
    if l == seq!['n', 'u', 'l', 'l'] {
        Some(Kw::Null)
    } else 
    if l == seq!['d', 'e', 'f', 'a', 'u', 'l', 't'] {
        Some(Kw::Default)
    } else 
    if l == seq!['i', 'n', 't'] {
        Some(Kw::Int)
    } else 
    if l == seq!['v', 'a', 'r', 'c', 'h', 'a', 'r'] {
        Some(Kw::Varchar)
    } else 
    if l == seq!['d', 'a', 't', 'e'] {
        Some(Kw::Date)
    } else 
    if l == seq!['f', 'l', 'o', 'a', 't'] {
        Some(Kw::Float)
    } else 
    if l == seq!['n', 'u', 'm', 'e', 'r', 'i', 'c'] {
        Some(Kw::Numeric)
    } else 
    if l == seq!['a', 'n', 'd'] {
        Some(Kw::And)
    } else 
    if l == seq!['i', 's'] {
        Some(Kw::Is)
    } else 
    if l == seq!['c', 'o', 'p', 'y'] {
        Some(Kw::Copy)
    } else {
        None
    }
}

/// A token, by its view.
pub enum STok {
    Kw(Kw),
    Ident(Seq<char>),
    Int(Seq<char>),
    Float(Seq<char>),
    Str(Seq<char>),
    Date(Seq<char>),
    LParen,
    RParen,
    Comma,
    Semi,
    Dot,
    Star,
    Eq,
    Ne,
    Lt,
    Le,
    Gt,
    Ge,
}

#[derive(Clone, Debug)]
/// A token: a keyword, a name, a literal (numbers as written, strings between double
/// quotes, dates between single quotes, without the quotes) or a mark.
pub enum Token {
    Kw(Kw),
    Ident(String),
    Int(String),
    Float(String),
    Str(String),
    Date(String),
    LParen,
    RParen,
    Comma,
    Semi,
    Dot,
    Star,
    Eq,
    Ne,
    Lt,
    Le,
    Gt,
    Ge,
}

impl View for Token {
    type V = STok;

    open spec fn view(&self) -> STok {
        match self {
            Token::Kw(k) => STok::Kw(*k),
            Token::Ident(s) => STok::Ident(s@),
            Token::Int(s) => STok::Int(s@),
            Token::Float(s) => STok::Float(s@),
            Token::Str(s) => STok::Str(s@),
            Token::Date(s) => STok::Date(s@),
            Token::LParen => STok::LParen,
            Token::RParen => STok::RParen,
            Token::Comma => STok::Comma,
            Token::Semi => STok::Semi,
            Token::Dot => STok::Dot,
            Token::Star => STok::Star,
            Token::Eq => STok::Eq,
            Token::Ne => STok::Ne,
            Token::Lt => STok::Lt,
            Token::Le => STok::Le,
            Token::Gt => STok::Gt,
            Token::Ge => STok::Ge,
        }
    }
}

pub open spec fn toks_view(t: Seq<Token>) -> Seq<STok> {
    t.map_values(|x: Token| x@)
}

pub open spec fn is_space(c: char) -> bool {
    c == ' ' || c == '\t' || c == '\n' || c == '\r'
}

pub open spec fn is_letter(c: char) -> bool {
    ('a' <= c && c <= 'z') || ('A' <= c && c <= 'Z') || c == '_'
}

pub open spec fn is_digit_char(c: char) -> bool {
    '0' <= c && c <= '9'
}

pub open spec fn is_ident_char(c: char) -> bool {
    is_letter(c) || is_digit_char(c)
}

/// The end of the run of name characters of `c` from `j`.
pub open spec fn ident_end(c: Seq<char>, j: int) -> int
    decreases c.len() - j,
{
    if 0 <= j < c.len() && is_ident_char(c[j]) { ident_end(c, j + 1) } else { j }
}

/// The end of the run of digits of `c` from `j`.
pub open spec fn digits_end(c: Seq<char>, j: int) -> int
    decreases c.len() - j,
{
    if 0 <= j < c.len() && is_digit_char(c[j]) { digits_end(c, j + 1) } else { j }
}

/// The first position at or after `j` that holds `q` (or the end).
pub open spec fn quote_end(c: Seq<char>, j: int, q: char) -> int
    decreases c.len() - j,
{
    if 0 <= j < c.len() && c[j] != q { quote_end(c, j + 1, q) } else { j }
}

pub proof fn lemma_ident_end(c: Seq<char>, j: int)
    requires
        0 <= j,
    ensures
        j <= ident_end(c, j),
        j <= c.len() ==> ident_end(c, j) <= c.len(),
        forall|k: int| j <= k < ident_end(c, j) ==> is_ident_char(#[trigger] c[k]),
        ident_end(c, j) < c.len() ==> !is_ident_char(c[ident_end(c, j)]),
    decreases c.len() - j,
{
    if 0 <= j < c.len() && is_ident_char(c[j]) {
        lemma_ident_end(c, j + 1);
    }
}

pub proof fn lemma_digits_end(c: Seq<char>, j: int)
    requires
        0 <= j,
    ensures
        j <= digits_end(c, j),
        j <= c.len() ==> digits_end(c, j) <= c.len(),
        forall|k: int| j <= k < digits_end(c, j) ==> is_digit_char(#[trigger] c[k]),
        digits_end(c, j) < c.len() ==> !is_digit_char(c[digits_end(c, j)]),
    decreases c.len() - j,
{
    if 0 <= j < c.len() && is_digit_char(c[j]) {
        lemma_digits_end(c, j + 1);
    }
}

pub proof fn lemma_quote_end(c: Seq<char>, j: int, q: char)
    requires
        0 <= j,
    ensures
        j <= quote_end(c, j, q),
        j <= c.len() ==> quote_end(c, j, q) <= c.len(),
        forall|k: int| j <= k < quote_end(c, j, q) ==> #[trigger] c[k] != q,
        quote_end(c, j, q) < c.len() ==> c[quote_end(c, j, q)] == q,
    decreases c.len() - j,
{
    if 0 <= j < c.len() && c[j] != q {
        lemma_quote_end(c, j + 1, q);
    }
}

/// The token of a word: its keyword, or a name.
pub open spec fn word_token(w: Seq<char>) -> STok {
    match keyword_of(w) {
        Some(k) => STok::Kw(k),
        None => STok::Ident(w),
    }
}

/// The token that starts at `i` (not white space) and where it ends; `None` when no token starts there.
pub open spec fn token_at(c: Seq<char>, i: int) -> Option<(STok, int)> {
    let n = c.len();
    let ch = c[i];
    let next = if i + 1 < n { c[i + 1] } else { ' ' };
    if is_letter(ch) {
        let j = ident_end(c, i + 1);
        Some((word_token(c.subrange(i, j)), j))
    } else if is_digit_char(ch) || (ch == '-' && i + 1 < c.len() && is_digit_char(next)) {
        let j = digits_end(c, i + 1);
        if j < n && j + 1 < n && c[j] == '.' && is_digit_char(c[j + 1]) {
            let k = digits_end(c, j + 1);
            Some((STok::Float(c.subrange(i, k)), k))
        } else {
            Some((STok::Int(c.subrange(i, j)), j))
        }
    } else if ch == '"' || ch == '\'' {
        let j = quote_end(c, i + 1, ch);
        if j >= c.len() {
            None
        } else if ch == '"' {
            Some((STok::Str(c.subrange(i + 1, j)), j + 1))
        } else {
            Some((STok::Date(c.subrange(i + 1, j)), j + 1))
        }
    } else if ch == '(' {
        Some((STok::LParen, i + 1))
    } else if ch == ')' {
        Some((STok::RParen, i + 1))
    } else if ch == ',' {
        Some((STok::Comma, i + 1))
    } else if ch == ';' {
        Some((STok::Semi, i + 1))
    } else if ch == '.' {
        Some((STok::Dot, i + 1))
    } else if ch == '*' {
        Some((STok::Star, i + 1))
    } else if ch == '=' {
        Some((STok::Eq, i + 1))
    } else if ch == '<' {
        if next == '=' {
            Some((STok::Le, i + 2))
        } else if next == '>' {
            Some((STok::Ne, i + 2))
        } else {
            Some((STok::Lt, i + 1))
        }
    } else if ch == '>' {
        if next == '=' {
            Some((STok::Ge, i + 2))
        } else {
            Some((STok::Gt, i + 1))
        }
    } else if ch == '!' && next == '=' {
        Some((STok::Ne, i + 2))
    } else {
        None
    }
}

pub proof fn lemma_token_at(c: Seq<char>, i: int)
    requires
        0 <= i < c.len(),
    ensures
        token_at(c, i) matches Some((t, j)) ==> i < j <= c.len(),
{
    lemma_ident_end(c, i + 1);
    lemma_digits_end(c, i + 1);
    let j = digits_end(c, i + 1);
    if j + 1 < c.len() {
        lemma_digits_end(c, j + 1);
    }
    lemma_quote_end(c, i + 1, c[i]);
}

/// The tokens of `c` from `i` on, white space skipped; `None` when some character starts no token.
pub open spec fn lex_from(c: Seq<char>, i: int) -> Option<Seq<STok>>
    decreases c.len() - i,
{
    if i < 0 || i >= c.len() {
        Some(Seq::empty())
    } else if is_space(c[i]) {
        lex_from(c, i + 1)
    } else {
        match token_at(c, i) {
            None => None,
            Some((t, j)) => {
                proof {
                    lemma_token_at(c, i);
                }
                match lex_from(c, j) {
                    None => None,
                    Some(rest) => Some(seq![t] + rest),
                }
            },
        }
    }
}

/// The tokens of a text.
pub open spec fn lex(c: Seq<char>) -> Option<Seq<STok>> {
    lex_from(c, 0)
}

/// The characters of a text.
pub fn chars_of(s: &str) -> (r: Vec<char>)
    ensures
        r@ == s@,
{
    let len = s.unicode_len();
    let mut r: Vec<char> = Vec::new();
    let mut i: usize = 0;
    while i < len
        invariant
            len == s@.len(),
            i <= len,
            r@ == s@.take(i as int),
        decreases len - i,
    {
        r.push(s.get_char(i));
        i = i + 1;
        assert(r@ =~= s@.take(i as int));
    }
    assert(s@.take(len as int) =~= s@);
    r
}

fn eq_lit(l: &Vec<char>, lit: &str) -> (r: bool)
    ensures
        r == (l@ == lit@),
{
    let n = lit.unicode_len();
    if l.len() != n {
        return false;
    }
    let mut i: usize = 0;
    while i < n
        invariant
            n == lit@.len(),
            n == l@.len(),
            i <= n,
            forall|k: int| 0 <= k < i ==> l@[k] == lit@[k],
        decreases n - i,
    {
        if l[i] != lit.get_char(i) {
            return false;
        }
        i = i + 1;
    }
    assert(l@ =~= lit@);
    true
}

fn lower_char(c: char) -> (r: char)
    ensures
        r == lower(c),
{
    if 'A' <= c && c <= 'Z' {
        ((c as u8) + 32u8) as char
    } else {
        c
    }
}

/// The keyword that a word spells, if any.
pub fn keyword(w: &Vec<char>) -> (r: Option<Kw>)
    ensures
        r == keyword_of(w@),
{
    let mut l: Vec<char> = Vec::new();
    let mut i: usize = 0;
    while i < w.len()
        invariant
            i <= w@.len(),
            l@ == lower_seq(w@.take(i as int)),
        decreases w@.len() - i,
    {
        l.push(lower_char(w[i]));
        i = i + 1;
        assert(l@ =~= lower_seq(w@.take(i as int)));
    }
    assert(w@.take(w@.len() as int) =~= w@);
    proof {
        reveal_strlit("show");
        assert("show"@ =~= seq!['s', 'h', 'o', 'w']);
    }
    if eq_lit(&l, "show") {
        return Some(Kw::Show);
    }
    proof {
        reveal_strlit("databases");
        assert("databases"@ =~= seq!['d', 'a', 't', 'a', 'b', 'a', 's', 'e', 's']);
    }
    if eq_lit(&l, "databases") {
        return Some(Kw::Databases);
    }
    proof {
        reveal_strlit("database");
        assert("database"@ =~= seq!['d', 'a', 't', 'a', 'b', 'a', 's', 'e']);
    }
    if eq_lit(&l, "database") {
        return Some(Kw::Database);
    }
    proof {
        reveal_strlit("create");
        assert("create"@ =~= seq!['c', 'r', 'e', 'a', 't', 'e']);
    }
    if eq_lit(&l, "create") {
        return Some(Kw::Create);
    }
    proof {
        reveal_strlit("drop");
        assert("drop"@ =~= seq!['d', 'r', 'o', 'p']);
    }
    if eq_lit(&l, "drop") {
        return Some(Kw::Drop);
    }
    proof {
        reveal_strlit("use");
        assert("use"@ =~= seq!['u', 's', 'e']);
    }
    if eq_lit(&l, "use") {
        return Some(Kw::Use);
    }
    proof {
        reveal_strlit("tables");
        assert("tables"@ =~= seq!['t', 'a', 'b', 'l', 'e', 's']);
    }
    if eq_lit(&l, "tables") {
        return Some(Kw::Tables);
    }
    proof {
        reveal_strlit("table");
        assert("table"@ =~= seq!['t', 'a', 'b', 'l', 'e']);
    }
    if eq_lit(&l, "table") {
        return Some(Kw::Table);
    }
    proof {
        reveal_strlit("desc");
        assert("desc"@ =~= seq!['d', 'e', 's', 'c']);
    }
    if eq_lit(&l, "desc") {
        return Some(Kw::Desc);
    }
    proof {
        reveal_strlit("insert");
        assert("insert"@ =~= seq!['i', 'n', 's', 'e', 'r', 't']);
    }
    if eq_lit(&l, "insert") {
        return Some(Kw::Insert);
    }
    proof {
        reveal_strlit("into");
        assert("into"@ =~= seq!['i', 'n', 't', 'o']);
    }
    if eq_lit(&l, "into") {
        return Some(Kw::Into);
    }
    proof {
        reveal_strlit("values");
        assert("values"@ =~= seq!['v', 'a', 'l', 'u', 'e', 's']);
    }
    if eq_lit(&l, "values") {
        return Some(Kw::Values);
    }
    proof {
        reveal_strlit("delete");
        assert("delete"@ =~= seq!['d', 'e', 'l', 'e', 't', 'e']);
    }
    if eq_lit(&l, "delete") {
        return Some(Kw::Delete);
    }
    proof {
        reveal_strlit("from");
        assert("from"@ =~= seq!['f', 'r', 'o', 'm']);
    }
    if eq_lit(&l, "from") {
        return Some(Kw::From);
    }
    proof {
        reveal_strlit("where");
        assert("where"@ =~= seq!['w', 'h', 'e', 'r', 'e']);
    }
    if eq_lit(&l, "where") {
        return Some(Kw::Where);
    }
    proof {
        reveal_strlit("update");
        assert("update"@ =~= seq!['u', 'p', 'd', 'a', 't', 'e']);
    }
    if eq_lit(&l, "update") {
        return Some(Kw::Update);
    }
    proof {
        reveal_strlit("set");
        assert("set"@ =~= seq!['s', 'e', 't']);
    }
    if eq_lit(&l, "set") {
        return Some(Kw::SetKw);
    }
    proof {
        reveal_strlit("select");
        assert("select"@ =~= seq!['s', 'e', 'l', 'e', 'c', 't']);
    }
    if eq_lit(&l, "select") {
        return Some(Kw::Select);
    }
    proof {
        reveal_strlit("index");
        assert("index"@ =~= seq!['i', 'n', 'd', 'e', 'x']);
    }
    if eq_lit(&l, "index") {
        return Some(Kw::Index);
    }
    proof {
        reveal_strlit("on");
        assert("on"@ =~= seq!['o', 'n']);
    }
    if eq_lit(&l, "on") {
        return Some(Kw::On);
    }
    proof {
        reveal_strlit("alter");
        assert("alter"@ =~= seq!['a', 'l', 't', 'e', 'r']);
    }
    if eq_lit(&l, "alter") {
        return Some(Kw::Alter);
    }
    proof {
        reveal_strlit("add");
        assert("add"@ =~= seq!['a', 'd', 'd']);
    }
    if eq_lit(&l, "add") {
        return Some(Kw::Add);
    }
    proof {
        reveal_strlit("change");
        assert("change"@ =~= seq!['c', 'h', 'a', 'n', 'g', 'e']);
    }
    if eq_lit(&l, "change") {
        return Some(Kw::Change);
    }
    proof {
        reveal_strlit("rename");
        assert("rename"@ =~= seq!['r', 'e', 'n', 'a', 'm', 'e']);
    }
    if eq_lit(&l, "rename") {
        return Some(Kw::Rename);
    }
    proof {
        reveal_strlit("to");
        assert("to"@ =~= seq!['t', 'o']);
    }
    if eq_lit(&l, "to") {
        return Some(Kw::To);
    }
    proof {
        reveal_strlit("primary");
        assert("primary"@ =~= seq!['p', 'r', 'i', 'm', 'a', 'r', 'y']);
    }
    if eq_lit(&l, "primary") {
        return Some(Kw::Primary);
    }
    proof {
        reveal_strlit("key");
        assert("key"@ =~= seq!['k', 'e', 'y']);
    }
    if eq_lit(&l, "key") {
        return Some(Kw::Key);
    }
    proof {
        reveal_strlit("foreign");
        assert("foreign"@ =~= seq!['f', 'o', 'r', 'e', 'i', 'g', 'n']);
    }
    if eq_lit(&l, "foreign") {
        return Some(Kw::Foreign);
    }
    proof {
        reveal_strlit("references");
        assert("references"@ =~= seq!['r', 'e', 'f', 'e', 'r', 'e', 'n', 'c', 'e', 's']);
    }
    if eq_lit(&l, "references") {
        return Some(Kw::References);
    }
    proof {
        reveal_strlit("constraint");
        assert("constraint"@ =~= seq!['c', 'o', 'n', 's', 't', 'r', 'a', 'i', 'n', 't']);
    }
    if eq_lit(&l, "constraint") {
        return Some(Kw::Constraint);
    }
    proof {
        reveal_strlit("not");
        assert("not"@ =~= seq!['n', 'o', 't']);
    }
    if eq_lit(&l, "not") {
        return Some(Kw::Not);
    }
    proof {
        reveal_strlit("null");
        assert("null"@ =~= seq!['n', 'u', 'l', 'l']);
    }
    if eq_lit(&l, "null") {
        return Some(Kw::Null);
    }
    proof {
        reveal_strlit("default");
        assert("default"@ =~= seq!['d', 'e', 'f', 'a', 'u', 'l', 't']);
    }
    if eq_lit(&l, "default") {
        return Some(Kw::Default);
    }
    proof {
        reveal_strlit("int");
        assert("int"@ =~= seq!['i', 'n', 't']);
    }
    if eq_lit(&l, "int") {
        return Some(Kw::Int);
    }
    proof {
        reveal_strlit("varchar");
        assert("varchar"@ =~= seq!['v', 'a', 'r', 'c', 'h', 'a', 'r']);
    }
    if eq_lit(&l, "varchar") {
        return Some(Kw::Varchar);
    }
    proof {
        reveal_strlit("date");
        assert("date"@ =~= seq!['d', 'a', 't', 'e']);
    }
    if eq_lit(&l, "date") {
        return Some(Kw::Date);
    }
    proof {
        reveal_strlit("float");
        assert("float"@ =~= seq!['f', 'l', 'o', 'a', 't']);
    }
    if eq_lit(&l, "float") {
        return Some(Kw::Float);
    }
    proof {
        reveal_strlit("numeric");
        assert("numeric"@ =~= seq!['n', 'u', 'm', 'e', 'r', 'i', 'c']);
    }
    if eq_lit(&l, "numeric") {
        return Some(Kw::Numeric);
    }
    proof {
        reveal_strlit("and");
        assert("and"@ =~= seq!['a', 'n', 'd']);
    }
    if eq_lit(&l, "and") {
        return Some(Kw::And);
    }
    proof {
        reveal_strlit("is");
        assert("is"@ =~= seq!['i', 's']);
    }
    if eq_lit(&l, "is") {
        return Some(Kw::Is);
    }
    proof {
        reveal_strlit("copy");
        assert("copy"@ =~= seq!['c', 'o', 'p', 'y']);
    }
    if eq_lit(&l, "copy") {
        return Some(Kw::Copy);
    }
    None
}


fn space_char(ch: char) -> (r: bool)
    ensures
        r == is_space(ch),
{
    ch == ' ' || ch == '\t' || ch == '\n' || ch == '\r'
}

fn letter_char(ch: char) -> (r: bool)
    ensures
        r == is_letter(ch),
{
    ('a' <= ch && ch <= 'z') || ('A' <= ch && ch <= 'Z') || ch == '_'
}

fn digit_char(ch: char) -> (r: bool)
    ensures
        r == is_digit_char(ch),
{
    '0' <= ch && ch <= '9'
}

fn ident_char(ch: char) -> (r: bool)
    ensures
        r == is_ident_char(ch),
{
    letter_char(ch) || digit_char(ch)
}

fn scan_ident(c: &Vec<char>, j: usize) -> (r: usize)
    requires
        j <= c@.len(),
    ensures
        r == ident_end(c@, j as int),
{
    let mut k = j;
    while k < c.len() && ident_char(c[k])
        invariant
            j <= k <= c@.len(),
            ident_end(c@, j as int) == ident_end(c@, k as int),
        decreases c@.len() - k,
    {
        k = k + 1;
    }
    k
}

fn scan_digits(c: &Vec<char>, j: usize) -> (r: usize)
    requires
        j <= c@.len(),
    ensures
        r == digits_end(c@, j as int),
{
    let mut k = j;
    while k < c.len() && digit_char(c[k])
        invariant
            j <= k <= c@.len(),
            digits_end(c@, j as int) == digits_end(c@, k as int),
        decreases c@.len() - k,
    {
        k = k + 1;
    }
    k
}

fn scan_quote(c: &Vec<char>, j: usize, q: char) -> (r: usize)
    requires
        j <= c@.len(),
    ensures
        r == quote_end(c@, j as int, q),
{
    let mut k = j;
    while k < c.len() && c[k] != q
        invariant
            j <= k <= c@.len(),
            quote_end(c@, j as int, q) == quote_end(c@, k as int, q),
        decreases c@.len() - k,
    {
        k = k + 1;
    }
    k
}

/// The text of `c[a..b]`.
fn string_of(c: &Vec<char>, a: usize, b: usize) -> (r: String)
    requires
        a <= b <= c@.len(),
    ensures
        r@ == c@.subrange(a as int, b as int),
{
    let mut r = String::new();
    let mut k = a;
    while k < b
        invariant
            a <= k <= b <= c@.len(),
            r@ == c@.subrange(a as int, k as int),
        decreases b - k,
    {
        push_char(&mut r, c[k]);
        k = k + 1;
        assert(r@ =~= c@.subrange(a as int, k as int));
    }
    r
}

/// The token of the word `c[a..b]`.
fn word_at(c: &Vec<char>, a: usize, b: usize) -> (r: Token)
    requires
        a <= b <= c@.len(),
    ensures
        r@ == word_token(c@.subrange(a as int, b as int)),
{
    let mut w: Vec<char> = Vec::new();
    let mut k = a;
    while k < b
        invariant
            a <= k <= b <= c@.len(),
            w@ == c@.subrange(a as int, k as int),
        decreases b - k,
    {
        w.push(c[k]);
        k = k + 1;
        assert(w@ =~= c@.subrange(a as int, k as int));
    }
    match keyword(&w) {
        Some(kw) => Token::Kw(kw),
        None => Token::Ident(string_of(c, a, b)),
    }
}

/// The token that starts at `i` and where it ends, as `token_at` says.
pub fn next_token(c: &Vec<char>, i: usize) -> (r: Option<(Token, usize)>)
    requires
        i < c@.len(),
    ensures
        match r {
            Some((t, j)) => token_at(c@, i as int) == Some((t@, j as int)),
            None => token_at(c@, i as int) is None,
        },
{
    proof {
        lemma_ident_end(c@, i + 1);
        lemma_digits_end(c@, i + 1);
        lemma_quote_end(c@, i + 1, c@[i as int]);
    }
    let n = c.len();
    let ch = c[i];
    let next = if i + 1 < n { c[i + 1] } else { ' ' };
    if letter_char(ch) {
        let j = scan_ident(c, i + 1);
        Some((word_at(c, i, j), j))
    } else if digit_char(ch) || (ch == '-' && i + 1 < c.len() && digit_char(next)) {
        let j = scan_digits(c, i + 1);
        if j < n && j + 1 < n && c[j] == '.' && digit_char(c[j + 1]) {
            proof {
                lemma_digits_end(c@, j + 1);
            }
            let k = scan_digits(c, j + 1);
            Some((Token::Float(string_of(c, i, k)), k))
        } else {
            Some((Token::Int(string_of(c, i, j)), j))
        }
    } else if ch == '"' || ch == '\'' {
        let j = scan_quote(c, i + 1, ch);
        if j >= c.len() {
            None
        } else if ch == '"' {
            Some((Token::Str(string_of(c, i + 1, j)), j + 1))
        } else {
            Some((Token::Date(string_of(c, i + 1, j)), j + 1))
        }
    } else if ch == '(' {
        Some((Token::LParen, i + 1))
    } else if ch == ')' {
        Some((Token::RParen, i + 1))
    } else if ch == ',' {
        Some((Token::Comma, i + 1))
    } else if ch == ';' {
        Some((Token::Semi, i + 1))
    } else if ch == '.' {
        Some((Token::Dot, i + 1))
    } else if ch == '*' {
        Some((Token::Star, i + 1))
    } else if ch == '=' {
        Some((Token::Eq, i + 1))
    } else if ch == '<' {
        if next == '=' {
            Some((Token::Le, i + 2))
        } else if next == '>' {
            Some((Token::Ne, i + 2))
        } else {
            Some((Token::Lt, i + 1))
        }
    } else if ch == '>' {
        if next == '=' {
            Some((Token::Ge, i + 2))
        } else {
            Some((Token::Gt, i + 1))
        }
    } else if ch == '!' && next == '=' {
        Some((Token::Ne, i + 2))
    } else {
        None
    }
}

/// Splits a text into tokens; `None` exactly when some character starts no token
/// (an unknown mark, or a quote that is never closed).
pub fn tokenize(s: &str) -> (r: Option<Vec<Token>>)
    ensures
        match r {
            Some(v) => lex(s@) == Some(toks_view(v@)),
            None => lex(s@) is None,
        },
{
    let c = chars_of(s);
    let mut out: Vec<Token> = Vec::new();
    let mut i: usize = 0;
    while i < c.len()
        invariant
            c@ == s@,
            i <= c@.len(),
            lex(c@) == (match lex_from(c@, i as int) {
                None => None,
                Some(rest) => Some(toks_view(out@) + rest),
            }),
        decreases c@.len() - i,
    {
        if space_char(c[i]) {
            i = i + 1;
        } else {
            match next_token(&c, i) {
                None => {
                    return None;
                },
                Some((t, j)) => {
                    proof {
                        lemma_token_at(c@, i as int);
                    }
                    let ghost old_out = toks_view(out@);
                    out.push(t);
                    proof {
                        assert(toks_view(out@) =~= old_out + seq![t@]);
                        match lex_from(c@, j as int) {
                            None => {},
                            Some(rest) => {
                                assert(old_out + (seq![t@] + rest) =~= toks_view(out@) + rest);
                            },
                        }
                    }
                    i = j;
                },
            }
        }
    }
    assert(toks_view(out@) + Seq::<STok>::empty() =~= toks_view(out@));
    Some(out)
}

} // verus!
