//! The scanner of the query language: it cuts a query text into tokens.

use vstd::prelude::*;
use crate::number::{decimal_text, unsigned_decimal, Decimal, Rational};
use crate::text::{chars_eq_str, chars_of, push_all, push_str, string_from_chars};

verus! {

/// A token of the query language.
#[derive(Debug, Clone, PartialEq)]
pub enum Token {
    Illegal(char),
    Eof,
    Ws,
    Comma,
    LtBracket,
    RtBracket,
    LtParentheses,
    RtParentheses,
    Ident(String),
    Number(Rational),
    BadNumber(String),
    Text(String),
    UnclosedText(String),
    BadRelation(String),
    Eq,
    Ne,
    Lt,
    Lte,
    Gt,
    Gte,
    Nothing,
    Defined,
    True,
    False,
    In,
    All,
    Any,
    And,
    Or,
    Not,
}

/// The mathematical value of a [`Token`].
pub enum TokenV {
    Illegal(char),
    Eof,
    Ws,
    Comma,
    LtBracket,
    RtBracket,
    LtParentheses,
    RtParentheses,
    Ident(Seq<char>),
    Number(Decimal),
    BadNumber(Seq<char>),
    Text(Seq<char>),
    UnclosedText(Seq<char>),
    BadRelation(Seq<char>),
    Eq,
    Ne,
    Lt,
    Lte,
    Gt,
    Gte,
    Nothing,
    Defined,
    True,
    False,
    In,
    All,
    Any,
    And,
    Or,
    Not,
}

impl View for Token {
    type V = TokenV;

    open spec fn view(&self) -> TokenV {
        match self {
            Token::Illegal(c) => TokenV::Illegal(*c),
            Token::Eof => TokenV::Eof,
            Token::Ws => TokenV::Ws,
            Token::Comma => TokenV::Comma,
            Token::LtBracket => TokenV::LtBracket,
            Token::RtBracket => TokenV::RtBracket,
            Token::LtParentheses => TokenV::LtParentheses,
            Token::RtParentheses => TokenV::RtParentheses,
            Token::Ident(s) => TokenV::Ident(s@),
            Token::Number(n) => TokenV::Number(n@),
            Token::BadNumber(s) => TokenV::BadNumber(s@),
            Token::Text(s) => TokenV::Text(s@),
            Token::UnclosedText(s) => TokenV::UnclosedText(s@),
            Token::BadRelation(s) => TokenV::BadRelation(s@),
            Token::Eq => TokenV::Eq,
            Token::Ne => TokenV::Ne,
            Token::Lt => TokenV::Lt,
            Token::Lte => TokenV::Lte,
            Token::Gt => TokenV::Gt,
            Token::Gte => TokenV::Gte,
            Token::Nothing => TokenV::Nothing,
            Token::Defined => TokenV::Defined,
            Token::True => TokenV::True,
            Token::False => TokenV::False,
            Token::In => TokenV::In,
            Token::All => TokenV::All,
            Token::Any => TokenV::Any,
            Token::And => TokenV::And,
            Token::Or => TokenV::Or,
            Token::Not => TokenV::Not,
        }
    }
}

/// A description of a token: its name and, in brackets, what it holds.
pub open spec fn token_text(t: TokenV) -> Seq<char> {
    match t {
        TokenV::Illegal(c) => "Illegal('"@ + seq![c] + "')"@,
        TokenV::Eof => "Eof"@,
        TokenV::Ws => "Ws"@,
        TokenV::Comma => "Comma"@,
        TokenV::LtBracket => "LtBracket"@,
        TokenV::RtBracket => "RtBracket"@,
        TokenV::LtParentheses => "LtParentheses"@,
        TokenV::RtParentheses => "RtParentheses"@,
        TokenV::Eq => "Eq"@,
        TokenV::Ne => "Ne"@,
        TokenV::Lt => "Lt"@,
        TokenV::Lte => "Lte"@,
        TokenV::Gt => "Gt"@,
        TokenV::Gte => "Gte"@,
        TokenV::Nothing => "Nothing"@,
        TokenV::Defined => "Defined"@,
        TokenV::True => "True"@,
        TokenV::False => "False"@,
        TokenV::In => "In"@,
        TokenV::All => "All"@,
        TokenV::Any => "Any"@,
        TokenV::And => "And"@,
        TokenV::Or => "Or"@,
        TokenV::Not => "Not"@,
        TokenV::Ident(s) => "Ident(\""@ + s + "\")"@,
        TokenV::BadNumber(s) => "BadNumber(\""@ + s + "\")"@,
        TokenV::Text(s) => "Text(\""@ + s + "\")"@,
        TokenV::UnclosedText(s) => "UnclosedText(\""@ + s + "\")"@,
        TokenV::BadRelation(s) => "BadRelation(\""@ + s + "\")"@,
        TokenV::Number(d) => "Number("@ + decimal_text(d) + ")"@,
    }
}

impl Token {
    /// A description of the token (see [`token_text`]).
    pub fn describe(&self) -> (r: String)
        ensures
            r@ == token_text(self@),
    {
        let mut m: Vec<char> = Vec::new();
        match self {
            Token::Illegal(c) => {
                push_str(&mut m, "Illegal('");
                m.push(*c);
                push_str(&mut m, "')");
                assert(m@ =~= token_text(self@));
            },
            Token::Eof => {
                push_str(&mut m, "Eof");
                assert(m@ =~= token_text(self@));
            },
            Token::Ws => {
                push_str(&mut m, "Ws");
                assert(m@ =~= token_text(self@));
            },
            Token::Comma => {
                push_str(&mut m, "Comma");
                assert(m@ =~= token_text(self@));
            },
            Token::LtBracket => {
                push_str(&mut m, "LtBracket");
                assert(m@ =~= token_text(self@));
            },
            Token::RtBracket => {
                push_str(&mut m, "RtBracket");
                assert(m@ =~= token_text(self@));
            },
            Token::LtParentheses => {
                push_str(&mut m, "LtParentheses");
                assert(m@ =~= token_text(self@));
            },
            Token::RtParentheses => {
                push_str(&mut m, "RtParentheses");
                assert(m@ =~= token_text(self@));
            },
            Token::Eq => {
                push_str(&mut m, "Eq");
                assert(m@ =~= token_text(self@));
            },
            Token::Ne => {
                push_str(&mut m, "Ne");
                assert(m@ =~= token_text(self@));
            },
            Token::Lt => {
                push_str(&mut m, "Lt");
                assert(m@ =~= token_text(self@));
            },
            Token::Lte => {
                push_str(&mut m, "Lte");
                assert(m@ =~= token_text(self@));
            },
            Token::Gt => {
                push_str(&mut m, "Gt");
                assert(m@ =~= token_text(self@));
            },
            Token::Gte => {
                push_str(&mut m, "Gte");
                assert(m@ =~= token_text(self@));
            },
            Token::Nothing => {
                push_str(&mut m, "Nothing");
                assert(m@ =~= token_text(self@));
            },
            Token::Defined => {
                push_str(&mut m, "Defined");
                assert(m@ =~= token_text(self@));
            },
            Token::True => {
                push_str(&mut m, "True");
                assert(m@ =~= token_text(self@));
            },
            Token::False => {
                push_str(&mut m, "False");
                assert(m@ =~= token_text(self@));
            },
            Token::In => {
                push_str(&mut m, "In");
                assert(m@ =~= token_text(self@));
            },
            Token::All => {
                push_str(&mut m, "All");
                assert(m@ =~= token_text(self@));
            },
            Token::Any => {
                push_str(&mut m, "Any");
                assert(m@ =~= token_text(self@));
            },
            Token::And => {
                push_str(&mut m, "And");
                assert(m@ =~= token_text(self@));
            },
            Token::Or => {
                push_str(&mut m, "Or");
                assert(m@ =~= token_text(self@));
            },
            Token::Not => {
                push_str(&mut m, "Not");
                assert(m@ =~= token_text(self@));
            },
            Token::Ident(s) => {
                push_str(&mut m, "Ident(\"");
                push_all(&mut m, &chars_of(s.as_str()));
                push_str(&mut m, "\")");
                assert(m@ =~= token_text(self@));
            },
            Token::BadNumber(s) => {
                push_str(&mut m, "BadNumber(\"");
                push_all(&mut m, &chars_of(s.as_str()));
                push_str(&mut m, "\")");
                assert(m@ =~= token_text(self@));
            },
            Token::Text(s) => {
                push_str(&mut m, "Text(\"");
                push_all(&mut m, &chars_of(s.as_str()));
                push_str(&mut m, "\")");
                assert(m@ =~= token_text(self@));
            },
            Token::UnclosedText(s) => {
                push_str(&mut m, "UnclosedText(\"");
                push_all(&mut m, &chars_of(s.as_str()));
                push_str(&mut m, "\")");
                assert(m@ =~= token_text(self@));
            },
            Token::BadRelation(s) => {
                push_str(&mut m, "BadRelation(\"");
                push_all(&mut m, &chars_of(s.as_str()));
                push_str(&mut m, "\")");
                assert(m@ =~= token_text(self@));
            },
            Token::Number(n) => {
                push_str(&mut m, "Number(");
                push_all(&mut m, &chars_of(n.to_text().as_str()));
                push_str(&mut m, ")");
                assert(m@ =~= token_text(self@));
            },
        }
        string_from_chars(&m)
    }
}

/// The values of a sequence of tokens.
pub open spec fn token_views(ts: Seq<Token>) -> Seq<TokenV> {
    ts.map_values(|t: Token| t@)
}

/// A character that starts a field name or a keyword.
pub open spec fn is_ident_start(c: char) -> bool {
    ('a' <= c <= 'z') || ('A' <= c <= 'Z') || c == '.' || c == '_'
}

/// A character inside a field name or a keyword.
pub open spec fn is_ident_char(c: char) -> bool {
    is_ident_start(c) || ('0' <= c <= '9')
}

/// A character inside a number.
pub open spec fn is_number_char(c: char) -> bool {
    ('0' <= c <= '9') || c == '.'
}

/// A character inside a relation symbol.
pub open spec fn is_relation_char(c: char) -> bool {
    c == '>' || c == '<' || c == '=' || c == '!'
}

/// A character that opens a quoted text.
pub open spec fn is_quote(c: char) -> bool {
    c == '\'' || c == '"' || c == '*'
}

/// Where the run of field-name characters that starts at `i` ends.
pub open spec fn ident_end(s: Seq<char>, i: int) -> int
    decreases s.len() - i,
{
    if 0 <= i < s.len() && is_ident_char(s[i]) {
        ident_end(s, i + 1)
    } else {
        i
    }
}

/// Where the run of number characters that starts at `i` ends.
pub open spec fn number_end(s: Seq<char>, i: int) -> int
    decreases s.len() - i,
{
    if 0 <= i < s.len() && is_number_char(s[i]) {
        number_end(s, i + 1)
    } else {
        i
    }
}

/// Where the run of relation characters that starts at `i` ends.
pub open spec fn relation_end(s: Seq<char>, i: int) -> int
    decreases s.len() - i,
{
    if 0 <= i < s.len() && is_relation_char(s[i]) {
        relation_end(s, i + 1)
    } else {
        i
    }
}

/// The ASCII upper case of a character; other characters stay.
pub open spec fn ascii_upper(c: char) -> char {
    match c {
        'a' => 'A',
        'b' => 'B',
        'c' => 'C',
        'd' => 'D',
        'e' => 'E',
        'f' => 'F',
        'g' => 'G',
        'h' => 'H',
        'i' => 'I',
        'j' => 'J',
        'k' => 'K',
        'l' => 'L',
        'm' => 'M',
        'n' => 'N',
        'o' => 'O',
        'p' => 'P',
        'q' => 'Q',
        'r' => 'R',
        's' => 'S',
        't' => 'T',
        'u' => 'U',
        'v' => 'V',
        'w' => 'W',
        'x' => 'X',
        'y' => 'Y',
        'z' => 'Z',
        _ => c,
    }
}

/// The ASCII upper case of a text.
pub open spec fn upper(s: Seq<char>) -> Seq<char> {
    s.map_values(|c: char| ascii_upper(c))
}

/// A word: a keyword (compared without regard to case) or a field name.
pub open spec fn word_token(w: Seq<char>) -> TokenV {
    let u = upper(w);
    if u == "NOT"@ {
        TokenV::Not
    } else if u == "NONE"@ || u == "NULL"@ || u == "NOTHING"@ || u == "NIL"@ {
        TokenV::Nothing
    } else if u == "DEFINED"@ {
        TokenV::Defined
    } else if u == "TRUE"@ || u == "YES"@ {
        TokenV::True
    } else if u == "NO"@ || u == "FALSE"@ {
        TokenV::False
    } else if u == "IN"@ {
        TokenV::In
    } else if u == "ALL"@ {
        TokenV::All
    } else if u == "ANY"@ {
        TokenV::Any
    } else if u == "AND"@ {
        TokenV::And
    } else if u == "OR"@ {
        TokenV::Or
    } else if u == "EQ"@ || u == "IS"@ {
        TokenV::Eq
    } else if u == "NE"@ {
        TokenV::Ne
    } else if u == "LT"@ {
        TokenV::Lt
    } else if u == "LTE"@ {
        TokenV::Lte
    } else if u == "GT"@ {
        TokenV::Gt
    } else if u == "GTE"@ {
        TokenV::Gte
    } else {
        TokenV::Ident(w)
    }
}

/// A run of number characters: the number it writes, or a bad number.
pub open spec fn number_token(w: Seq<char>) -> TokenV {
    match unsigned_decimal(w) {
        Option::Some(d) => TokenV::Number(d),
        Option::None => TokenV::BadNumber(w),
    }
}

/// A run of relation characters.
pub open spec fn relation_token(w: Seq<char>) -> TokenV {
    if w == "=="@ {
        TokenV::Eq
    } else if w == "!="@ {
        TokenV::Ne
    } else if w == "<"@ {
        TokenV::Lt
    } else if w == "<="@ {
        TokenV::Lte
    } else if w == ">"@ {
        TokenV::Gt
    } else if w == ">="@ {
        TokenV::Gte
    } else if w == "!"@ {
        TokenV::Not
    } else {
        TokenV::BadRelation(w)
    }
}

/// Reads a quoted text from position `k` on: a backslash escapes the next
/// character and is dropped; the first quote opens, the next unescaped quote
/// closes. Gives the text read, where reading stopped and whether the text
/// was still open.
pub open spec fn text_scan(
    s: Seq<char>,
    k: int,
    q: char,
    escape: bool,
    open: bool,
    buf: Seq<char>,
) -> (Seq<char>, int, bool)
    decreases s.len() - k,
{
    if k < 0 || k >= s.len() {
        (buf, k, open)
    } else {
        let ch = s[k];
        if ch == '\\' && !escape {
            text_scan(s, k + 1, q, true, open, buf)
        } else if !open && ch == q {
            text_scan(s, k + 1, q, escape, true, buf)
        } else if open && ch == q && !escape {
            (buf, k + 1, false)
        } else {
            text_scan(s, k + 1, q, false, open, buf.push(ch))
        }
    }
}

/// The token of a quoted text that starts at `i`, and where it ends.
pub open spec fn text_token(s: Seq<char>, i: int) -> (TokenV, int) {
    let (buf, end, open) = text_scan(s, i, s[i], false, false, Seq::empty());
    if open {
        (TokenV::UnclosedText(buf), end)
    } else {
        (TokenV::Text(buf), end)
    }
}

/// The token that starts at `i` (`i` inside the text) and the position after
/// it. A negative sign before a bad number yields no token.
pub open spec fn step(s: Seq<char>, i: int) -> (Option<TokenV>, int) {
    let c = s[i];
    if c == ' ' {
        (Option::Some(TokenV::Ws), i + 1)
    } else if is_ident_start(c) {
        let j = ident_end(s, i);
        (Option::Some(word_token(s.subrange(i, j))), j)
    } else if '0' <= c <= '9' {
        let j = number_end(s, i);
        (Option::Some(number_token(s.subrange(i, j))), j)
    } else if is_relation_char(c) {
        let j = relation_end(s, i);
        (Option::Some(relation_token(s.subrange(i, j))), j)
    } else if is_quote(c) {
        let (t, j) = text_token(s, i);
        (Option::Some(t), j)
    } else if c == '-' {
        if i + 1 < s.len() && '0' <= s[i + 1] <= '9' {
            let j = number_end(s, i + 1);
            match unsigned_decimal(s.subrange(i + 1, j)) {
                Option::Some(d) => (Option::Some(TokenV::Number(d.negated())), j),
                Option::None => (Option::None, j),
            }
        } else {
            (Option::Some(TokenV::Illegal('-')), i + 1)
        }
    } else if c == '&' {
        if i + 1 < s.len() && s[i + 1] == '&' {
            (Option::Some(TokenV::And), i + 2)
        } else {
            (Option::Some(TokenV::Illegal('&')), i + 1)
        }
    } else if c == '|' {
        if i + 1 < s.len() && s[i + 1] == '|' {
            (Option::Some(TokenV::Or), i + 2)
        } else {
            (Option::Some(TokenV::Illegal('|')), i + 1)
        }
    } else if c == ',' {
        (Option::Some(TokenV::Comma), i + 1)
    } else if c == '[' {
        (Option::Some(TokenV::LtBracket), i + 1)
    } else if c == ']' {
        (Option::Some(TokenV::RtBracket), i + 1)
    } else if c == '(' {
        (Option::Some(TokenV::LtParentheses), i + 1)
    } else if c == ')' {
        (Option::Some(TokenV::RtParentheses), i + 1)
    } else if c == '#' || c == '@' {
        (Option::Some(TokenV::In), i + 1)
    } else {
        (Option::Some(TokenV::Illegal(c)), i + 1)
    }
}

/// A token after which scanning stops.
pub open spec fn is_stop(t: TokenV) -> bool {
    t matches TokenV::Illegal(_) || t matches TokenV::BadNumber(_) || t matches TokenV::BadRelation(_)
        || t matches TokenV::UnclosedText(_)
}

pub proof fn lemma_ident_end(s: Seq<char>, i: int)
    requires
        0 <= i <= s.len(),
    ensures
        i <= ident_end(s, i) <= s.len(),
        forall|k: int| i <= k < ident_end(s, i) ==> is_ident_char(#[trigger] s[k]),
        ident_end(s, i) == s.len() || !is_ident_char(s[ident_end(s, i)]),
    decreases s.len() - i,
{
    if i < s.len() && is_ident_char(s[i]) {
        lemma_ident_end(s, i + 1);
    }
}

pub proof fn lemma_number_end(s: Seq<char>, i: int)
    requires
        0 <= i <= s.len(),
    ensures
        i <= number_end(s, i) <= s.len(),
        forall|k: int| i <= k < number_end(s, i) ==> is_number_char(#[trigger] s[k]),
        number_end(s, i) == s.len() || !is_number_char(s[number_end(s, i)]),
    decreases s.len() - i,
{
    if i < s.len() && is_number_char(s[i]) {
        lemma_number_end(s, i + 1);
    }
}

pub proof fn lemma_relation_end(s: Seq<char>, i: int)
    requires
        0 <= i <= s.len(),
    ensures
        i <= relation_end(s, i) <= s.len(),
        forall|k: int| i <= k < relation_end(s, i) ==> is_relation_char(#[trigger] s[k]),
        relation_end(s, i) == s.len() || !is_relation_char(s[relation_end(s, i)]),
    decreases s.len() - i,
{
    if i < s.len() && is_relation_char(s[i]) {
        lemma_relation_end(s, i + 1);
    }
}

pub proof fn lemma_text_scan(
    s: Seq<char>,
    k: int,
    q: char,
    escape: bool,
    open: bool,
    buf: Seq<char>,
)
    requires
        0 <= k <= s.len(),
    ensures
        k <= text_scan(s, k, q, escape, open, buf).1 <= s.len(),
        k < s.len() ==> k < text_scan(s, k, q, escape, open, buf).1,
    decreases s.len() - k,
{
    if k < s.len() {
        let ch = s[k];
        if ch == '\\' && !escape {
            lemma_text_scan(s, k + 1, q, true, open, buf);
        } else if !open && ch == q {
            lemma_text_scan(s, k + 1, q, escape, true, buf);
        } else if open && ch == q && !escape {
        } else {
            lemma_text_scan(s, k + 1, q, false, open, buf.push(ch));
        }
    }
}

/// Each step moves forward and stays inside the text.
pub proof fn lemma_step(s: Seq<char>, i: int)
    requires
        0 <= i < s.len(),
    ensures
        i < step(s, i).1 <= s.len(),
{
    lemma_ident_end(s, i);
    lemma_number_end(s, i);
    lemma_relation_end(s, i);
    lemma_text_scan(s, i, s[i], false, false, Seq::empty());
    if i + 1 < s.len() {
        lemma_number_end(s, i + 1);
    }
}

/// The tokens of `s` from position `i` on, ending with `Eof`; scanning stops
/// after an illegal character, a bad number, a bad relation or an unclosed
/// text.
pub open spec fn scan_from(s: Seq<char>, i: int) -> Seq<TokenV>
    decreases s.len() - i,
{
    if i < 0 || i >= s.len() {
        seq![TokenV::Eof]
    } else {
        proof {
            lemma_step(s, i);
        }
        let (ot, j) = step(s, i);
        match ot {
            Option::Some(t) => if is_stop(t) {
                seq![t, TokenV::Eof]
            } else {
                seq![t] + scan_from(s, j)
            },
            Option::None => scan_from(s, j),
        }
    }
}

/// The tokens of a whole text.
pub open spec fn scan_spec(s: Seq<char>) -> Seq<TokenV> {
    scan_from(s, 0)
}

/// The ASCII upper case of a character.
fn upper_char(c: char) -> (r: char)
    ensures
        r == ascii_upper(c),
{
    match c {
        'a' => 'A',
        'b' => 'B',
        'c' => 'C',
        'd' => 'D',
        'e' => 'E',
        'f' => 'F',
        'g' => 'G',
        'h' => 'H',
        'i' => 'I',
        'j' => 'J',
        'k' => 'K',
        'l' => 'L',
        'm' => 'M',
        'n' => 'N',
        'o' => 'O',
        'p' => 'P',
        'q' => 'Q',
        'r' => 'R',
        's' => 'S',
        't' => 'T',
        'u' => 'U',
        'v' => 'V',
        'w' => 'W',
        'x' => 'X',
        'y' => 'Y',
        'z' => 'Z',
        _ => c,
    }
}

/// The ASCII upper case of a text.
fn upper_exec(w: &Vec<char>) -> (r: Vec<char>)
    ensures
        r@ == upper(w@),
{
    let mut r: Vec<char> = Vec::new();
    let n = w.len();
    for i in 0..n
        invariant
            n == w@.len(),
            r@ == upper(w@.take(i as int)),
    {
        r.push(upper_char(w[i]));
        assert(upper(w@.take(i + 1)) =~= upper(w@.take(i as int)).push(ascii_upper(w@[i as int])));
    }
    assert(w@.take(n as int) =~= w@);
    r
}

/// The characters `s[from..to]`.
fn slice_chars(s: &Vec<char>, from: usize, to: usize) -> (r: Vec<char>)
    requires
        from <= to <= s@.len(),
    ensures
        r@ == s@.subrange(from as int, to as int),
{
    let mut r: Vec<char> = Vec::new();
    let mut i = from;
    while i < to
        invariant
            from <= i <= to <= s@.len(),
            r@ == s@.subrange(from as int, i as int),
        decreases to - i,
    {
        r.push(s[i]);
        assert(s@.subrange(from as int, i + 1) =~= s@.subrange(from as int, i as int).push(s@[i as int]));
        i = i + 1;
    }
    r
}

/// The token of a word.
fn word_token_exec(w: &Vec<char>) -> (t: Token)
    ensures
        t@ == word_token(w@),
{
    let u = upper_exec(w);
    if chars_eq_str(&u, "NOT") {
        Token::Not
    } else if chars_eq_str(&u, "NONE") || chars_eq_str(&u, "NULL") || chars_eq_str(&u, "NOTHING")
        || chars_eq_str(&u, "NIL") {
        Token::Nothing
    } else if chars_eq_str(&u, "DEFINED") {
        Token::Defined
    } else if chars_eq_str(&u, "TRUE") || chars_eq_str(&u, "YES") {
        Token::True
    } else if chars_eq_str(&u, "NO") || chars_eq_str(&u, "FALSE") {
        Token::False
    } else if chars_eq_str(&u, "IN") {
        Token::In
    } else if chars_eq_str(&u, "ALL") {
        Token::All
    } else if chars_eq_str(&u, "ANY") {
        Token::Any
    } else if chars_eq_str(&u, "AND") {
        Token::And
    } else if chars_eq_str(&u, "OR") {
        Token::Or
    } else if chars_eq_str(&u, "EQ") || chars_eq_str(&u, "IS") {
        Token::Eq
    } else if chars_eq_str(&u, "NE") {
        Token::Ne
    } else if chars_eq_str(&u, "LT") {
        Token::Lt
    } else if chars_eq_str(&u, "LTE") {
        Token::Lte
    } else if chars_eq_str(&u, "GT") {
        Token::Gt
    } else if chars_eq_str(&u, "GTE") {
        Token::Gte
    } else {
        Token::Ident(string_from_chars(w))
    }
}

/// The token of a run of relation characters.
fn relation_token_exec(w: &Vec<char>) -> (t: Token)
    ensures
        t@ == relation_token(w@),
{
    if chars_eq_str(w, "==") {
        Token::Eq
    } else if chars_eq_str(w, "!=") {
        Token::Ne
    } else if chars_eq_str(w, "<") {
        Token::Lt
    } else if chars_eq_str(w, "<=") {
        Token::Lte
    } else if chars_eq_str(w, ">") {
        Token::Gt
    } else if chars_eq_str(w, ">=") {
        Token::Gte
    } else if chars_eq_str(w, "!") {
        Token::Not
    } else {
        Token::BadRelation(string_from_chars(w))
    }
}

/// The token of a run of number characters.
fn number_token_exec(w: &Vec<char>) -> (t: Token)
    ensures
        t@ == number_token(w@),
        t matches Token::Number(n) ==> n.wf(),
{
    match Rational::parse_unsigned(w) {
        Option::Some(n) => Token::Number(n),
        Option::None => Token::BadNumber(string_from_chars(w)),
    }
}

/// Where the run that [`ident_end`] describes ends.
fn ident_end_exec(s: &Vec<char>, i: usize) -> (j: usize)
    requires
        i <= s@.len(),
    ensures
        j == ident_end(s@, i as int),
{
    let mut k = i;
    while k < s.len()
        invariant
            i <= k <= s@.len(),
            ident_end(s@, i as int) == ident_end(s@, k as int),
        decreases s@.len() - k,
    {
        let c = s[k];
        if !(('a' <= c && c <= 'z') || ('A' <= c && c <= 'Z') || c == '.' || c == '_' || ('0' <= c && c <= '9')) {
            return k;
        }
        k = k + 1;
    }
    k
}

/// Where the run that [`number_end`] describes ends.
fn number_end_exec(s: &Vec<char>, i: usize) -> (j: usize)
    requires
        i <= s@.len(),
    ensures
        j == number_end(s@, i as int),
{
    let mut k = i;
    while k < s.len()
        invariant
            i <= k <= s@.len(),
            number_end(s@, i as int) == number_end(s@, k as int),
        decreases s@.len() - k,
    {
        let c = s[k];
        if !(('0' <= c && c <= '9') || c == '.') {
            return k;
        }
        k = k + 1;
    }
    k
}

/// Where the run that [`relation_end`] describes ends.
fn relation_end_exec(s: &Vec<char>, i: usize) -> (j: usize)
    requires
        i <= s@.len(),
    ensures
        j == relation_end(s@, i as int),
{
    let mut k = i;
    while k < s.len()
        invariant
            i <= k <= s@.len(),
            relation_end(s@, i as int) == relation_end(s@, k as int),
        decreases s@.len() - k,
    {
        let c = s[k];
        if !(c == '>' || c == '<' || c == '=' || c == '!') {
            return k;
        }
        k = k + 1;
    }
    k
}

/// The token of the quoted text that starts at `i`, and where it ends.
fn text_token_exec(s: &Vec<char>, i: usize) -> (r: (Token, usize))
    requires
        i < s@.len(),
    ensures
        r.0@ == text_token(s@, i as int).0,
        r.1 == text_token(s@, i as int).1,
{
    let q = s[i];
    let mut k = i;
    let mut escape = false;
    let mut open = false;
    let mut buf: Vec<char> = Vec::new();
    let n = s.len();
    while k < n
        invariant
            n == s@.len(),
            i <= k <= n,
            q == s@[i as int],
            text_scan(s@, i as int, q, false, false, Seq::empty()) == text_scan(
                s@,
                k as int,
                q,
                escape,
                open,
                buf@,
            ),
        decreases n - k,
    {
        let ch = s[k];
        if ch == '\\' && !escape {
            escape = true;
        } else if !open && ch == q {
            open = true;
        } else if open && ch == q && !escape {
            let t = Token::Text(string_from_chars(&buf));
            return (t, k + 1);
        } else {
            buf.push(ch);
            escape = false;
        }
        k = k + 1;
    }
    let text = string_from_chars(&buf);
    if open {
        (Token::UnclosedText(text), k)
    } else {
        (Token::Text(text), k)
    }
}

/// The token that starts at `i` and the position after it (see [`step`]).
fn step_exec(s: &Vec<char>, i: usize) -> (r: (Option<Token>, usize))
    requires
        i < s@.len(),
    ensures
        r.1 == step(s@, i as int).1,
        match r.0 {
            Option::Some(t) => step(s@, i as int).0 == Option::Some(t@),
            Option::None => step(s@, i as int).0 == Option::<TokenV>::None,
        },
{
    let n = s.len();
    let c = s[i];
    if c == ' ' {
        (Option::Some(Token::Ws), i + 1)
    } else if ('a' <= c && c <= 'z') || ('A' <= c && c <= 'Z') || c == '.' || c == '_' {
        let j = ident_end_exec(s, i);
        proof {
            lemma_ident_end(s@, i as int);
        }
        let w = slice_chars(s, i, j);
        (Option::Some(word_token_exec(&w)), j)
    } else if '0' <= c && c <= '9' {
        let j = number_end_exec(s, i);
        proof {
            lemma_number_end(s@, i as int);
        }
        let w = slice_chars(s, i, j);
        (Option::Some(number_token_exec(&w)), j)
    } else if c == '>' || c == '<' || c == '=' || c == '!' {
        let j = relation_end_exec(s, i);
        proof {
            lemma_relation_end(s@, i as int);
        }
        let w = slice_chars(s, i, j);
        (Option::Some(relation_token_exec(&w)), j)
    } else if c == '\'' || c == '"' || c == '*' {
        let (t, j) = text_token_exec(s, i);
        (Option::Some(t), j)
    } else if c == '-' {
        if i + 1 < n && '0' <= s[i + 1] && s[i + 1] <= '9' {
            let j = number_end_exec(s, i + 1);
            proof {
                lemma_number_end(s@, i + 1);
            }
            let w = slice_chars(s, i + 1, j);
            match Rational::parse_unsigned(&w) {
                Option::Some(d) => (Option::Some(Token::Number(d.negate())), j),
                Option::None => (Option::None, j),
            }
        } else {
            (Option::Some(Token::Illegal('-')), i + 1)
        }
    } else if c == '&' {
        if i + 1 < n && s[i + 1] == '&' {
            (Option::Some(Token::And), i + 2)
        } else {
            (Option::Some(Token::Illegal('&')), i + 1)
        }
    } else if c == '|' {
        if i + 1 < n && s[i + 1] == '|' {
            (Option::Some(Token::Or), i + 2)
        } else {
            (Option::Some(Token::Illegal('|')), i + 1)
        }
    } else if c == ',' {
        (Option::Some(Token::Comma), i + 1)
    } else if c == '[' {
        (Option::Some(Token::LtBracket), i + 1)
    } else if c == ']' {
        (Option::Some(Token::RtBracket), i + 1)
    } else if c == '(' {
        (Option::Some(Token::LtParentheses), i + 1)
    } else if c == ')' {
        (Option::Some(Token::RtParentheses), i + 1)
    } else if c == '#' || c == '@' {
        (Option::Some(Token::In), i + 1)
    } else {
        (Option::Some(Token::Illegal(c)), i + 1)
    }
}

/// Whether scanning stops after this token.
fn is_stop_exec(t: &Token) -> (r: bool)
    ensures
        r == is_stop(t@),
{
    match t {
        Token::Illegal(_) | Token::BadNumber(_) | Token::BadRelation(_) | Token::UnclosedText(_) => true,
        _ => false,
    }
}

/// Cuts a query text into tokens. The last token is `Eof`; scanning stops
/// early, just before that `Eof`, after an illegal character, a bad number,
/// a bad relation or an unclosed text.
pub fn scan(s: &str) -> (r: Vec<Token>)
    ensures
        token_views(r@) == scan_spec(s@),
{
    let cs = chars_of(s);
    let n = cs.len();
    let mut toks: Vec<Token> = Vec::new();
    let mut i: usize = 0;
    while i < n
        invariant
            n == cs@.len(),
            cs@ == s@,
            i <= n,
            token_views(toks@) + scan_from(cs@, i as int) == scan_from(cs@, 0),
        decreases n - i,
    {
        proof {
            lemma_step(cs@, i as int);
        }
        let (ot, j) = step_exec(&cs, i);
        let ghost before = token_views(toks@);
        match ot {
            Option::Some(t) => {
                let stop = is_stop_exec(&t);
                let ghost tv = t@;
                toks.push(t);
                assert(token_views(toks@) =~= before.push(tv));
                if stop {
                    assert(scan_from(cs@, i as int) == seq![tv, TokenV::Eof]);
                    let ghost mid = token_views(toks@);
                    toks.push(Token::Eof);
                    assert(token_views(toks@) =~= mid.push(TokenV::Eof));
                    assert(token_views(toks@) =~= before + scan_from(cs@, i as int));
                    return toks;
                }
                assert(scan_from(cs@, i as int) == seq![tv] + scan_from(cs@, j as int));
                assert(token_views(toks@) + scan_from(cs@, j as int) =~= before + scan_from(
                    cs@,
                    i as int,
                ));
            },
            Option::None => {
                assert(scan_from(cs@, i as int) == scan_from(cs@, j as int));
            },
        }
        i = j;
    }
    let ghost before = token_views(toks@);
    toks.push(Token::Eof);
    assert(token_views(toks@) =~= before.push(TokenV::Eof));
    assert(token_views(toks@) =~= before + scan_from(cs@, i as int));
    toks
}

} // verus!
