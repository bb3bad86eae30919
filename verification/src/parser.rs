//! The parser of the query language: tokens are read by a small state
//! machine into a list of operands and operators, which the shunting-yard
//! algorithm then folds into one query.

use vstd::prelude::*;
use crate::bql::{value_views, BqlV, Value, ValueV, BQL};
use crate::scanner::{scan, scan_spec, token_text, token_views, Token, TokenV};
use crate::text::{chars_of, push_all, push_str, string_from_chars};

verus! {

/// Where the reading state machine stands.
#[derive(Debug, Clone, Copy, PartialEq, Eq)]
pub enum Step {
    Initial,
    Field,
    In,
    Eq,
    Lt,
    Le,
    Gt,
    Ge,
    Final,
}

/// An operand or an operator read from the tokens.
pub enum OpV {
    OpenPar,
    ClosePar,
    Or,
    And,
    Not,
    Ast(BqlV),
}

/// The tokens that are not spaces, in order.
pub open spec fn drop_spaces(ts: Seq<TokenV>) -> Seq<TokenV>
    decreases ts.len(),
{
    if ts.len() == 0 {
        Seq::empty()
    } else if ts.last() is Ws {
        drop_spaces(ts.drop_last())
    } else {
        drop_spaces(ts.drop_last()).push(ts.last())
    }
}

/// A value token, as the value it writes.
pub open spec fn token_value(t: TokenV) -> Option<ValueV> {
    match t {
        TokenV::Text(x) => Option::Some(ValueV::Text(x)),
        TokenV::Number(n) => Option::Some(ValueV::Rational(n)),
        TokenV::True => Option::Some(ValueV::Boolean(true)),
        TokenV::False => Option::Some(ValueV::Boolean(false)),
        TokenV::Nothing => Option::Some(ValueV::Bottom),
        _ => Option::None,
    }
}

/// The values of a bracketed list, from position `p` (just after `[`) on:
/// the values read and the position after `]`.
pub open spec fn values_from(ts: Seq<TokenV>, p: int, acc: Seq<ValueV>) -> Result<(Seq<ValueV>, int), ()>
    decreases ts.len() - p,
{
    if p < 0 || p >= ts.len() {
        Err(())
    } else if ts[p] is RtBracket {
        Ok((acc, p + 1))
    } else if ts[p] is Comma {
        values_from(ts, p + 1, acc)
    } else {
        match token_value(ts[p]) {
            Option::Some(v) => values_from(ts, p + 1, acc.push(v)),
            Option::None => Err(()),
        }
    }
}

/// A bracketed list of values that starts at `p`.
pub open spec fn values_at(ts: Seq<TokenV>, p: int) -> Result<(Seq<ValueV>, int), ()> {
    if 0 <= p < ts.len() && ts[p] is LtBracket {
        values_from(ts, p + 1, Seq::empty())
    } else {
        Err(())
    }
}

pub proof fn lemma_values_from(ts: Seq<TokenV>, p: int, acc: Seq<ValueV>)
    requires
        0 <= p,
    ensures
        values_from(ts, p, acc) matches Ok((_, q)) ==> p < q <= ts.len(),
    decreases ts.len() - p,
{
    if p < ts.len() && !(ts[p] is RtBracket) {
        if ts[p] is Comma {
            lemma_values_from(ts, p + 1, acc);
        } else if let Option::Some(v) = token_value(ts[p]) {
            lemma_values_from(ts, p + 1, acc.push(v));
        }
    }
}

/// The rank that makes the reading machine terminate: it may stay on a
/// token only when it moves to the final step.
pub open spec fn step_rank(s: Step) -> int {
    if s == Step::Final {
        0
    } else {
        1
    }
}

/// The comparison query of a step with a value.
pub open spec fn comparison(step: Step, field: Seq<char>, v: ValueV) -> BqlV {
    match step {
        Step::Lt => BqlV::LT { field, value: v },
        Step::Le => BqlV::LE { field, value: v },
        Step::Gt => BqlV::GT { field, value: v },
        _ => BqlV::GE { field, value: v },
    }
}

/// Reads the tokens from position `p` on into operands and operators.
pub open spec fn nodes_from(ts: Seq<TokenV>, p: int, step: Step, field: Seq<char>, nodes: Seq<OpV>) -> Result<Seq<OpV>, ()>
    decreases ts.len() - p, step_rank(step),
{
    if p < 0 || p >= ts.len() {
        Err(())
    } else {
        let tok = ts[p];
        match step {
            Step::Initial => match tok {
                TokenV::LtParentheses => nodes_from(ts, p + 1, Step::Initial, field, nodes.push(OpV::OpenPar)),
                TokenV::Not => nodes_from(ts, p + 1, Step::Initial, field, nodes.push(OpV::Not)),
                TokenV::Ident(l) => nodes_from(ts, p + 1, Step::Field, l, nodes),
                TokenV::Text(l) => nodes_from(ts, p + 1, Step::Field, l, nodes),
                TokenV::All => nodes_from(ts, p + 1, Step::Final, field, nodes.push(OpV::Ast(BqlV::IsPresent))),
                _ => Err(()),
            },
            Step::Field => match tok {
                TokenV::Not => nodes_from(ts, p + 1, Step::Field, field, nodes.push(OpV::Not)),
                TokenV::In => nodes_from(ts, p + 1, Step::In, field, nodes),
                TokenV::Eq => nodes_from(ts, p + 1, Step::Eq, field, nodes),
                TokenV::Ne => nodes_from(ts, p + 1, Step::Eq, field, nodes.push(OpV::Not)),
                TokenV::Lt => nodes_from(ts, p + 1, Step::Lt, field, nodes),
                TokenV::Lte => nodes_from(ts, p + 1, Step::Le, field, nodes),
                TokenV::Gt => nodes_from(ts, p + 1, Step::Gt, field, nodes),
                TokenV::Gte => nodes_from(ts, p + 1, Step::Ge, field, nodes),
                TokenV::Or | TokenV::And | TokenV::Eof | TokenV::RtParentheses => nodes_from(
                    ts,
                    p,
                    Step::Final,
                    field,
                    nodes.push(OpV::Ast(BqlV::IsDefined { field })),
                ),
                _ => Err(()),
            },
            Step::In => {
                if tok is All || tok is Any {
                    proof {
                        lemma_values_from(ts, p + 2, Seq::empty());
                    }
                    match values_at(ts, p + 1) {
                        Ok((vs, q)) => nodes_from(
                            ts,
                            q,
                            Step::Final,
                            field,
                            nodes.push(
                                OpV::Ast(
                                    if tok is All {
                                        BqlV::All { field, values: vs }
                                    } else {
                                        BqlV::Any { field, values: vs }
                                    },
                                ),
                            ),
                        ),
                        Err(_) => Err(()),
                    }
                } else {
                    Err(())
                }
            },
            Step::Eq => match tok {
                TokenV::Defined => nodes_from(ts, p + 1, Step::Final, field, nodes.push(OpV::Ast(BqlV::IsDefined { field }))),
                TokenV::Not => nodes_from(ts, p + 1, Step::Eq, field, nodes.push(OpV::Not)),
                _ => match token_value(tok) {
                    Option::Some(v) => nodes_from(
                        ts,
                        p + 1,
                        Step::Final,
                        field,
                        nodes.push(OpV::Ast(BqlV::Eq { field, value: v })),
                    ),
                    Option::None => Err(()),
                },
            },
            Step::Lt | Step::Le | Step::Gt | Step::Ge => {
                if tok is Text || tok is Number {
                    nodes_from(
                        ts,
                        p + 1,
                        Step::Final,
                        field,
                        nodes.push(OpV::Ast(comparison(step, field, token_value(tok)->0))),
                    )
                } else {
                    Err(())
                }
            },
            Step::Final => match tok {
                TokenV::RtParentheses => nodes_from(ts, p + 1, Step::Final, field, nodes.push(OpV::ClosePar)),
                TokenV::LtParentheses => nodes_from(ts, p + 1, Step::Initial, field, nodes.push(OpV::OpenPar)),
                TokenV::Or => nodes_from(ts, p + 1, Step::Initial, field, nodes.push(OpV::Or)),
                TokenV::And => nodes_from(ts, p + 1, Step::Initial, field, nodes.push(OpV::And)),
                TokenV::Eof => Ok(nodes),
                _ => Err(()),
            },
        }
    }
}

/// Pops two operands `a` (the top) and `b` and pushes `Or(a, b)` or
/// `And(a, b)`.
pub open spec fn apply_binary(asts: Seq<BqlV>, is_or: bool) -> Result<Seq<BqlV>, ()> {
    if asts.len() < 2 {
        Err(())
    } else {
        let a = asts.last();
        let b = asts.drop_last().last();
        let rest = asts.drop_last().drop_last();
        Ok(rest.push(if is_or { BqlV::Or(Box::new(a), Box::new(b)) } else { BqlV::And(Box::new(a), Box::new(b)) }))
    }
}

/// Pops the top operand `a` and pushes `Not(a)`.
pub open spec fn apply_not(asts: Seq<BqlV>) -> Result<Seq<BqlV>, ()> {
    if asts.len() < 1 {
        Err(())
    } else {
        Ok(asts.drop_last().push(BqlV::Not(Box::new(asts.last()))))
    }
}

/// Applies one operator to the operand stack.
pub open spec fn apply_op(asts: Seq<BqlV>, o: OpV) -> Result<Seq<BqlV>, ()> {
    match o {
        OpV::Or => apply_binary(asts, true),
        OpV::And => apply_binary(asts, false),
        OpV::Not => apply_not(asts),
        _ => Err(()),
    }
}

/// On a closing parenthesis: applies operators up to the matching opening
/// one, which is dropped.
pub open spec fn reduce_close(asts: Seq<BqlV>, ops: Seq<OpV>) -> Result<(Seq<BqlV>, Seq<OpV>), ()>
    decreases ops.len(),
{
    if ops.len() == 0 {
        Ok((asts, ops))
    } else {
        let o = ops.last();
        if o is OpenPar {
            Ok((asts, ops.drop_last()))
        } else {
            match apply_op(asts, o) {
                Ok(a2) => reduce_close(a2, ops.drop_last()),
                Err(_) => Err(()),
            }
        }
    }
}

/// Before pushing `and` or `or`: applies the `not` and `and` operators on
/// top of the operator stack.
pub open spec fn reduce_prec(asts: Seq<BqlV>, ops: Seq<OpV>) -> Result<(Seq<BqlV>, Seq<OpV>), ()>
    decreases ops.len(),
{
    if ops.len() == 0 {
        Ok((asts, ops))
    } else {
        let o = ops.last();
        if o is Not || o is And {
            match apply_op(asts, o) {
                Ok(a2) => reduce_prec(a2, ops.drop_last()),
                Err(_) => Err(()),
            }
        } else {
            Ok((asts, ops))
        }
    }
}

/// At the end: applies every operator left; a parenthesis left is an error.
pub open spec fn reduce_end(asts: Seq<BqlV>, ops: Seq<OpV>) -> Result<Seq<BqlV>, ()>
    decreases ops.len(),
{
    if ops.len() == 0 {
        Ok(asts)
    } else {
        match apply_op(asts, ops.last()) {
            Ok(a2) => reduce_end(a2, ops.drop_last()),
            Err(_) => Err(()),
        }
    }
}

/// The shunting-yard fold over the nodes still to read, which are held in
/// reverse order (the next one last).
pub open spec fn solve_rev(pending: Seq<OpV>, asts: Seq<BqlV>, ops: Seq<OpV>) -> Result<BqlV, ()>
    decreases pending.len(),
{
    if pending.len() == 0 {
        match reduce_end(asts, ops) {
            Ok(a) => if a.len() > 0 {
                Ok(a.last())
            } else {
                Err(())
            },
            Err(_) => Err(()),
        }
    } else {
        let rest = pending.drop_last();
        match pending.last() {
            OpV::Ast(b) => solve_rev(rest, asts.push(b), ops),
            OpV::OpenPar => solve_rev(rest, asts, ops.push(OpV::OpenPar)),
            OpV::Not => solve_rev(rest, asts, ops.push(OpV::Not)),
            OpV::ClosePar => match reduce_close(asts, ops) {
                Ok((a2, o2)) => solve_rev(rest, a2, o2),
                Err(_) => Err(()),
            },
            OpV::Or => match reduce_prec(asts, ops) {
                Ok((a2, o2)) => solve_rev(rest, a2, o2.push(OpV::Or)),
                Err(_) => Err(()),
            },
            OpV::And => match reduce_prec(asts, ops) {
                Ok((a2, o2)) => solve_rev(rest, a2, o2.push(OpV::And)),
                Err(_) => Err(()),
            },
        }
    }
}

/// A sequence in reverse order.
pub open spec fn reversed<A>(s: Seq<A>) -> Seq<A>
    decreases s.len(),
{
    if s.len() == 0 {
        Seq::empty()
    } else {
        seq![s.last()] + reversed(s.drop_last())
    }
}

/// The query that a text parses to, or an error.
pub open spec fn parse_spec(s: Seq<char>) -> Result<BqlV, ()> {
    match nodes_from(drop_spaces(scan_spec(s)), 0, Step::Initial, Seq::empty(), Seq::empty()) {
        Ok(nodes) => solve_nodes(nodes),
        Err(_) => Err(()),
    }
}

/// An operand or an operator read from the tokens.
pub enum Op {
    OpenPar,
    ClosePar,
    Or,
    And,
    Not,
    Ast(BQL),
}

impl View for Op {
    type V = OpV;

    open spec fn view(&self) -> OpV {
        match self {
            Op::OpenPar => OpV::OpenPar,
            Op::ClosePar => OpV::ClosePar,
            Op::Or => OpV::Or,
            Op::And => OpV::And,
            Op::Not => OpV::Not,
            Op::Ast(b) => OpV::Ast(b@),
        }
    }
}

/// The values of a sequence of queries.
pub open spec fn bql_views(s: Seq<BQL>) -> Seq<BqlV> {
    s.map_values(|b: BQL| b@)
}

/// The values of a sequence of operators.
pub open spec fn op_views(s: Seq<Op>) -> Seq<OpV> {
    s.map_values(|o: Op| o@)
}

/// The message for a token other than those expected.
pub open spec fn unexpected_text(expected: Seq<char>, got: TokenV) -> Seq<char> {
    "expected "@ + expected + " but got "@ + token_text(got)
}

/// The lists of tokens the reading expects at its steps.
pub open spec fn expected_list(x: Seq<char>) -> bool {
    x == "RtBracket|Text|Number|True|False|None|Comma"@ || x == "IDENT | TEXT | ALL | LTParentheses | Not"@ || x
        == "NOT|IN|EQ|NE|LT|LTE|GT|GTE|OR|AND|EOF|RtParentheses"@ || x == "ALL|ANY"@ || x
        == "TEXT|NUMBER|NONE|TRUE|FALSE|DEFINED|NOT"@ || x == "TEXT|NUMBER"@ || x == "OR|AND|EOF|LTParentheses|RTParenthese"@
}

/// The messages a query that does not parse is answered with: a token
/// other than those expected (see [`unexpected_text`]), or one of the
/// messages of a list of values or of operators that does not close.
pub open spec fn parse_message(e: Seq<char>) -> bool {
    ||| exists|x: Seq<char>, t: TokenV| expected_list(x) && e == #[trigger] unexpected_text(x, t)
    ||| e == "value expression did not start with left brackets"@
    ||| e == "scan_values did not finish well"@
    ||| e == "did not finished well"@
    ||| e == "not expected a close parentehese"@
    ||| e == "expected a value"@
    ||| e == "expected OR | AND"@
    ||| e == "could not compute ast"@
}

/// Describes an unexpected token for an error message.
fn unexpected(expected: &str, got: &Token) -> (r: String)
    ensures
        r@ == unexpected_text(expected@, got@),
{
    let mut m: Vec<char> = Vec::new();
    push_str(&mut m, "expected ");
    push_str(&mut m, expected);
    push_str(&mut m, " but got ");
    push_all(&mut m, &chars_of(got.describe().as_str()));
    string_from_chars(&m)
}

/// A copy of a token with the same value.
fn copy_token(t: &Token) -> (r: Token)
    ensures
        r@ == t@,
{
    match t {
        Token::Illegal(c) => Token::Illegal(*c),
        Token::Eof => Token::Eof,
        Token::Ws => Token::Ws,
        Token::Comma => Token::Comma,
        Token::LtBracket => Token::LtBracket,
        Token::RtBracket => Token::RtBracket,
        Token::LtParentheses => Token::LtParentheses,
        Token::RtParentheses => Token::RtParentheses,
        Token::Ident(x) => Token::Ident(x.clone()),
        Token::Number(n) => Token::Number(n.duplicate()),
        Token::BadNumber(x) => Token::BadNumber(x.clone()),
        Token::Text(x) => Token::Text(x.clone()),
        Token::UnclosedText(x) => Token::UnclosedText(x.clone()),
        Token::BadRelation(x) => Token::BadRelation(x.clone()),
        Token::Eq => Token::Eq,
        Token::Ne => Token::Ne,
        Token::Lt => Token::Lt,
        Token::Lte => Token::Lte,
        Token::Gt => Token::Gt,
        Token::Gte => Token::Gte,
        Token::Nothing => Token::Nothing,
        Token::Defined => Token::Defined,
        Token::True => Token::True,
        Token::False => Token::False,
        Token::In => Token::In,
        Token::All => Token::All,
        Token::Any => Token::Any,
        Token::And => Token::And,
        Token::Or => Token::Or,
        Token::Not => Token::Not,
    }
}

/// The first token at or after a position that is not a space, with its
/// position; none where only spaces are left.
pub fn scan_ignore_spaces(ts: &Vec<Token>, pos: usize) -> (r: Option<(Token, usize)>)
    ensures
        match r {
            Option::Some((t, i)) => pos <= i < ts@.len() && t@ == ts@[i as int]@ && !(t@ is Ws) && forall|j: int|
                pos <= j < i ==> (#[trigger] ts@[j])@ is Ws,
            Option::None => forall|j: int| pos <= j < ts@.len() ==> (#[trigger] ts@[j])@ is Ws,
        },
{
    let n = ts.len();
    let mut i = pos;
    while i < n
        invariant
            n == ts@.len(),
            pos <= i,
            forall|j: int| pos <= j < i && j < n ==> (#[trigger] ts@[j])@ is Ws,
        decreases n - i,
    {
        match &ts[i] {
            Token::Ws => {},
            t => {
                return Some((copy_token(t), i));
            },
        }
        i = i + 1;
    }
    None
}

/// The tokens that are not spaces.
fn drop_spaces_exec(ts: &Vec<Token>) -> (r: Vec<Token>)
    ensures
        token_views(r@) == drop_spaces(token_views(ts@)),
{
    let mut r: Vec<Token> = Vec::new();
    let n = ts.len();
    for i in 0..n
        invariant
            n == ts@.len(),
            token_views(r@) == drop_spaces(token_views(ts@).take(i as int)),
    {
        let ghost tv = token_views(ts@);
        assert(tv.take(i + 1).drop_last() =~= tv.take(i as int));
        assert(tv.take(i + 1).last() == ts@[i as int]@);
        match &ts[i] {
            Token::Ws => {},
            t => {
                let ghost before = token_views(r@);
                r.push(copy_token(t));
                assert(token_views(r@) =~= before.push(ts@[i as int]@));
            },
        }
    }
    assert(token_views(ts@).take(n as int) =~= token_views(ts@));
    r
}

/// The value a value token writes.
fn token_value_exec(t: &Token) -> (r: Option<Value>)
    ensures
        match r {
            Option::Some(v) => token_value(t@) == Option::Some(v@),
            Option::None => token_value(t@) is None,
        },
{
    match t {
        Token::Text(x) => Option::Some(Value::Text(x.clone())),
        Token::Number(n) => Option::Some(Value::Rational(n.duplicate())),
        Token::True => Option::Some(Value::Boolean(true)),
        Token::False => Option::Some(Value::Boolean(false)),
        Token::Nothing => Option::Some(Value::Bottom),
        _ => Option::None,
    }
}

/// Reads a bracketed list of values that starts at `p`.
fn values_exec(ts: &Vec<Token>, p: usize) -> (r: Result<(Vec<Value>, usize), String>)
    ensures
        match r {
            Ok((vs, q)) => values_at(token_views(ts@), p as int) == Ok::<(Seq<ValueV>, int), ()>(
                (value_views(vs@), q as int),
            ),
            Err(e) => values_at(token_views(ts@), p as int) is Err && parse_message(e@),
        },
{
    let ghost tv = token_views(ts@);
    let n = ts.len();
    if p >= n {
        return Err("value expression did not start with left brackets".to_owned());
    }
    match &ts[p] {
        Token::LtBracket => {},
        _ => {
            return Err("value expression did not start with left brackets".to_owned());
        },
    }
    let mut values: Vec<Value> = Vec::new();
    let mut k = p + 1;
    assert(value_views(values@) =~= Seq::<ValueV>::empty());
    while k < n
        invariant
            n == ts@.len(),
            tv == token_views(ts@),
            p < k <= n,
            values_at(tv, p as int) == values_from(tv, k as int, value_views(values@)),
        decreases n - k,
    {
        match &ts[k] {
            Token::RtBracket => {
                return Ok((values, k + 1));
            },
            Token::Comma => {},
            t => match token_value_exec(t) {
                Option::Some(v) => {
                    let ghost before = value_views(values@);
                    let ghost vv = v@;
                    values.push(v);
                    assert(value_views(values@) =~= before.push(vv));
                },
                Option::None => {
                    return Err(unexpected("RtBracket|Text|Number|True|False|None|Comma", t));
                },
            },
        }
        k = k + 1;
    }
    Err("scan_values did not finish well".to_owned())
}

/// Reads the tokens (spaces already dropped) into operands and operators.
fn read_nodes(ts: &Vec<Token>) -> (r: Result<Vec<Op>, String>)
    ensures
        match r {
            Ok(nodes) => nodes_from(token_views(ts@), 0, Step::Initial, Seq::empty(), Seq::empty())
                == Ok::<Seq<OpV>, ()>(op_views(nodes@)),
            Err(e) => nodes_from(token_views(ts@), 0, Step::Initial, Seq::empty(), Seq::empty()) is Err && parse_message(e@),
        },
{
    let ghost tv = token_views(ts@);
    let n = ts.len();
    let mut p: usize = 0;
    let mut step = Step::Initial;
    let mut field = String::new();
    let mut nodes: Vec<Op> = Vec::new();
    assert(op_views(nodes@) =~= Seq::<OpV>::empty());
    while p < n
        invariant
            n == ts@.len(),
            tv == token_views(ts@),
            p <= n,
            nodes_from(tv, 0, Step::Initial, Seq::empty(), Seq::empty()) == nodes_from(
                tv,
                p as int,
                step,
                field@,
                op_views(nodes@),
            ),
        decreases n - p, step_rank(step),
    {
        let ghost before = op_views(nodes@);
        let tok = &ts[p];
        assert(tv[p as int] == tok@);
        match step {
            Step::Initial => match tok {
                Token::LtParentheses => {
                    nodes.push(Op::OpenPar);
                    p = p + 1;
                },
                Token::Not => {
                    nodes.push(Op::Not);
                    p = p + 1;
                },
                Token::Ident(l) => {
                    field = l.clone();
                    step = Step::Field;
                    p = p + 1;
                },
                Token::Text(l) => {
                    field = l.clone();
                    step = Step::Field;
                    p = p + 1;
                },
                Token::All => {
                    nodes.push(Op::Ast(BQL::IsPresent));
                    step = Step::Final;
                    p = p + 1;
                },
                _ => {
                    return Err(unexpected("IDENT | TEXT | ALL | LTParentheses | Not", tok));
                },
            },
            Step::Field => match tok {
                Token::Not => {
                    nodes.push(Op::Not);
                    p = p + 1;
                },
                Token::In => {
                    step = Step::In;
                    p = p + 1;
                },
                Token::Eq => {
                    step = Step::Eq;
                    p = p + 1;
                },
                Token::Ne => {
                    nodes.push(Op::Not);
                    step = Step::Eq;
                    p = p + 1;
                },
                Token::Lt => {
                    step = Step::Lt;
                    p = p + 1;
                },
                Token::Lte => {
                    step = Step::Le;
                    p = p + 1;
                },
                Token::Gt => {
                    step = Step::Gt;
                    p = p + 1;
                },
                Token::Gte => {
                    step = Step::Ge;
                    p = p + 1;
                },
                Token::Or | Token::And | Token::Eof | Token::RtParentheses => {
                    nodes.push(Op::Ast(BQL::IsDefined { field: field.clone() }));
                    step = Step::Final;
                },
                _ => {
                    return Err(
                        unexpected("NOT|IN|EQ|NE|LT|LTE|GT|GTE|OR|AND|EOF|RtParentheses", tok),
                    );
                },
            },
            Step::In => {
                let is_all = match tok {
                    Token::All => true,
                    Token::Any => false,
                    _ => {
                        return Err(unexpected("ALL|ANY", tok));
                    },
                };
                proof {
                    lemma_values_from(tv, p + 2, Seq::empty());
                }
                let (values, q) = values_exec(ts, p + 1)?;
                if is_all {
                    nodes.push(Op::Ast(BQL::All { field: field.clone(), values }));
                } else {
                    nodes.push(Op::Ast(BQL::Any { field: field.clone(), values }));
                }
                step = Step::Final;
                p = q;
            },
            Step::Eq => match tok {
                Token::Defined => {
                    nodes.push(Op::Ast(BQL::IsDefined { field: field.clone() }));
                    step = Step::Final;
                    p = p + 1;
                },
                Token::Not => {
                    nodes.push(Op::Not);
                    p = p + 1;
                },
                _ => match token_value_exec(tok) {
                    Option::Some(v) => {
                        nodes.push(Op::Ast(BQL::Eq { field: field.clone(), value: v }));
                        step = Step::Final;
                        p = p + 1;
                    },
                    Option::None => {
                        return Err(
                            unexpected("TEXT|NUMBER|NONE|TRUE|FALSE|DEFINED|NOT", tok),
                        );
                    },
                },
            },
            Step::Lt | Step::Le | Step::Gt | Step::Ge => {
                let v = match tok {
                    Token::Text(_) | Token::Number(_) => token_value_exec(tok).unwrap(),
                    _ => {
                        return Err(unexpected("TEXT|NUMBER", tok));
                    },
                };
                let b = match step {
                    Step::Lt => BQL::LT { field: field.clone(), value: v },
                    Step::Le => BQL::LE { field: field.clone(), value: v },
                    Step::Gt => BQL::GT { field: field.clone(), value: v },
                    _ => BQL::GE { field: field.clone(), value: v },
                };
                nodes.push(Op::Ast(b));
                step = Step::Final;
                p = p + 1;
            },
            Step::Final => match tok {
                Token::RtParentheses => {
                    nodes.push(Op::ClosePar);
                    p = p + 1;
                },
                Token::LtParentheses => {
                    nodes.push(Op::OpenPar);
                    step = Step::Initial;
                    p = p + 1;
                },
                Token::Or => {
                    nodes.push(Op::Or);
                    step = Step::Initial;
                    p = p + 1;
                },
                Token::And => {
                    nodes.push(Op::And);
                    step = Step::Initial;
                    p = p + 1;
                },
                Token::Eof => {
                    return Ok(nodes);
                },
                _ => {
                    return Err(unexpected("OR|AND|EOF|LTParentheses|RTParenthese", tok));
                },
            },
        }
        assert(op_views(nodes@) =~= before || op_views(nodes@) =~= before.push(nodes@.last()@));
    }
    Err("did not finished well".to_owned())
}

/// Applies one operator (`or`, `and` or `not`) to the operand stack; false
/// when the operator is another one or operands are missing.
fn apply_op_exec(asts: &mut Vec<BQL>, o: Op) -> (ok: bool)
    ensures
        ok == (apply_op(bql_views(old(asts)@), o@) is Ok),
        ok ==> apply_op(bql_views(old(asts)@), o@) == Ok::<Seq<BqlV>, ()>(bql_views(final(asts)@)),
{
    let ghost old_v = bql_views(asts@);
    match o {
        Op::Or | Op::And => {
            let is_or = match o {
                Op::Or => true,
                _ => false,
            };
            if asts.len() < 2 {
                return false;
            }
            let a = asts.pop().unwrap();
            let b = asts.pop().unwrap();
            let ghost rest = bql_views(asts@);
            assert(rest =~= old_v.drop_last().drop_last());
            let n = if is_or {
                BQL::Or(Box::new(a), Box::new(b))
            } else {
                BQL::And(Box::new(a), Box::new(b))
            };
            let ghost nv = n@;
            asts.push(n);
            assert(bql_views(asts@) =~= rest.push(nv));
            true
        },
        Op::Not => {
            if asts.len() < 1 {
                return false;
            }
            let a = asts.pop().unwrap();
            let ghost rest = bql_views(asts@);
            assert(rest =~= old_v.drop_last());
            let n = BQL::Not(Box::new(a));
            let ghost nv = n@;
            asts.push(n);
            assert(bql_views(asts@) =~= rest.push(nv));
            true
        },
        _ => false,
    }
}

/// See [`reduce_close`]; false on an error.
fn reduce_close_exec(asts: &mut Vec<BQL>, ops: &mut Vec<Op>) -> (ok: bool)
    ensures
        ok == (reduce_close(bql_views(old(asts)@), op_views(old(ops)@)) is Ok),
        ok ==> reduce_close(bql_views(old(asts)@), op_views(old(ops)@)) == Ok::<
            (Seq<BqlV>, Seq<OpV>),
            (),
        >((bql_views(final(asts)@), op_views(final(ops)@))),
{
    let ghost goal = reduce_close(bql_views(asts@), op_views(ops@));
    while ops.len() > 0
        invariant
            goal == reduce_close(bql_views(asts@), op_views(ops@)),
            goal == reduce_close(bql_views(old(asts)@), op_views(old(ops)@)),
        decreases ops@.len(),
    {
        let ghost ov = op_views(ops@);
        let o = ops.pop().unwrap();
        assert(op_views(ops@) =~= ov.drop_last());
        match o {
            Op::OpenPar => {
                return true;
            },
            _ => {
                if !apply_op_exec(asts, o) {
                    return false;
                }
            },
        }
    }
    true
}

/// See [`reduce_prec`]; false on an error.
fn reduce_prec_exec(asts: &mut Vec<BQL>, ops: &mut Vec<Op>) -> (ok: bool)
    ensures
        ok == (reduce_prec(bql_views(old(asts)@), op_views(old(ops)@)) is Ok),
        ok ==> reduce_prec(bql_views(old(asts)@), op_views(old(ops)@)) == Ok::<
            (Seq<BqlV>, Seq<OpV>),
            (),
        >((bql_views(final(asts)@), op_views(final(ops)@))),
{
    let ghost goal = reduce_prec(bql_views(asts@), op_views(ops@));
    while ops.len() > 0
        invariant
            goal == reduce_prec(bql_views(asts@), op_views(ops@)),
            goal == reduce_prec(bql_views(old(asts)@), op_views(old(ops)@)),
        decreases ops@.len(),
    {
        let ghost ov = op_views(ops@);
        let o = ops.pop().unwrap();
        assert(op_views(ops@) =~= ov.drop_last());
        match o {
            Op::Not | Op::And => {
                if !apply_op_exec(asts, o) {
                    return false;
                }
            },
            _ => {
                ops.push(o);
                assert(op_views(ops@) =~= ov);
                return true;
            },
        }
    }
    true
}

/// See [`solve_rev`]: folds the nodes, held in reverse order, into one query.
fn solve(pending: &mut Vec<Op>) -> (r: Result<BQL, String>)
    ensures
        match r {
            Ok(b) => solve_rev(op_views(old(pending)@), Seq::empty(), Seq::empty()) == Ok::<BqlV, ()>(b@),
            Err(e) => solve_rev(op_views(old(pending)@), Seq::empty(), Seq::empty()) is Err && parse_message(e@),
        },
{
    let ghost goal = solve_rev(op_views(pending@), Seq::empty(), Seq::empty());
    let mut asts: Vec<BQL> = Vec::new();
    let mut ops: Vec<Op> = Vec::new();
    assert(bql_views(asts@) =~= Seq::<BqlV>::empty());
    assert(op_views(ops@) =~= Seq::<OpV>::empty());
    while pending.len() > 0
        invariant
            goal == solve_rev(op_views(pending@), bql_views(asts@), op_views(ops@)),
            goal == solve_rev(op_views(old(pending)@), Seq::empty(), Seq::empty()),
        decreases pending@.len(),
    {
        let ghost pv = op_views(pending@);
        let o = pending.pop().unwrap();
        assert(op_views(pending@) =~= pv.drop_last());
        match o {
            Op::Ast(b) => {
                let ghost av = bql_views(asts@);
                let ghost bv = b@;
                asts.push(b);
                assert(bql_views(asts@) =~= av.push(bv));
            },
            Op::OpenPar => {
                let ghost ov = op_views(ops@);
                ops.push(Op::OpenPar);
                assert(op_views(ops@) =~= ov.push(OpV::OpenPar));
            },
            Op::Not => {
                let ghost ov = op_views(ops@);
                ops.push(Op::Not);
                assert(op_views(ops@) =~= ov.push(OpV::Not));
            },
            Op::ClosePar => {
                if !reduce_close_exec(&mut asts, &mut ops) {
                    return Err("not expected a close parentehese".to_owned());
                }
            },
            Op::Or => {
                if !reduce_prec_exec(&mut asts, &mut ops) {
                    return Err("expected a value".to_owned());
                }
                let ghost ov = op_views(ops@);
                ops.push(Op::Or);
                assert(op_views(ops@) =~= ov.push(OpV::Or));
            },
            Op::And => {
                if !reduce_prec_exec(&mut asts, &mut ops) {
                    return Err("expected a value".to_owned());
                }
                let ghost ov = op_views(ops@);
                ops.push(Op::And);
                assert(op_views(ops@) =~= ov.push(OpV::And));
            },
        }
    }
    let ghost end_goal = reduce_end(bql_views(asts@), op_views(ops@));
    while ops.len() > 0
        invariant
            end_goal == reduce_end(bql_views(asts@), op_views(ops@)),
            goal == solve_rev(op_views(old(pending)@), Seq::empty(), Seq::empty()),
            pending@.len() == 0,
            goal == match end_goal {
                Ok(a) => if a.len() > 0 {
                    Ok(a.last())
                } else {
                    Err(())
                },
                Err(_) => Err(()),
            },
        decreases ops@.len(),
    {
        let ghost ov = op_views(ops@);
        let o = ops.pop().unwrap();
        assert(op_views(ops@) =~= ov.drop_last());
        if !apply_op_exec(&mut asts, o) {
            return Err("expected OR | AND".to_owned());
        }
    }
    match asts.pop() {
        Option::Some(b) => Ok(b),
        Option::None => Err("could not compute ast".to_owned()),
    }
}

/// The nodes in reverse order.
fn reverse_nodes(nodes: &mut Vec<Op>) -> (r: Vec<Op>)
    ensures
        op_views(r@) == reversed(op_views(old(nodes)@)),
{
    let ghost goal = reversed(op_views(nodes@));
    let mut r: Vec<Op> = Vec::new();
    assert(op_views(r@) =~= Seq::<OpV>::empty());
    while nodes.len() > 0
        invariant
            goal == op_views(r@) + reversed(op_views(nodes@)),
            goal == reversed(op_views(old(nodes)@)),
        decreases nodes@.len(),
    {
        let ghost nv = op_views(nodes@);
        let ghost rv = op_views(r@);
        let o = nodes.pop().unwrap();
        assert(op_views(nodes@) =~= nv.drop_last());
        let ghost ov = o@;
        r.push(o);
        assert(op_views(r@) =~= rv.push(ov));
        assert(rv.push(ov) + reversed(nv.drop_last()) =~= rv + (seq![ov] + reversed(nv.drop_last())));
    }
    assert(op_views(r@) + reversed(op_views(nodes@)) =~= op_views(r@));
    r
}

/// Parses a query text. The result is the query that [`parse_spec`]
/// describes; an error carries a message.
pub fn parse(s: &str) -> (r: Result<BQL, String>)
    ensures
        match r {
            Ok(b) => parse_spec(s@) == Ok::<BqlV, ()>(b@),
            Err(e) => parse_spec(s@) is Err && parse_message(e@),
        },
{
    let tokens = scan(s);
    let ts = drop_spaces_exec(&tokens);
    let mut nodes = read_nodes(&ts)?;
    let mut pending = reverse_nodes(&mut nodes);
    solve(&mut pending)
}

/// The query that a sequence of operands and operators, in reading order,
/// makes (see [`solve_rev`]); [`parse_spec`] is this over the nodes read
/// from the tokens.
pub open spec fn solve_nodes(nodes: Seq<OpV>) -> Result<BqlV, ()> {
    solve_rev(reversed(nodes), Seq::empty(), Seq::empty())
}

/// `not` applies to the operand that follows it before `and` joins: `not a
/// and b` is `b` and `not a`.
pub proof fn lemma_not_before_and(a: BqlV, b: BqlV)
    ensures
        solve_nodes(seq![OpV::Not, OpV::Ast(a), OpV::And, OpV::Ast(b)]) == Ok::<BqlV, ()>(
            BqlV::And(Box::new(b), Box::new(BqlV::Not(Box::new(a)))),
        ),
{
    reveal_with_fuel(reversed, 5);
    reveal_with_fuel(solve_rev, 5);
    reveal_with_fuel(reduce_end, 3);
    reveal_with_fuel(reduce_prec, 3);
}

/// `and` joins before `or`, on either side: `a or b and c` is `(c and b)
/// or a`, and `a and b or c` is `c or (b and a)`.
pub proof fn lemma_and_before_or(a: BqlV, b: BqlV, c: BqlV)
    ensures
        solve_nodes(seq![OpV::Ast(a), OpV::Or, OpV::Ast(b), OpV::And, OpV::Ast(c)]) == Ok::<BqlV, ()>(
            BqlV::Or(Box::new(BqlV::And(Box::new(c), Box::new(b))), Box::new(a)),
        ),
        solve_nodes(seq![OpV::Ast(a), OpV::And, OpV::Ast(b), OpV::Or, OpV::Ast(c)]) == Ok::<BqlV, ()>(
            BqlV::Or(Box::new(c), Box::new(BqlV::And(Box::new(b), Box::new(a)))),
        ),
{
    reveal_with_fuel(reversed, 6);
    reveal_with_fuel(solve_rev, 6);
    reveal_with_fuel(reduce_end, 3);
    reveal_with_fuel(reduce_prec, 3);
}

/// Parentheses group first: `(a or b) and c` is `c and (b or a)`.
pub proof fn lemma_parentheses_group(a: BqlV, b: BqlV, c: BqlV)
    ensures
        solve_nodes(
            seq![OpV::OpenPar, OpV::Ast(a), OpV::Or, OpV::Ast(b), OpV::ClosePar, OpV::And, OpV::Ast(c)],
        ) == Ok::<BqlV, ()>(BqlV::And(Box::new(c), Box::new(BqlV::Or(Box::new(b), Box::new(a))))),
{
    reveal_with_fuel(reversed, 8);
    reveal_with_fuel(solve_rev, 8);
    reveal_with_fuel(reduce_end, 3);
    reveal_with_fuel(reduce_prec, 3);
    reveal_with_fuel(reduce_close, 3);
}

/// Chains: `a and b and c` joins as it is read, `c and (b and a)`; `a or b
/// or c` joins at the end, last first, `(c or b) or a`.
pub proof fn lemma_chains(a: BqlV, b: BqlV, c: BqlV)
    ensures
        solve_nodes(seq![OpV::Ast(a), OpV::And, OpV::Ast(b), OpV::And, OpV::Ast(c)]) == Ok::<BqlV, ()>(
            BqlV::And(Box::new(c), Box::new(BqlV::And(Box::new(b), Box::new(a)))),
        ),
        solve_nodes(seq![OpV::Ast(a), OpV::Or, OpV::Ast(b), OpV::Or, OpV::Ast(c)]) == Ok::<BqlV, ()>(
            BqlV::Or(Box::new(BqlV::Or(Box::new(c), Box::new(b))), Box::new(a)),
        ),
{
    reveal_with_fuel(reversed, 6);
    reveal_with_fuel(solve_rev, 6);
    reveal_with_fuel(reduce_end, 3);
    reveal_with_fuel(reduce_prec, 3);
}

} // verus!
