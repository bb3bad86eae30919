//! The abstract syntax of the query language and the values it compares.

use vstd::prelude::*;
use crate::number::{decimal_text, decimal_order, int_decimal, lemma_decimal_order, lemma_nat_digits_wf, Decimal, Rational};
use crate::order::{compare_texts, int_order, lemma_text_order, text_order, Order};
use crate::text::chars_of;

verus! {

/// A value that a query compares a field with.
#[derive(Debug, Clone, PartialEq)]
pub enum Value {
    Bottom,
    Rational(Rational),
    Integral(i64),
    Text(String),
    Boolean(bool),
    Top,
}

/// The mathematical value of a [`Value`].
pub enum ValueV {
    Bottom,
    Rational(Decimal),
    Integral(int),
    Text(Seq<char>),
    Boolean(bool),
    Top,
}

impl View for Value {
    type V = ValueV;

    open spec fn view(&self) -> ValueV {
        match self {
            Value::Bottom => ValueV::Bottom,
            Value::Rational(r) => ValueV::Rational(r@),
            Value::Integral(n) => ValueV::Integral(*n as int),
            Value::Text(t) => ValueV::Text(t@),
            Value::Boolean(b) => ValueV::Boolean(*b),
            Value::Top => ValueV::Top,
        }
    }
}

impl Value {
    /// Numbers are in canonical form.
    pub open spec fn wf(&self) -> bool {
        match self {
            Value::Rational(r) => r.wf(),
            _ => true,
        }
    }

    /// Compares two values in the order of values (see [`value_order`]).
    pub fn compare(&self, other: &Value) -> (r: Order)
        ensures
            r == value_order(self@, other@),
    {
        let ra = self.rank();
        let rb = other.rank();
        if ra < rb {
            return Order::Less;
        }
        if ra > rb {
            return Order::Greater;
        }
        match (self, other) {
            (Value::Text(x), Value::Text(y)) => compare_texts(&chars_of(x.as_str()), &chars_of(y.as_str())),
            (Value::Boolean(x), Value::Boolean(y)) => {
                if *x == *y {
                    Order::Equal
                } else if !*x {
                    Order::Less
                } else {
                    Order::Greater
                }
            },
            _ => {
                if ra == 1 {
                    let x = self.number();
                    let y = other.number();
                    x.compare(&y)
                } else {
                    Order::Equal
                }
            },
        }
    }

    /// The place of the value's kind (see [`value_rank`]).
    fn rank(&self) -> (r: u8)
        ensures
            r as int == value_rank(self@),
    {
        match self {
            Value::Bottom => 0,
            Value::Rational(_) => 1,
            Value::Integral(_) => 1,
            Value::Text(_) => 2,
            Value::Boolean(_) => 3,
            Value::Top => 4,
        }
    }

    /// The number a numeric value stands for.
    fn number(&self) -> (r: Rational)
        ensures
            r@ == value_number(self@),
    {
        match self {
            Value::Rational(n) => n.duplicate(),
            Value::Integral(n) => Rational::from_i64(*n),
            _ => Rational::zero(),
        }
    }

    /// The representative of the value among those equal to it (see
    /// [`normal`]).
    pub fn normalized(&self) -> (r: Value)
        ensures
            r@ == normal(self@),
            self.wf() ==> r.wf(),
    {
        match self {
            Value::Integral(n) => Value::Rational(Rational::from_i64(*n)),
            _ => self.duplicate(),
        }
    }

    /// The text of the value (see [`value_text`]).
    pub fn to_text(&self) -> (r: Option<String>)
        ensures
            match r {
                Some(t) => value_text(self@) == Some(t@),
                None => value_text(self@) is None,
            },
    {
        proof {
            reveal_strlit("true");
            reveal_strlit("false");
        }
        match self {
            Value::Rational(n) => Some(n.to_text()),
            Value::Integral(n) => Some(Rational::from_i64(*n).to_text()),
            Value::Text(t) => Some(t.clone()),
            Value::Boolean(b) => Some(if *b { "true".to_owned() } else { "false".to_owned() }),
            _ => None,
        }
    }

    /// The truth of the value (see [`value_bool`]).
    pub fn to_bool(&self) -> (r: Option<bool>)
        ensures
            r == value_bool(self@),
    {
        match self {
            Value::Rational(n) => Some(!n.is_zero()),
            Value::Integral(n) => Some(*n != 0),
            Value::Text(t) => {
                let cs = chars_of(t.as_str());
                if crate::text::chars_eq_str(&cs, "true") {
                    Some(true)
                } else if crate::text::chars_eq_str(&cs, "false") {
                    Some(false)
                } else {
                    None
                }
            },
            Value::Boolean(b) => Some(*b),
            _ => None,
        }
    }

    /// A copy with the same value.
    pub fn duplicate(&self) -> (r: Value)
        ensures
            r@ == self@,
            self.wf() ==> r.wf(),
    {
        match self {
            Value::Bottom => Value::Bottom,
            Value::Rational(n) => Value::Rational(n.duplicate()),
            Value::Integral(n) => Value::Integral(*n),
            Value::Text(t) => Value::Text(t.clone()),
            Value::Boolean(b) => Value::Boolean(*b),
            Value::Top => Value::Top,
        }
    }
}

/// The place of a value's kind in the order of values: the bottom, then
/// numbers, texts, booleans and the top.
pub open spec fn value_rank(v: ValueV) -> int {
    match v {
        ValueV::Bottom => 0,
        ValueV::Rational(_) => 1,
        ValueV::Integral(_) => 1,
        ValueV::Text(_) => 2,
        ValueV::Boolean(_) => 3,
        ValueV::Top => 4,
    }
}

/// The number a numeric value stands for.
pub open spec fn value_number(v: ValueV) -> Decimal {
    match v {
        ValueV::Rational(d) => d,
        ValueV::Integral(n) => int_decimal(n),
        _ => int_decimal(0),
    }
}

/// `false` comes before `true`.
pub open spec fn bool_order(a: bool, b: bool) -> Order {
    if a == b {
        Order::Equal
    } else if !a {
        Order::Less
    } else {
        Order::Greater
    }
}

/// The order of values: by kind first; numbers by value (an integral and a
/// rational number of the same value are equal), texts by code point,
/// booleans with `false` first.
pub open spec fn value_order(a: ValueV, b: ValueV) -> Order {
    if value_rank(a) != value_rank(b) {
        int_order(value_rank(a), value_rank(b))
    } else {
        match (a, b) {
            (ValueV::Text(x), ValueV::Text(y)) => text_order(x, y),
            (ValueV::Boolean(x), ValueV::Boolean(y)) => bool_order(x, y),
            _ => if value_rank(a) == 1 {
                decimal_order(value_number(a), value_number(b))
            } else {
                Order::Equal
            },
        }
    }
}

/// The representative of a value among those equal to it: an integral
/// number becomes the rational number of the same value.
pub open spec fn normal(v: ValueV) -> ValueV {
    match v {
        ValueV::Integral(n) => ValueV::Rational(int_decimal(n)),
        _ => v,
    }
}

/// Rational numbers are in canonical form.
pub open spec fn value_wf(v: ValueV) -> bool {
    match v {
        ValueV::Rational(d) => d.wf(),
        _ => true,
    }
}

/// The decimal of an integer is canonical.
pub proof fn lemma_int_decimal_wf(n: int)
    ensures
        int_decimal(n).wf(),
{
    let m: nat = if n < 0 { (-n) as nat } else { n as nat };
    lemma_nat_digits_wf(m);
}

/// The order of values is a total preorder whose equal values are those
/// with the same representative.
pub proof fn lemma_value_order(a: ValueV, b: ValueV, c: ValueV)
    ensures
        value_order(b, a) == value_order(a, b).flip(),
        value_order(a, b) == Order::Equal <==> normal(a) == normal(b),
        value_order(a, b) == Order::Less && value_order(b, c) == Order::Less ==> value_order(a, c)
            == Order::Less,
        value_order(a, b) == Order::Equal && value_order(b, c) == Order::Less ==> value_order(a, c)
            == Order::Less,
        value_order(a, b) == Order::Less && value_order(b, c) == Order::Equal ==> value_order(a, c)
            == Order::Less,
        value_order(normal(a), b) == value_order(a, b),
        value_wf(a) ==> value_wf(normal(a)),
{
    lemma_int_decimal_wf(match a { ValueV::Integral(n) => n, _ => 0 });
    lemma_int_decimal_wf(match b { ValueV::Integral(n) => n, _ => 0 });
    lemma_int_decimal_wf(match c { ValueV::Integral(n) => n, _ => 0 });
    lemma_int_decimal_wf(0);
    lemma_decimal_order(value_number(a), value_number(b), value_number(c));
    lemma_decimal_order(value_number(b), value_number(a), value_number(c));
    lemma_decimal_order(value_number(a), value_number(c), value_number(b));
    lemma_decimal_order(value_number(b), value_number(c), value_number(a));
    match (a, b, c) {
        (ValueV::Text(x), ValueV::Text(y), ValueV::Text(z)) => {
            lemma_text_order(x, y, z);
            lemma_text_order(x, z, y);
            lemma_text_order(y, z, x);
        },
        (ValueV::Text(x), ValueV::Text(y), _) => {
            lemma_text_order(x, y, y);
        },
        _ => {},
    }
    if value_rank(a) == 1 && value_rank(b) == 1 {
        if normal(a) == normal(b) {
            assert(value_number(a) == value_number(b));
        }
    }
}

/// The text of a value: numbers in their shortest decimal form, texts as
/// they are, booleans as `true` or `false`; none for the bottom and the top.
pub open spec fn value_text(v: ValueV) -> Option<Seq<char>> {
    match v {
        ValueV::Rational(d) => Some(decimal_text(d)),
        ValueV::Integral(n) => Some(decimal_text(int_decimal(n))),
        ValueV::Text(t) => Some(t),
        ValueV::Boolean(b) => Some(if b { "true"@ } else { "false"@ }),
        _ => None,
    }
}

/// The truth of a value: a number is true unless it is zero, a text is
/// true or false only when it reads `true` or `false`; none for other
/// texts, the bottom and the top.
pub open spec fn value_bool(v: ValueV) -> Option<bool> {
    match v {
        ValueV::Rational(d) => Some(!d.is_zero()),
        ValueV::Integral(n) => Some(n != 0),
        ValueV::Text(t) => if t == "true"@ {
            Some(true)
        } else if t == "false"@ {
            Some(false)
        } else {
            None
        },
        ValueV::Boolean(b) => Some(b),
        _ => None,
    }
}

/// The values of a sequence of values.
pub open spec fn value_views(vs: Seq<Value>) -> Seq<ValueV> {
    vs.map_values(|v: Value| v@)
}

/// A query: the set operations over sub-queries, and the tests of fields.
#[derive(Debug, PartialEq)]
pub enum BQL {
    And(Box<BQL>, Box<BQL>),
    Or(Box<BQL>, Box<BQL>),
    Diff(Box<BQL>, Box<BQL>),
    Comp(Box<BQL>, Box<BQL>),
    Not(Box<BQL>),
    IsPresent,
    Eq { field: String, value: Value },
    IsDefined { field: String },
    LT { field: String, value: Value },
    LE { field: String, value: Value },
    GT { field: String, value: Value },
    GE { field: String, value: Value },
    All { field: String, values: Vec<Value> },
    Any { field: String, values: Vec<Value> },
}

/// The mathematical value of a [`BQL`] query.
pub enum BqlV {
    And(Box<BqlV>, Box<BqlV>),
    Or(Box<BqlV>, Box<BqlV>),
    Diff(Box<BqlV>, Box<BqlV>),
    Comp(Box<BqlV>, Box<BqlV>),
    Not(Box<BqlV>),
    IsPresent,
    Eq { field: Seq<char>, value: ValueV },
    IsDefined { field: Seq<char> },
    LT { field: Seq<char>, value: ValueV },
    LE { field: Seq<char>, value: ValueV },
    GT { field: Seq<char>, value: ValueV },
    GE { field: Seq<char>, value: ValueV },
    All { field: Seq<char>, values: Seq<ValueV> },
    Any { field: Seq<char>, values: Seq<ValueV> },
}

impl View for BQL {
    type V = BqlV;

    open spec fn view(&self) -> BqlV
        decreases self,
    {
        match self {
            BQL::And(a, b) => BqlV::And(Box::new((**a)@), Box::new((**b)@)),
            BQL::Or(a, b) => BqlV::Or(Box::new((**a)@), Box::new((**b)@)),
            BQL::Diff(a, b) => BqlV::Diff(Box::new((**a)@), Box::new((**b)@)),
            BQL::Comp(a, b) => BqlV::Comp(Box::new((**a)@), Box::new((**b)@)),
            BQL::Not(a) => BqlV::Not(Box::new((**a)@)),
            BQL::IsPresent => BqlV::IsPresent,
            BQL::Eq { field, value } => BqlV::Eq { field: field@, value: value@ },
            BQL::IsDefined { field } => BqlV::IsDefined { field: field@ },
            BQL::LT { field, value } => BqlV::LT { field: field@, value: value@ },
            BQL::LE { field, value } => BqlV::LE { field: field@, value: value@ },
            BQL::GT { field, value } => BqlV::GT { field: field@, value: value@ },
            BQL::GE { field, value } => BqlV::GE { field: field@, value: value@ },
            BQL::All { field, values } => BqlV::All { field: field@, values: value_views(values@) },
            BQL::Any { field, values } => BqlV::Any { field: field@, values: value_views(values@) },
        }
    }
}

} // verus!

verus! {

/// Parses a query text (see [`crate::parser::parse`]).
pub fn from_str(s: &str) -> (r: Result<BQL, String>)
    ensures
        match r {
            Ok(b) => crate::parser::parse_spec(s@) == Ok::<BqlV, ()>(b@),
            Err(_) => crate::parser::parse_spec(s@) is Err,
        },
{
    crate::parser::parse(s)
}

} // verus!
