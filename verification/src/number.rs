//! Exact decimal numbers, as queries and documents write them.

use vstd::prelude::*;
use crate::order::{int_order, lemma_lex_order_equal, lemma_lex_order_flip, lemma_lex_order_trans, lex_order, Order};

verus! {

/// The mathematical value of a [`Rational`]: a sign and the decimal digits
/// before and after the point, in canonical form (no leading zero before the
/// point, no trailing zero after it, and zero is never negative).
pub struct Decimal {
    pub negative: bool,
    pub int_digits: Seq<int>,
    pub frac_digits: Seq<int>,
}

/// A decimal number held exactly, digit by digit.
#[derive(Debug, PartialEq, Eq)]
pub struct Rational {
    negative: bool,
    int_digits: Vec<u8>,
    frac_digits: Vec<u8>,
}

/// Digits as integers.
pub open spec fn digit_ints(d: Seq<u8>) -> Seq<int> {
    d.map_values(|x: u8| x as int)
}

impl View for Rational {
    type V = Decimal;

    closed spec fn view(&self) -> Decimal {
        Decimal {
            negative: self.negative,
            int_digits: digit_ints(self.int_digits@),
            frac_digits: digit_ints(self.frac_digits@),
        }
    }
}

/// The value of an optional number.
pub open spec fn opt_decimal(o: Option<Rational>) -> Option<Decimal> {
    match o {
        Some(x) => Some(x@),
        None => None,
    }
}

/// Every element is a decimal digit.
pub open spec fn all_digits(d: Seq<int>) -> bool {
    forall|i: int| 0 <= i < d.len() ==> 0 <= #[trigger] d[i] < 10
}

impl Decimal {
    /// The canonical form described on [`Decimal`].
    pub open spec fn wf(self) -> bool {
        &&& all_digits(self.int_digits)
        &&& all_digits(self.frac_digits)
        &&& (self.int_digits.len() == 0 || self.int_digits[0] != 0)
        &&& (self.frac_digits.len() == 0 || self.frac_digits.last() != 0)
        &&& (self.negative ==> self.int_digits.len() > 0 || self.frac_digits.len() > 0)
    }

    /// Whether the number is zero.
    pub open spec fn is_zero(self) -> bool {
        self.int_digits.len() == 0 && self.frac_digits.len() == 0
    }

    /// The same magnitude with the other sign (zero stays zero).
    pub open spec fn negated(self) -> Decimal {
        Decimal { negative: !self.negative && !self.is_zero(), ..self }
    }
}

/// Drops the zeros at the front.
pub open spec fn strip_leading_zeros(s: Seq<int>) -> Seq<int>
    decreases s.len(),
{
    if s.len() > 0 && s[0] == 0 {
        strip_leading_zeros(s.drop_first())
    } else {
        s
    }
}

/// Drops the zeros at the end.
pub open spec fn strip_trailing_zeros(s: Seq<int>) -> Seq<int>
    decreases s.len(),
{
    if s.len() > 0 && s.last() == 0 {
        strip_trailing_zeros(s.drop_last())
    } else {
        s
    }
}

/// A decimal digit character.
pub open spec fn is_digit_char(c: char) -> bool {
    '0' <= c <= '9'
}

/// The values of digit characters.
pub open spec fn char_digits(s: Seq<char>) -> Seq<int> {
    s.map_values(|c: char| c as int - '0' as int)
}

/// How many times `c` occurs in `s`.
pub open spec fn count_char(s: Seq<char>, c: char) -> nat
    decreases s.len(),
{
    if s.len() == 0 {
        0
    } else {
        count_char(s.drop_last(), c) + if s.last() == c { 1nat } else { 0nat }
    }
}

/// Where the first `c` stands in `s`, or the length when there is none.
pub open spec fn first_index_of(s: Seq<char>, c: char) -> int
    decreases s.len(),
{
    if s.len() == 0 {
        0
    } else if s[0] == c {
        0
    } else {
        1 + first_index_of(s.drop_first(), c)
    }
}

/// The number written by `s`: digits with at most one point, such as
/// `42`, `42.05` or `5.`. None for any other text.
pub open spec fn unsigned_decimal(s: Seq<char>) -> Option<Decimal> {
    if s.len() == 0 || count_char(s, '.') > 1 || count_char(s, '.') == s.len()
        || exists|i: int| 0 <= i < s.len() && !is_digit_char(#[trigger] s[i]) && s[i] != '.' {
        None
    } else {
        let p = first_index_of(s, '.');
        let int_part = strip_leading_zeros(char_digits(s.take(p)));
        let frac_part = if p < s.len() {
            strip_trailing_zeros(char_digits(s.skip(p + 1)))
        } else {
            Seq::empty()
        };
        Some(Decimal { negative: false, int_digits: int_part, frac_digits: frac_part })
    }
}

/// The number written by `s`, which may start with a minus sign.
pub open spec fn signed_decimal(s: Seq<char>) -> Option<Decimal> {
    if s.len() > 0 && s[0] == '-' {
        match unsigned_decimal(s.drop_first()) {
            Some(d) => Some(d.negated()),
            None => None,
        }
    } else {
        unsigned_decimal(s)
    }
}

/// The decimal digits of a natural number, most significant first.
pub open spec fn nat_digits(n: nat) -> Seq<int>
    decreases n,
{
    if n == 0 {
        Seq::empty()
    } else {
        nat_digits(n / 10).push((n % 10) as int)
    }
}

/// An integer as a decimal.
pub open spec fn int_decimal(n: int) -> Decimal {
    let m: nat = if n < 0 { (-n) as nat } else { n as nat };
    Decimal { negative: n < 0, int_digits: nat_digits(m), frac_digits: Seq::empty() }
}

/// Order of magnitudes: more digits before the point is larger, then the
/// digits before the point, then those after it, left to right.
pub open spec fn magnitude_order(a: Decimal, b: Decimal) -> Order {
    if a.int_digits.len() != b.int_digits.len() {
        int_order(a.int_digits.len() as int, b.int_digits.len() as int)
    } else if lex_order(a.int_digits, b.int_digits) != Order::Equal {
        lex_order(a.int_digits, b.int_digits)
    } else {
        lex_order(a.frac_digits, b.frac_digits)
    }
}

/// The numeric order of decimals.
pub open spec fn decimal_order(a: Decimal, b: Decimal) -> Order {
    if a.negative && !b.negative {
        Order::Less
    } else if !a.negative && b.negative {
        Order::Greater
    } else if a.negative {
        magnitude_order(b, a)
    } else {
        magnitude_order(a, b)
    }
}

pub proof fn lemma_magnitude_order(a: Decimal, b: Decimal, c: Decimal)
    ensures
        magnitude_order(b, a) == magnitude_order(a, b).flip(),
        magnitude_order(a, b) == Order::Equal <==> (a.int_digits == b.int_digits && a.frac_digits
            == b.frac_digits),
        magnitude_order(a, b) == Order::Less && magnitude_order(b, c) == Order::Less
            ==> magnitude_order(a, c) == Order::Less,
{
    lemma_lex_order_flip(a.int_digits, b.int_digits);
    lemma_lex_order_flip(a.frac_digits, b.frac_digits);
    lemma_lex_order_equal(a.int_digits, b.int_digits);
    lemma_lex_order_equal(a.frac_digits, b.frac_digits);
    lemma_lex_order_equal(b.int_digits, c.int_digits);
    lemma_lex_order_equal(a.int_digits, c.int_digits);
    if lex_order(a.int_digits, b.int_digits) == Order::Less && lex_order(b.int_digits, c.int_digits)
        == Order::Less {
        lemma_lex_order_trans(a.int_digits, b.int_digits, c.int_digits);
    }
    if lex_order(a.frac_digits, b.frac_digits) == Order::Less && lex_order(b.frac_digits, c.frac_digits)
        == Order::Less {
        lemma_lex_order_trans(a.frac_digits, b.frac_digits, c.frac_digits);
    }
}

/// The numeric order of decimals is a strict total order whose equality is
/// equality of the decimals.
pub proof fn lemma_decimal_order(a: Decimal, b: Decimal, c: Decimal)
    ensures
        decimal_order(b, a) == decimal_order(a, b).flip(),
        decimal_order(a, b) == Order::Equal <==> a == b,
        decimal_order(a, b) == Order::Less && decimal_order(b, c) == Order::Less
            ==> decimal_order(a, c) == Order::Less,
{
    lemma_magnitude_order(a, b, c);
    lemma_magnitude_order(b, a, c);
    lemma_magnitude_order(c, b, a);
    lemma_magnitude_order(b, c, a);
    lemma_magnitude_order(a, c, b);
}

/// Two decimals compare equal exactly when they are the same.
pub proof fn lemma_decimal_order_equal(a: Decimal, b: Decimal)
    ensures
        decimal_order(a, b) == Order::Equal <==> a == b,
{
    lemma_magnitude_order(a, b, b);
    lemma_magnitude_order(b, a, a);
}

/// Pushing a digit at the end of equally long digit sequences: the earlier
/// digits decide, and where they tie, the pushed ones.
proof fn lemma_lex_push(x: Seq<int>, y: Seq<int>, p: int, q: int)
    requires
        x.len() == y.len(),
    ensures
        lex_order(x.push(p), y.push(q)) == if lex_order(x, y) != Order::Equal {
            lex_order(x, y)
        } else {
            int_order(p, q)
        },
    decreases x.len(),
{
    if x.len() == 0 {
        assert(x.push(p).drop_first() =~= Seq::<int>::empty());
        assert(y.push(q).drop_first() =~= Seq::<int>::empty());
        assert(x.push(p)[0] == p && y.push(q)[0] == q);
        assert(lex_order(x, y) == Order::Equal);
        assert(lex_order(Seq::<int>::empty(), Seq::<int>::empty()) == Order::Equal);
    } else {
        assert(x.push(p).drop_first() =~= x.drop_first().push(p));
        assert(y.push(q).drop_first() =~= y.drop_first().push(q));
        assert(x.push(p)[0] == x[0]);
        assert(y.push(q)[0] == y[0]);
        lemma_lex_push(x.drop_first(), y.drop_first(), p, q);
    }
}

/// A number with fewer decimal digits is the smaller one.
proof fn lemma_nat_digits_shorter(a: nat, b: nat)
    requires
        nat_digits(a).len() < nat_digits(b).len(),
    ensures
        a < b,
    decreases a,
{
    if a != 0 {
        if b == 0 {
            assert(nat_digits(b).len() == 0);
        }
        lemma_nat_digits_shorter((a / 10) as nat, (b / 10) as nat);
        assert(a < b) by (nonlinear_arith)
            requires
                a / 10 < b / 10,
        ;
    }
}

/// Numbers with as many decimal digits compare as their digits do, left to
/// right.
proof fn lemma_nat_digits_same_length(a: nat, b: nat)
    requires
        nat_digits(a).len() == nat_digits(b).len(),
    ensures
        lex_order(nat_digits(a), nat_digits(b)) == int_order(a as int, b as int),
    decreases a,
{
    if a == 0 {
        if b != 0 {
            assert(nat_digits(b).len() > 0);
        }
    } else {
        if b == 0 {
            assert(nat_digits(a).len() > 0);
        }
        let a1 = (a / 10) as nat;
        let b1 = (b / 10) as nat;
        lemma_nat_digits_same_length(a1, b1);
        lemma_lex_push(nat_digits(a1), nat_digits(b1), (a % 10) as int, (b % 10) as int);
        assert(a == a1 * 10 + a % 10 && b == b1 * 10 + b % 10);
        if a1 < b1 {
            assert(a < b) by (nonlinear_arith)
                requires
                    a == a1 * 10 + a % 10,
                    b == b1 * 10 + b % 10,
                    a1 < b1,
                    0 <= a % 10 < 10,
                    0 <= b % 10 < 10,
            ;
        } else if a1 > b1 {
            assert(a > b) by (nonlinear_arith)
                requires
                    a == a1 * 10 + a % 10,
                    b == b1 * 10 + b % 10,
                    a1 > b1,
                    0 <= a % 10 < 10,
                    0 <= b % 10 < 10,
            ;
        }
    }
}

/// The magnitudes of whole numbers compare as the numbers do.
proof fn lemma_nat_magnitude_order(a: nat, b: nat)
    ensures
        magnitude_order(int_decimal(a as int), int_decimal(b as int)) == int_order(a as int, b as int),
{
    let da = int_decimal(a as int);
    let db = int_decimal(b as int);
    assert(da.int_digits == nat_digits(a));
    assert(db.int_digits == nat_digits(b));
    if nat_digits(a).len() < nat_digits(b).len() {
        lemma_nat_digits_shorter(a, b);
    } else if nat_digits(a).len() > nat_digits(b).len() {
        lemma_nat_digits_shorter(b, a);
    } else {
        lemma_nat_digits_same_length(a, b);
    }
}

/// Numbers compare by their numeric value: for whole numbers, the order of
/// their decimals is the order of the numbers (so `10` is greater than
/// `9`, and `-10` less than `-9`).
pub proof fn lemma_decimal_order_numeric(n: int, m: int)
    ensures
        decimal_order(int_decimal(n), int_decimal(m)) == int_order(n, m),
{
    if n < 0 && m < 0 {
        lemma_nat_magnitude_order((-m) as nat, (-n) as nat);
    } else if n >= 0 && m >= 0 {
        lemma_nat_magnitude_order(n as nat, m as nat);
    }
}

/// Digits followed by zeros up to `k` places.
pub open spec fn padded(ds: Seq<int>, k: nat) -> Seq<int> {
    ds + Seq::new((k - ds.len()) as nat, |i: int| 0int)
}

/// The value of a decimal times ten to the `k`, for `k` at least the number
/// of its digits after the point.
pub open spec fn scaled_value(d: Decimal, k: nat) -> int {
    let v = digits_value(d.int_digits + padded(d.frac_digits, k));
    if d.negative {
        -v
    } else {
        v
    }
}

/// Equally long digit sequences compare left to right as their values do.
proof fn lemma_digits_lex_value(x: Seq<int>, y: Seq<int>)
    requires
        x.len() == y.len(),
        all_digits(x),
        all_digits(y),
    ensures
        lex_order(x, y) == int_order(digits_value(x), digits_value(y)),
    decreases x.len(),
{
    if x.len() > 0 {
        let x1 = x.drop_last();
        let y1 = y.drop_last();
        assert(all_digits(x1)) by {
            assert forall|i: int| 0 <= i < x1.len() implies 0 <= #[trigger] x1[i] < 10 by {
                assert(x1[i] == x[i]);
            }
        }
        assert(all_digits(y1)) by {
            assert forall|i: int| 0 <= i < y1.len() implies 0 <= #[trigger] y1[i] < 10 by {
                assert(y1[i] == y[i]);
            }
        }
        lemma_digits_lex_value(x1, y1);
        assert(x =~= x1.push(x.last()));
        assert(y =~= y1.push(y.last()));
        lemma_lex_push(x1, y1, x.last(), y.last());
        let a1 = digits_value(x1);
        let b1 = digits_value(y1);
        let p = x.last();
        let q = y.last();
        assert(0 <= p < 10 && 0 <= q < 10) by {
            assert(x[x.len() - 1] == p && y[y.len() - 1] == q);
        }
        if a1 < b1 {
            assert(a1 * 10 + p < b1 * 10 + q) by (nonlinear_arith)
                requires
                    a1 < b1,
                    0 <= p < 10,
                    0 <= q < 10,
            ;
        } else if a1 > b1 {
            assert(a1 * 10 + p > b1 * 10 + q) by (nonlinear_arith)
                requires
                    a1 > b1,
                    0 <= p < 10,
                    0 <= q < 10,
            ;
        }
    }
}

/// Digits with a nonzero digit are worth more than zero.
proof fn lemma_digits_positive(x: Seq<int>, i: int)
    requires
        all_digits(x),
        0 <= i < x.len(),
        x[i] != 0,
    ensures
        digits_value(x) > 0,
    decreases x.len(),
{
    let x1 = x.drop_last();
    assert(all_digits(x1)) by {
        assert forall|j: int| 0 <= j < x1.len() implies 0 <= #[trigger] x1[j] < 10 by {
            assert(x1[j] == x[j]);
        }
    }
    assert(0 <= x.last() < 10) by {
        assert(x[x.len() - 1] == x.last());
    }
    lemma_digits_value_nonneg(x1);
    if i < x.len() - 1 {
        assert(x1[i] == x[i]);
        lemma_digits_positive(x1, i);
    }
}

/// Fewer digits are worth less than more digits that start with a nonzero
/// one.
proof fn lemma_digits_longer(x: Seq<int>, y: Seq<int>)
    requires
        x.len() < y.len(),
        all_digits(x),
        all_digits(y),
        y[0] != 0,
    ensures
        digits_value(x) < digits_value(y),
    decreases x.len(),
{
    if x.len() == 0 {
        lemma_digits_positive(y, 0);
    } else {
        let x1 = x.drop_last();
        let y1 = y.drop_last();
        assert(all_digits(x1)) by {
            assert forall|i: int| 0 <= i < x1.len() implies 0 <= #[trigger] x1[i] < 10 by {
                assert(x1[i] == x[i]);
            }
        }
        assert(all_digits(y1)) by {
            assert forall|i: int| 0 <= i < y1.len() implies 0 <= #[trigger] y1[i] < 10 by {
                assert(y1[i] == y[i]);
            }
        }
        assert(y1[0] == y[0]);
        lemma_digits_longer(x1, y1);
        let a1 = digits_value(x1);
        let b1 = digits_value(y1);
        let p = x.last();
        let q = y.last();
        assert(0 <= p < 10 && 0 <= q < 10) by {
            assert(x[x.len() - 1] == p && y[y.len() - 1] == q);
        }
        assert(a1 * 10 + p < b1 * 10 + q) by (nonlinear_arith)
            requires
                a1 < b1,
                0 <= p < 10,
                0 <= q < 10,
        ;
    }
}

/// Comparing concatenations with equally long first parts: the first parts
/// decide, and where they tie, the second parts.
proof fn lemma_lex_concat(x1: Seq<int>, x2: Seq<int>, y1: Seq<int>, y2: Seq<int>)
    requires
        x1.len() == y1.len(),
    ensures
        lex_order(x1 + x2, y1 + y2) == if lex_order(x1, y1) != Order::Equal {
            lex_order(x1, y1)
        } else {
            lex_order(x2, y2)
        },
    decreases x1.len(),
{
    if x1.len() == 0 {
        assert(x1 + x2 =~= x2);
        assert(y1 + y2 =~= y2);
    } else {
        assert((x1 + x2)[0] == x1[0]);
        assert((y1 + y2)[0] == y1[0]);
        assert((x1 + x2).drop_first() =~= x1.drop_first() + x2);
        assert((y1 + y2).drop_first() =~= y1.drop_first() + y2);
        lemma_lex_concat(x1.drop_first(), x2, y1.drop_first(), y2);
    }
}

/// The digits after the point compare alike with zeros added behind them.
proof fn lemma_lex_padded(x: Seq<int>, y: Seq<int>, k: nat)
    requires
        all_digits(x),
        all_digits(y),
        x.len() == 0 || x.last() != 0,
        y.len() == 0 || y.last() != 0,
        x.len() <= k,
        y.len() <= k,
    ensures
        lex_order(padded(x, k), padded(y, k)) == lex_order(x, y),
    decreases k,
{
    if x.len() == 0 && y.len() == 0 {
        assert(padded(x, k) =~= padded(y, k));
        lemma_lex_order_equal(padded(x, k), padded(y, k));
    } else {
        let k1 = (k - 1) as nat;
        let x1 = if x.len() > 0 { x.drop_first() } else { x };
        let y1 = if y.len() > 0 { y.drop_first() } else { y };
        assert(padded(x, k).drop_first() =~= padded(x1, k1));
        assert(padded(y, k).drop_first() =~= padded(y1, k1));
        assert(all_digits(x1)) by {
            assert forall|i: int| 0 <= i < x1.len() implies 0 <= #[trigger] x1[i] < 10 by {
                if x.len() > 0 {
                    assert(x1[i] == x[i + 1]);
                }
            }
        }
        assert(all_digits(y1)) by {
            assert forall|i: int| 0 <= i < y1.len() implies 0 <= #[trigger] y1[i] < 10 by {
                if y.len() > 0 {
                    assert(y1[i] == y[i + 1]);
                }
            }
        }
        if x1.len() > 0 {
            assert(x1.last() == x.last());
        }
        if y1.len() > 0 {
            assert(y1.last() == y.last());
        }
        lemma_lex_padded(x1, y1, k1);
        let hx = padded(x, k)[0];
        let hy = padded(y, k)[0];
        if x.len() > 0 {
            assert(hx == x[0]);
            assert(0 <= x[0]);
        } else {
            assert(hx == 0);
        }
        if y.len() > 0 {
            assert(hy == y[0]);
            assert(0 <= y[0]);
        } else {
            assert(hy == 0);
        }
        if x.len() == 0 && y[0] == 0 {
            assert(y.len() > 1) by {
                if y.len() == 1 {
                    assert(y.last() == y[0]);
                }
            }
        }
        if y.len() == 0 && x[0] == 0 {
            assert(x.len() > 1) by {
                if x.len() == 1 {
                    assert(x.last() == x[0]);
                }
            }
        }
    }
}

/// The magnitudes of canonical decimals compare as their values do, scaled
/// to `k` digits after the point.
proof fn lemma_magnitude_value(a: Decimal, b: Decimal, k: nat)
    requires
        a.wf(),
        b.wf(),
        a.frac_digits.len() <= k,
        b.frac_digits.len() <= k,
    ensures
        magnitude_order(a, b) == int_order(
            digits_value(a.int_digits + padded(a.frac_digits, k)),
            digits_value(b.int_digits + padded(b.frac_digits, k)),
        ),
{
    let pa = padded(a.frac_digits, k);
    let pb = padded(b.frac_digits, k);
    let xa = a.int_digits + pa;
    let xb = b.int_digits + pb;
    assert(all_digits(pa)) by {
        assert forall|i: int| 0 <= i < pa.len() implies 0 <= #[trigger] pa[i] < 10 by {
            if i < a.frac_digits.len() {
                assert(pa[i] == a.frac_digits[i]);
            }
        }
    }
    assert(all_digits(pb)) by {
        assert forall|i: int| 0 <= i < pb.len() implies 0 <= #[trigger] pb[i] < 10 by {
            if i < b.frac_digits.len() {
                assert(pb[i] == b.frac_digits[i]);
            }
        }
    }
    assert(all_digits(xa)) by {
        assert forall|i: int| 0 <= i < xa.len() implies 0 <= #[trigger] xa[i] < 10 by {
            if i < a.int_digits.len() {
                assert(xa[i] == a.int_digits[i]);
            } else {
                assert(xa[i] == pa[i - a.int_digits.len()]);
            }
        }
    }
    assert(all_digits(xb)) by {
        assert forall|i: int| 0 <= i < xb.len() implies 0 <= #[trigger] xb[i] < 10 by {
            if i < b.int_digits.len() {
                assert(xb[i] == b.int_digits[i]);
            } else {
                assert(xb[i] == pb[i - b.int_digits.len()]);
            }
        }
    }
    if a.int_digits.len() < b.int_digits.len() {
        assert(xb[0] == b.int_digits[0]);
        lemma_digits_longer(xa, xb);
    } else if a.int_digits.len() > b.int_digits.len() {
        assert(xa[0] == a.int_digits[0]);
        lemma_digits_longer(xb, xa);
    } else {
        lemma_lex_concat(a.int_digits, pa, b.int_digits, pb);
        lemma_lex_padded(a.frac_digits, b.frac_digits, k);
        lemma_digits_lex_value(xa, xb);
    }
}

/// Numbers compare by their value: two canonical decimals are ordered as
/// their values scaled to any common number of digits after the point (so
/// `10` is greater than `9.5`, `0.5` greater than `0.25`, and `-2` less
/// than `-1.5`).
pub proof fn lemma_decimal_order_value(a: Decimal, b: Decimal, k: nat)
    requires
        a.wf(),
        b.wf(),
        a.frac_digits.len() <= k,
        b.frac_digits.len() <= k,
    ensures
        decimal_order(a, b) == int_order(scaled_value(a, k), scaled_value(b, k)),
{
    let va = digits_value(a.int_digits + padded(a.frac_digits, k));
    let vb = digits_value(b.int_digits + padded(b.frac_digits, k));
    lemma_magnitude_value(a, b, k);
    lemma_magnitude_value(b, a, k);
    lemma_decimal_nonneg(a, k);
    lemma_decimal_nonneg(b, k);
}

/// The scaled digits of a canonical decimal are worth at least zero, and
/// more than zero where the decimal is negative.
proof fn lemma_decimal_nonneg(d: Decimal, k: nat)
    requires
        d.wf(),
        d.frac_digits.len() <= k,
    ensures
        digits_value(d.int_digits + padded(d.frac_digits, k)) >= 0,
        d.negative ==> digits_value(d.int_digits + padded(d.frac_digits, k)) > 0,
{
    let p = padded(d.frac_digits, k);
    let x = d.int_digits + p;
    assert(all_digits(x)) by {
        assert forall|i: int| 0 <= i < x.len() implies 0 <= #[trigger] x[i] < 10 by {
            if i < d.int_digits.len() {
                assert(x[i] == d.int_digits[i]);
            } else if i - d.int_digits.len() < d.frac_digits.len() {
                assert(x[i] == d.frac_digits[i - d.int_digits.len()]);
            } else {
                assert(x[i] == 0);
            }
        }
    }
    lemma_digits_value_nonneg(x);
    if d.negative {
        if d.int_digits.len() > 0 {
            assert(x[0] == d.int_digits[0]);
            lemma_digits_positive(x, 0);
        } else {
            let j = d.frac_digits.len() - 1;
            assert(x[j] == d.frac_digits.last());
            lemma_digits_positive(x, j);
        }
    }
}

/// The value of a whole, non-negative number of at most one digit; none for
/// other numbers.
pub open spec fn digit_value(d: Decimal) -> Option<int> {
    if d.negative || d.frac_digits.len() > 0 {
        None
    } else if d.int_digits.len() == 0 {
        Some(0)
    } else if d.int_digits.len() == 1 {
        Some(d.int_digits[0])
    } else {
        None
    }
}

/// The character of a decimal digit.
pub open spec fn digit_char(d: int) -> char {
    (d + 48) as char
}

/// The characters of decimal digits.
pub open spec fn digits_text(ds: Seq<int>) -> Seq<char> {
    ds.map_values(|d: int| digit_char(d))
}

/// The shortest decimal text of a number: a minus sign for a negative
/// number, the digits before the point (`0` for none), and a point and the
/// digits after it when there are any.
pub open spec fn decimal_text(d: Decimal) -> Seq<char> {
    (if d.negative { "-"@ } else { Seq::empty() }) + (if d.int_digits.len() == 0 {
        "0"@
    } else {
        digits_text(d.int_digits)
    }) + (if d.frac_digits.len() == 0 {
        Seq::empty()
    } else {
        "."@ + digits_text(d.frac_digits)
    })
}

/// Appends the characters of digits.
fn push_digits(out: &mut Vec<char>, ds: &Vec<u8>)
    requires
        all_digits(digit_ints(ds@)),
    ensures
        final(out)@ == old(out)@ + digits_text(digit_ints(ds@)),
{
    let n = ds.len();
    for i in 0..n
        invariant
            n == ds@.len(),
            all_digits(digit_ints(ds@)),
            out@ == old(out)@ + digits_text(digit_ints(ds@)).take(i as int),
    {
        let d = ds[i];
        assert(digit_ints(ds@)[i as int] == d as int);
        assert(d < 10);
        let c = (d + 48u8) as char;
        out.push(c);
        assert(digits_text(digit_ints(ds@)).take(i + 1) =~= digits_text(digit_ints(ds@)).take(i as int).push(digit_char(d as int)));
    }
    assert(digits_text(digit_ints(ds@)).take(n as int) =~= digits_text(digit_ints(ds@)));
}

/// Compares digit vectors left to right.
fn compare_digits(a: &Vec<u8>, b: &Vec<u8>) -> (r: Order)
    ensures
        r == lex_order(digit_ints(a@), digit_ints(b@)),
{
    let n = if a.len() < b.len() { a.len() } else { b.len() };
    let mut i: usize = 0;
    assert(digit_ints(a@).skip(0) =~= digit_ints(a@));
    assert(digit_ints(b@).skip(0) =~= digit_ints(b@));
    while i < n
        invariant
            n <= a@.len(),
            n <= b@.len(),
            n == a@.len() || n == b@.len(),
            i <= n,
            lex_order(digit_ints(a@), digit_ints(b@)) == lex_order(
                digit_ints(a@).skip(i as int),
                digit_ints(b@).skip(i as int),
            ),
        decreases n - i,
    {
        let ghost ca = digit_ints(a@).skip(i as int);
        let ghost cb = digit_ints(b@).skip(i as int);
        if a[i] < b[i] {
            return Order::Less;
        }
        if a[i] > b[i] {
            return Order::Greater;
        }
        assert(ca.drop_first() =~= digit_ints(a@).skip(i + 1));
        assert(cb.drop_first() =~= digit_ints(b@).skip(i + 1));
        i = i + 1;
    }
    if a.len() == b.len() {
        Order::Equal
    } else if a.len() < b.len() {
        Order::Less
    } else {
        Order::Greater
    }
}

/// Appends the decimal digits of `n`.
fn push_nat_digits(n: u64, v: &mut Vec<u8>)
    ensures
        digit_ints(final(v)@) == digit_ints(old(v)@) + nat_digits(n as nat),
    decreases n,
{
    if n > 0 {
        push_nat_digits(n / 10, v);
        let ghost before = v@;
        v.push((n % 10) as u8);
        assert(digit_ints(v@) =~= digit_ints(before).push((n % 10) as int));
        assert(nat_digits(n as nat) == nat_digits((n / 10) as nat).push((n % 10) as int));
    } else {
        assert(digit_ints(v@) =~= digit_ints(v@) + nat_digits(0));
    }
}

pub proof fn lemma_nat_digits_wf(n: nat)
    ensures
        all_digits(nat_digits(n)),
        nat_digits(n).len() == 0 || nat_digits(n)[0] != 0,
        nat_digits(n).len() == 0 <==> n == 0,
    decreases n,
{
    if n > 0 {
        lemma_nat_digits_wf(n / 10);
        if n / 10 == 0 {
            assert(nat_digits(n / 10).len() == 0);
        }
    }
}


pub proof fn lemma_strip_leading(s: Seq<int>, k: int)
    requires
        0 <= k <= s.len(),
        forall|j: int| 0 <= j < k ==> s[j] == 0,
        k == s.len() || s[k] != 0,
    ensures
        strip_leading_zeros(s) == s.skip(k),
    decreases k,
{
    if k == 0 {
        assert(s.skip(0) =~= s);
    } else {
        lemma_strip_leading(s.drop_first(), k - 1);
        assert(s.drop_first().skip(k - 1) =~= s.skip(k));
    }
}

pub proof fn lemma_strip_trailing(s: Seq<int>, k: int)
    requires
        0 <= k <= s.len(),
        forall|j: int| k <= j < s.len() ==> s[j] == 0,
        k == 0 || s[k - 1] != 0,
    ensures
        strip_trailing_zeros(s) == s.take(k),
    decreases s.len() - k,
{
    if k == s.len() {
        assert(s.take(k) =~= s);
    } else {
        lemma_strip_trailing(s.drop_last(), k);
        assert(s.drop_last().take(k) =~= s.take(k));
    }
}

pub proof fn lemma_count_char_prefix(s: Seq<char>, c: char, i: int)
    requires
        0 <= i < s.len(),
    ensures
        count_char(s.take(i + 1), c) == count_char(s.take(i), c) + if s[i] == c { 1nat } else { 0nat },
{
    assert(s.take(i + 1).drop_last() =~= s.take(i));
}

pub proof fn lemma_count_one(s: Seq<char>, c: char, a: int)
    requires
        0 <= a < s.len(),
        s[a] == c,
    ensures
        count_char(s, c) >= 1,
    decreases s.len(),
{
    if a < s.len() - 1 {
        lemma_count_one(s.drop_last(), c, a);
    }
}

pub proof fn lemma_count_two(s: Seq<char>, c: char, a: int, b: int)
    requires
        0 <= a < b < s.len(),
        s[a] == c,
        s[b] == c,
    ensures
        count_char(s, c) >= 2,
    decreases s.len(),
{
    if b == s.len() - 1 {
        lemma_count_one(s.drop_last(), c, a);
    } else {
        lemma_count_two(s.drop_last(), c, a, b);
    }
}

pub proof fn lemma_first_index(s: Seq<char>, c: char, p: int)
    requires
        0 <= p <= s.len(),
        forall|j: int| 0 <= j < p ==> s[j] != c,
        p == s.len() || s[p] == c,
    ensures
        first_index_of(s, c) == p,
    decreases p,
{
    if p > 0 {
        lemma_first_index(s.drop_first(), c, p - 1);
    }
}

/// The digits of the characters `s[from..to]`, which are all digits.
fn digits_between(s: &Vec<char>, from: usize, to: usize) -> (r: Vec<u8>)
    requires
        from <= to <= s@.len(),
        forall|j: int| from <= j < to ==> is_digit_char(#[trigger] s@[j]),
    ensures
        digit_ints(r@) == char_digits(s@.subrange(from as int, to as int)),
        all_digits(digit_ints(r@)),
{
    let mut r: Vec<u8> = Vec::new();
    let mut i = from;
    while i < to
        invariant
            from <= i <= to <= s@.len(),
            forall|j: int| from <= j < to ==> is_digit_char(#[trigger] s@[j]),
            digit_ints(r@) == char_digits(s@.subrange(from as int, i as int)),
            all_digits(digit_ints(r@)),
        decreases to - i,
    {
        let c = s[i];
        assert(is_digit_char(s@[i as int]));
        let d: u8 = (c as u32 - '0' as u32) as u8;
        let ghost before = r@;
        r.push(d);
        assert(s@.subrange(from as int, i + 1) =~= s@.subrange(from as int, i as int).push(c));
        assert(digit_ints(r@) =~= digit_ints(before).push(d as int));
        assert(char_digits(s@.subrange(from as int, i + 1)) =~= char_digits(
            s@.subrange(from as int, i as int),
        ).push(c as int - '0' as int));
        i = i + 1;
    }
    r
}

/// Drops the zeros at the front.
fn strip_leading_exec(d: &Vec<u8>) -> (r: Vec<u8>)
    requires
        all_digits(digit_ints(d@)),
    ensures
        digit_ints(r@) == strip_leading_zeros(digit_ints(d@)),
        all_digits(digit_ints(r@)),
        r@.len() == 0 || r@[0] != 0,
{
    let mut k: usize = 0;
    while k < d.len() && d[k] == 0
        invariant
            k <= d@.len(),
            forall|j: int| 0 <= j < k ==> d@[j] == 0,
        decreases d@.len() - k,
    {
        k = k + 1;
    }
    proof {
        lemma_strip_leading(digit_ints(d@), k as int);
    }
    let mut r: Vec<u8> = Vec::new();
    let mut i = k;
    while i < d.len()
        invariant
            k <= i <= d@.len(),
            r@ == d@.subrange(k as int, i as int),
        decreases d@.len() - i,
    {
        r.push(d[i]);
        assert(d@.subrange(k as int, i + 1) =~= d@.subrange(k as int, i as int).push(d@[i as int]));
        i = i + 1;
    }
    assert(digit_ints(r@) =~= digit_ints(d@).skip(k as int));
    r
}

/// Drops the zeros at the end.
fn strip_trailing_exec(d: &Vec<u8>) -> (r: Vec<u8>)
    requires
        all_digits(digit_ints(d@)),
    ensures
        digit_ints(r@) == strip_trailing_zeros(digit_ints(d@)),
        all_digits(digit_ints(r@)),
        r@.len() == 0 || r@.last() != 0,
{
    let mut k: usize = d.len();
    while k > 0 && d[k - 1] == 0
        invariant
            k <= d@.len(),
            forall|j: int| k <= j < d@.len() ==> d@[j] == 0,
        decreases k,
    {
        k = k - 1;
    }
    proof {
        lemma_strip_trailing(digit_ints(d@), k as int);
    }
    let mut r: Vec<u8> = Vec::new();
    let mut i: usize = 0;
    while i < k
        invariant
            i <= k <= d@.len(),
            r@ == d@.subrange(0, i as int),
        decreases k - i,
    {
        r.push(d[i]);
        assert(d@.subrange(0, i + 1) =~= d@.subrange(0, i as int).push(d@[i as int]));
        i = i + 1;
    }
    assert(digit_ints(r@) =~= digit_ints(d@).take(k as int));
    r
}

impl Rational {
    /// The canonical form holds.
    pub open spec fn wf(&self) -> bool {
        self@.wf()
    }

    /// Every number is kept in canonical form.
    #[verifier::type_invariant]
    closed spec fn canonical(self) -> bool {
        self@.wf()
    }

    /// The number zero.
    pub fn zero() -> (r: Rational)
        ensures
            r.wf(),
            r@ == int_decimal(0),
    {
        let r = Rational { negative: false, int_digits: Vec::new(), frac_digits: Vec::new() };
        assert(r@.int_digits =~= nat_digits(0));
        assert(r@.frac_digits =~= Seq::<int>::empty());
        r
    }

    /// An integer as a decimal.
    pub fn from_i64(n: i64) -> (r: Rational)
        ensures
            r.wf(),
            r@ == int_decimal(n as int),
    {
        let m: u64 = if n < 0 {
            ((-(n + 1)) as u64) + 1
        } else {
            n as u64
        };
        let mut int_digits: Vec<u8> = Vec::new();
        push_nat_digits(m, &mut int_digits);
        proof {
            lemma_nat_digits_wf(m as nat);
        }
        let r = Rational { negative: n < 0, int_digits, frac_digits: Vec::new() };
        assert(digit_ints(r.int_digits@) =~= nat_digits(m as nat));
        assert(r@.frac_digits =~= Seq::<int>::empty());
        r
    }

    /// The same magnitude with the other sign; zero stays zero.
    pub fn negate(&self) -> (r: Rational)
        requires
            self.wf(),
        ensures
            r.wf(),
            r@ == self@.negated(),
    {
        let zero = self.int_digits.len() == 0 && self.frac_digits.len() == 0;
        Rational {
            negative: !self.negative && !zero,
            int_digits: self.int_digits.clone(),
            frac_digits: self.frac_digits.clone(),
        }
    }

    /// The number written by `s`: digits with at most one point and at least
    /// one digit, such as `42`, `42.05` or `5.`; none for any other text.
    pub fn parse_unsigned(s: &Vec<char>) -> (r: Option<Rational>)
        ensures
            r matches Some(x) ==> x.wf(),
            opt_decimal(r) == unsigned_decimal(s@),
    {
        let n = s.len();
        let mut dots: usize = 0;
        let mut p: usize = n;
        for i in 0..n
            invariant
                n == s@.len(),
                dots as nat == count_char(s@.take(i as int), '.'),
                dots <= i,
                forall|j: int| 0 <= j < i ==> is_digit_char(#[trigger] s@[j]) || s@[j] == '.',
                p == n || (p < i && s@[p as int] == '.'),
                forall|j: int| 0 <= j < i && j < p ==> s@[j] != '.',
                dots == 0 ==> p == n,
        {
            proof {
                lemma_count_char_prefix(s@, '.', i as int);
            }
            let c = s[i];
            if c == '.' {
                if p == n {
                    p = i;
                }
                dots = dots + 1;
            } else if !('0' <= c && c <= '9') {
                assert(!is_digit_char(s@[i as int]) && s@[i as int] != '.');
                return None;
            }
        }
        assert(s@.take(n as int) =~= s@);
        if n == 0 || dots > 1 || dots == n {
            return None;
        }
        proof {
            lemma_first_index(s@, '.', p as int);
        }
        let int_raw = digits_between(s, 0, p);
        let int_digits = strip_leading_exec(&int_raw);
        let frac_digits = if p < n {
            proof {
                assert forall|j: int| p + 1 <= j < n implies is_digit_char(#[trigger] s@[j]) by {
                    if s@[j] == '.' {
                        lemma_count_two(s@, '.', p as int, j);
                    }
                }
            }
            let frac_raw = digits_between(s, p + 1, n);
            assert(s@.subrange(p + 1, n as int) =~= s@.skip(p + 1));
            strip_trailing_exec(&frac_raw)
        } else {
            Vec::new()
        };
        assert(s@.subrange(0, p as int) =~= s@.take(p as int));
        let r = Rational { negative: false, int_digits, frac_digits };
        if p == n {
            assert(r@.frac_digits =~= Seq::<int>::empty());
        }
        Some(r)
    }

    /// The number written by `s`, which may start with a minus sign; none for
    /// any other text.
    pub fn parse(s: &str) -> (r: Option<Rational>)
        ensures
            r matches Some(x) ==> x.wf(),
            opt_decimal(r) == signed_decimal(s@),
    {
        let cs = crate::text::chars_of(s);
        if cs.len() > 0 && cs[0] == '-' {
            let mut rest: Vec<char> = Vec::new();
            let mut i: usize = 1;
            while i < cs.len()
                invariant
                    1 <= i <= cs@.len(),
                    rest@ == cs@.subrange(1, i as int),
                decreases cs@.len() - i,
            {
                rest.push(cs[i]);
                assert(cs@.subrange(1, i + 1) =~= cs@.subrange(1, i as int).push(cs@[i as int]));
                i = i + 1;
            }
            assert(rest@ =~= s@.drop_first());
            match Rational::parse_unsigned(&rest) {
                Some(x) => Some(x.negate()),
                None => None,
            }
        } else {
            Rational::parse_unsigned(&cs)
        }
    }

    /// The value of the number where it is a whole number of one digit
    /// (see [`digit_value`]).
    pub fn digit_value(&self) -> (r: Option<u8>)
        ensures
            match r {
                Some(k) => digit_value(self@) == Some(k as int),
                None => digit_value(self@) is None,
            },
    {
        proof {
            use_type_invariant(self);
        }
        if self.negative || self.frac_digits.len() > 0 {
            None
        } else if self.int_digits.len() == 0 {
            Some(0)
        } else if self.int_digits.len() == 1 {
            Some(self.int_digits[0])
        } else {
            None
        }
    }

    /// Whether the number is zero.
    pub fn is_zero(&self) -> (r: bool)
        ensures
            r == self@.is_zero(),
    {
        self.int_digits.len() == 0 && self.frac_digits.len() == 0
    }

    /// The shortest decimal text of the number (see [`decimal_text`]).
    pub fn to_text(&self) -> (r: String)
        ensures
            r@ == decimal_text(self@),
    {
        proof {
            use_type_invariant(self);
        }
        let mut out: Vec<char> = Vec::new();
        if self.negative {
            crate::text::push_str(&mut out, "-");
        }
        if self.int_digits.len() == 0 {
            crate::text::push_str(&mut out, "0");
        } else {
            push_digits(&mut out, &self.int_digits);
        }
        if self.frac_digits.len() > 0 {
            crate::text::push_str(&mut out, ".");
            push_digits(&mut out, &self.frac_digits);
        }
        assert(out@ =~= decimal_text(self@));
        crate::text::string_from_chars(&out)
    }

    /// A copy with the same value.
    pub fn duplicate(&self) -> (r: Rational)
        ensures
            r@ == self@,
    {
        proof {
            use_type_invariant(self);
        }
        Rational {
            negative: self.negative,
            int_digits: self.int_digits.clone(),
            frac_digits: self.frac_digits.clone(),
        }
    }

    /// Compares two numbers by value.
    pub fn compare(&self, other: &Rational) -> (r: Order)
        ensures
            r == decimal_order(self@, other@),
    {
        if self.negative && !other.negative {
            return Order::Less;
        }
        if !self.negative && other.negative {
            return Order::Greater;
        }
        let (a, b) = if self.negative { (other, self) } else { (self, other) };
        if a.int_digits.len() < b.int_digits.len() {
            Order::Less
        } else if a.int_digits.len() > b.int_digits.len() {
            Order::Greater
        } else {
            let o = compare_digits(&a.int_digits, &b.int_digits);
            match o {
                Order::Equal => compare_digits(&a.frac_digits, &b.frac_digits),
                _ => o,
            }
        }
    }
}

impl Clone for Rational {
    /// A copy with the same value.
    fn clone(&self) -> (r: Self)
        ensures
            r@ == self@,
    {
        self.duplicate()
    }
}

/// The value of decimal digits, most significant first.
pub open spec fn digits_value(ds: Seq<int>) -> int
    decreases ds.len(),
{
    if ds.len() == 0 {
        0
    } else {
        digits_value(ds.drop_last()) * 10 + ds.last()
    }
}

/// The value of a whole number; none where it has a fraction.
pub open spec fn whole_value(d: Decimal) -> Option<int> {
    if d.frac_digits.len() > 0 {
        None
    } else if d.negative {
        Some(-digits_value(d.int_digits))
    } else {
        Some(digits_value(d.int_digits))
    }
}

/// A prefix of digits is worth no more than the digits.
pub proof fn lemma_digits_value_prefix(ds: Seq<int>, k: int)
    requires
        all_digits(ds),
        0 <= k <= ds.len(),
    ensures
        0 <= digits_value(ds.take(k)) <= digits_value(ds),
    decreases ds.len() - k,
{
    if k < ds.len() {
        lemma_digits_value_prefix(ds, k + 1);
        assert(ds.take(k + 1).drop_last() =~= ds.take(k));
    } else {
        assert(ds.take(k) =~= ds);
        lemma_digits_value_nonneg(ds);
    }
}

/// Digits are worth at least zero.
pub proof fn lemma_digits_value_nonneg(ds: Seq<int>)
    requires
        all_digits(ds),
    ensures
        digits_value(ds) >= 0,
    decreases ds.len(),
{
    if ds.len() > 0 {
        lemma_digits_value_nonneg(ds.drop_last());
    }
}

/// The value of digits where it is at most `2^31`, else none.
pub fn small_digits_value(ds: &Vec<u8>) -> (r: Option<u64>)
    requires
        all_digits(digit_ints(ds@)),
    ensures
        match r {
            Some(n) => n as int == digits_value(digit_ints(ds@)) && n <= 0x8000_0000,
            None => digits_value(digit_ints(ds@)) > 0x8000_0000,
        },
{
    let ghost dv = digit_ints(ds@);
    let n = ds.len();
    let mut acc: u64 = 0;
    for i in 0..n
        invariant
            n == ds@.len(),
            dv == digit_ints(ds@),
            all_digits(dv),
            acc as int == digits_value(dv.take(i as int)),
            acc <= 0x8000_0000,
    {
        assert(dv.take(i + 1).drop_last() =~= dv.take(i as int));
        assert(dv[i as int] == ds@[i as int] as int);
        let next = acc * 10 + ds[i] as u64;
        if next > 0x8000_0000 {
            proof {
                lemma_digits_value_prefix(dv, i + 1);
            }
            return None;
        }
        acc = next;
    }
    assert(dv.take(n as int) =~= dv);
    Some(acc)
}

impl Rational {
    /// The value of the number where it is a whole number that fits in an
    /// `i32`; none otherwise.
    pub fn to_i32(&self) -> (r: Option<i32>)
        ensures
            match r {
                Some(n) => whole_value(self@) == Some(n as int),
                None => !(whole_value(self@) matches Some(v) && i32::MIN <= v <= i32::MAX),
            },
    {
        proof {
            use_type_invariant(self);
        }
        if self.frac_digits.len() > 0 {
            return None;
        }
        match small_digits_value(&self.int_digits) {
            None => None,
            Some(m) => {
                if self.negative {
                    if m == 0x8000_0000 {
                        Some(i32::MIN)
                    } else {
                        Some(-(m as i32))
                    }
                } else if m == 0x8000_0000 {
                    None
                } else {
                    Some(m as i32)
                }
            },
        }
    }
}

} // verus!
