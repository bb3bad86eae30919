//! A three-way comparison result and the lexicographic order on sequences.

use vstd::prelude::*;

verus! {

/// The outcome of a three-way comparison.
#[derive(Debug, Clone, Copy, PartialEq, Eq, Structural)]
pub enum Order {
    Less,
    Equal,
    Greater,
}

impl Order {
    /// The outcome seen from the other side.
    pub open spec fn flip(self) -> Order {
        match self {
            Order::Less => Order::Greater,
            Order::Equal => Order::Equal,
            Order::Greater => Order::Less,
        }
    }
}

/// Three-way comparison of two integers.
pub open spec fn int_order(a: int, b: int) -> Order {
    if a < b {
        Order::Less
    } else if a == b {
        Order::Equal
    } else {
        Order::Greater
    }
}

/// Lexicographic comparison of integer sequences: the first differing
/// position decides, and a proper prefix comes first.
pub open spec fn lex_order(a: Seq<int>, b: Seq<int>) -> Order
    decreases a.len(),
{
    if a.len() == 0 && b.len() == 0 {
        Order::Equal
    } else if a.len() == 0 {
        Order::Less
    } else if b.len() == 0 {
        Order::Greater
    } else if a[0] < b[0] {
        Order::Less
    } else if a[0] > b[0] {
        Order::Greater
    } else {
        lex_order(a.drop_first(), b.drop_first())
    }
}

/// The code points of a text.
pub open spec fn codes(s: Seq<char>) -> Seq<int> {
    s.map_values(|c: char| c as int)
}

/// Lexicographic comparison of texts by code point (which is also the
/// byte order of their UTF-8 encodings, the order of `String`).
pub open spec fn text_order(a: Seq<char>, b: Seq<char>) -> Order {
    lex_order(codes(a), codes(b))
}

/// A text strictly before another.
pub open spec fn text_lt(a: Seq<char>, b: Seq<char>) -> bool {
    text_order(a, b) == Order::Less
}

pub proof fn lemma_lex_order_flip(a: Seq<int>, b: Seq<int>)
    ensures
        lex_order(b, a) == lex_order(a, b).flip(),
    decreases a.len(),
{
    if a.len() > 0 && b.len() > 0 && a[0] == b[0] {
        lemma_lex_order_flip(a.drop_first(), b.drop_first());
    }
}

pub proof fn lemma_lex_order_equal(a: Seq<int>, b: Seq<int>)
    ensures
        (lex_order(a, b) == Order::Equal) <==> (a == b),
    decreases a.len(),
{
    if a.len() == 0 && b.len() == 0 {
        assert(a =~= b);
    }
    if a.len() > 0 && b.len() > 0 {
        lemma_lex_order_equal(a.drop_first(), b.drop_first());
        if a[0] == b[0] && a.drop_first() == b.drop_first() {
            assert(a =~= seq![a[0]] + a.drop_first());
            assert(b =~= seq![b[0]] + b.drop_first());
        }
        if a == b {
            assert(a.drop_first() == b.drop_first());
        }
    }
}

pub proof fn lemma_lex_order_trans(a: Seq<int>, b: Seq<int>, c: Seq<int>)
    requires
        lex_order(a, b) == Order::Less,
        lex_order(b, c) == Order::Less,
    ensures
        lex_order(a, c) == Order::Less,
    decreases a.len(),
{
    if a.len() > 0 && b.len() > 0 && c.len() > 0 && a[0] == b[0] && b[0] == c[0] {
        lemma_lex_order_trans(a.drop_first(), b.drop_first(), c.drop_first());
    }
}

pub proof fn lemma_codes_injective(a: Seq<char>, b: Seq<char>)
    ensures
        (codes(a) == codes(b)) <==> (a == b),
{
    if codes(a) == codes(b) {
        assert(codes(a).len() == codes(b).len());
        assert forall|i: int| 0 <= i < a.len() implies a[i] == b[i] by {
            assert(codes(a)[i] == codes(b)[i]);
        }
        assert(a =~= b);
    }
}

/// The text order is a strict total order.
pub proof fn lemma_text_order(a: Seq<char>, b: Seq<char>, c: Seq<char>)
    ensures
        text_order(b, a) == text_order(a, b).flip(),
        (text_order(a, b) == Order::Equal) <==> (a == b),
        text_lt(a, b) && text_lt(b, c) ==> text_lt(a, c),
{
    lemma_lex_order_flip(codes(a), codes(b));
    lemma_lex_order_equal(codes(a), codes(b));
    lemma_codes_injective(a, b);
    if text_lt(a, b) && text_lt(b, c) {
        lemma_lex_order_trans(codes(a), codes(b), codes(c));
    }
}

/// Compares two texts by code point.
pub fn compare_texts(a: &Vec<char>, b: &Vec<char>) -> (r: Order)
    ensures
        r == text_order(a@, b@),
{
    let n = if a.len() < b.len() { a.len() } else { b.len() };
    let mut i: usize = 0;
    assert(codes(a@).skip(0) =~= codes(a@));
    assert(codes(b@).skip(0) =~= codes(b@));
    while i < n
        invariant
            n <= a@.len(),
            n <= b@.len(),
            n == a@.len() || n == b@.len(),
            i <= n,
            forall|j: int| 0 <= j < i ==> a@[j] == b@[j],
            text_order(a@, b@) == lex_order(codes(a@).skip(i as int), codes(b@).skip(i as int)),
        decreases n - i,
    {
        let ghost ca = codes(a@).skip(i as int);
        let ghost cb = codes(b@).skip(i as int);
        let x: char = a[i];
        let y: char = b[i];
        if x < y {
            return Order::Less;
        }
        if x > y {
            return Order::Greater;
        }
        assert(a@[i as int] == b@[i as int]);
        assert(ca.drop_first() =~= codes(a@).skip(i + 1));
        assert(cb.drop_first() =~= codes(b@).skip(i + 1));
        i = i + 1;
    }
    let ghost ca = codes(a@).skip(i as int);
    let ghost cb = codes(b@).skip(i as int);
    if a.len() == b.len() {
        assert(ca.len() == 0 && cb.len() == 0);
        Order::Equal
    } else if a.len() < b.len() {
        assert(ca.len() == 0 && cb.len() > 0);
        Order::Less
    } else {
        assert(ca.len() > 0 && cb.len() == 0);
        Order::Greater
    }
}

} // verus!
