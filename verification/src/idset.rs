//! Sets of identifiers held as strictly increasing sequences of texts.

use vstd::prelude::*;
use crate::order::{compare_texts, lemma_text_order, text_lt, Order};

verus! {

/// The texts increase strictly.
pub open spec fn sorted(s: Seq<Seq<char>>) -> bool {
    forall|i: int, j: int| 0 <= i < j < s.len() ==> text_lt(#[trigger] s[i], #[trigger] s[j])
}

/// The texts of a sequence of character vectors.
pub open spec fn texts(v: Seq<Vec<char>>) -> Seq<Seq<char>> {
    v.map_values(|x: Vec<char>| x@)
}

/// How two sets are combined.
#[derive(Debug, Clone, Copy, PartialEq, Eq, Structural)]
pub enum SetOperation {
    And,
    Or,
    Diff,
}

/// Whether an element belongs to the combination, given whether it belongs
/// to each side.
pub open spec fn combined(op: SetOperation, in_a: bool, in_b: bool) -> bool {
    match op {
        SetOperation::And => in_a && in_b,
        SetOperation::Or => in_a || in_b,
        SetOperation::Diff => in_a && !in_b,
    }
}

/// Whether `x` is in the sorted vector `v`.
pub fn contains_text(v: &Vec<Vec<char>>, x: &Vec<char>) -> (r: bool)
    ensures
        r == texts(v@).contains(x@),
{
    let n = v.len();
    for i in 0..n
        invariant
            n == v@.len(),
            forall|j: int| 0 <= j < i ==> v@[j]@ != x@,
    {
        if compare_texts(&v[i], x) == Order::Equal {
            proof {
                lemma_text_order(v@[i as int]@, x@, x@);
                assert(texts(v@)[i as int] == x@);
            }
            return true;
        }
        proof {
            lemma_text_order(v@[i as int]@, x@, x@);
        }
    }
    proof {
        if texts(v@).contains(x@) {
            let k = choose|k: int| 0 <= k < texts(v@).len() && texts(v@)[k] == x@;
            assert(v@[k]@ == x@);
        }
    }
    false
}

/// A copy of a text.
pub fn copy_text(x: &Vec<char>) -> (r: Vec<char>)
    ensures
        r@ == x@,
{
    x.clone()
}

/// Combines two sorted sets of texts: intersection, union or difference.
/// The result is sorted.
pub fn merge(op: SetOperation, a: &Vec<Vec<char>>, b: &Vec<Vec<char>>) -> (r: Vec<Vec<char>>)
    requires
        sorted(texts(a@)),
        sorted(texts(b@)),
    ensures
        sorted(texts(r@)),
        forall|x: Seq<char>| #[trigger] texts(r@).contains(x) <==> combined(op, texts(a@).contains(x), texts(b@).contains(x)),
{
    let ghost ta = texts(a@);
    let ghost tb = texts(b@);
    let mut r: Vec<Vec<char>> = Vec::new();
    let mut i: usize = 0;
    let mut j: usize = 0;
    let na = a.len();
    let nb = b.len();
    while i < na || j < nb
        invariant
            na == a@.len(),
            nb == b@.len(),
            ta == texts(a@),
            tb == texts(b@),
            sorted(ta),
            sorted(tb),
            i <= na,
            j <= nb,
            sorted(texts(r@)),
            // every element already passed is below every element still ahead
            forall|p: int, q: int| 0 <= p < i && j <= q < nb ==> text_lt(#[trigger] ta[p], #[trigger] tb[q]),
            forall|p: int, q: int| 0 <= p < j && i <= q < na ==> text_lt(#[trigger] tb[p], #[trigger] ta[q]),
            forall|p: int, q: int| 0 <= p < texts(r@).len() && i <= q < na ==> text_lt(#[trigger] texts(r@)[p], #[trigger] ta[q]),
            forall|p: int, q: int| 0 <= p < texts(r@).len() && j <= q < nb ==> text_lt(#[trigger] texts(r@)[p], #[trigger] tb[q]),
            forall|x: Seq<char>| #[trigger] texts(r@).contains(x) <==> combined(op, ta.take(i as int).contains(x), tb.take(j as int).contains(x)),
        decreases na + nb - i - j,
    {
        let ghost tr = texts(r@);
        let ghost ta1 = ta.take(i + 1);
        let ghost tb1 = tb.take(j + 1);
        let ghost ta0 = ta.take(i as int);
        let ghost tb0 = tb.take(j as int);
        let o = if i < na && j < nb {
            compare_texts(&a[i], &b[j])
        } else if i < na {
            Order::Less
        } else {
            Order::Greater
        };
        proof {
            if i < na && j < nb {
                lemma_text_order(ta[i as int], tb[j as int], tb[j as int]);
            }
        }
        match o {
            Order::Less => {
                // a[i] is below everything ahead in b
                let ghost x = ta[i as int];
                proof {
                    assert forall|q: int| j <= q < nb implies text_lt(x, #[trigger] tb[q]) by {
                        if q > j {
                            lemma_text_order(x, tb[j as int], tb[q]);
                        }
                    }
                    assert(!tb.take(j as int).contains(x)) by {
                        if tb.take(j as int).contains(x) {
                            let k = choose|k: int| 0 <= k < j && tb0[k] == x;
                            assert(text_lt(tb[k], ta[i as int]));
                            lemma_text_order(x, x, x);
                        }
                    }
                    assert(!tb.contains(x)) by {
                        if tb.contains(x) {
                            let k = choose|k: int| 0 <= k < nb && tb[k] == x;
                            if k < j {
                                assert(tb.take(j as int)[k] == x);
                            } else {
                                lemma_text_order(x, x, x);
                            }
                        }
                    }
                }
                if op != SetOperation::And {
                    let c = copy_text(&a[i]);
                    r.push(c);
                    proof {
                        assert(texts(r@) =~= tr.push(x));
                        assert forall|p: int, q: int| 0 <= p < texts(r@).len() && i + 1 <= q < na implies text_lt(#[trigger] texts(r@)[p], #[trigger] ta[q]) by {
                            if p < tr.len() {
                                lemma_text_order(tr[p], ta[i as int], ta[q]);
                            }
                        }
                    }
                } else {
                    proof {
                        assert forall|p: int, q: int| 0 <= p < texts(r@).len() && i + 1 <= q < na implies text_lt(#[trigger] texts(r@)[p], #[trigger] ta[q]) by {
                            lemma_text_order(tr[p], ta[i as int], ta[q]);
                        }
                    }
                }
                proof {
                    assert(ta.take(i + 1) =~= ta.take(i as int).push(x));
                    assert forall|p: int, q: int| 0 <= p < i + 1 && j <= q < nb implies text_lt(#[trigger] ta[p], #[trigger] tb[q]) by {
                        if p < i {
                            lemma_text_order(ta[p], x, tb[q]);
                        }
                    }
                    assert forall|y: Seq<char>| #[trigger] texts(r@).contains(y) <==> combined(op, ta.take(i + 1).contains(y), tb.take(j as int).contains(y)) by {
                        if y == x {
                            assert(ta.take(i + 1)[i as int] == x);
                            if op != SetOperation::And {
                                assert(texts(r@)[tr.len() as int] == x);
                            } else {
                                assert(!tr.contains(x)) by {
                                    if tr.contains(x) {
                                        let k = choose|k: int| 0 <= k < tr.len() && tr[k] == x;
                                        lemma_text_order(x, x, x);
                                    }
                                }
                            }
                        } else {
                            if ta.take(i + 1).contains(y) {
                                let k = choose|k: int| 0 <= k < i + 1 && ta1[k] == y;
                                assert(ta.take(i as int)[k] == y);
                            }
                            if ta.take(i as int).contains(y) {
                                let k = choose|k: int| 0 <= k < i && ta0[k] == y;
                                assert(ta.take(i + 1)[k] == y);
                            }
                            if op != SetOperation::And && texts(r@).contains(y) {
                                let k = choose|k: int| 0 <= k < texts(r@).len() && texts(r@)[k] == y;
                                assert(tr[k] == y);
                            }
                            if op != SetOperation::And && tr.contains(y) {
                                let k = choose|k: int| 0 <= k < tr.len() && tr[k] == y;
                                assert(texts(r@)[k] == y);
                            }
                        }
                    }
                }
                i = i + 1;
            },
            Order::Greater => {
                let ghost x = tb[j as int];
                proof {
                    assert forall|q: int| i <= q < na implies text_lt(x, #[trigger] ta[q]) by {
                        if q > i {
                            lemma_text_order(x, ta[i as int], ta[q]);
                        }
                    }
                    assert(!ta.take(i as int).contains(x)) by {
                        if ta.take(i as int).contains(x) {
                            let k = choose|k: int| 0 <= k < i && ta0[k] == x;
                            assert(text_lt(ta[k], tb[j as int]));
                            lemma_text_order(x, x, x);
                        }
                    }
                }
                if op == SetOperation::Or {
                    let c = copy_text(&b[j]);
                    r.push(c);
                    proof {
                        assert(texts(r@) =~= tr.push(x));
                        assert forall|p: int, q: int| 0 <= p < texts(r@).len() && j + 1 <= q < nb implies text_lt(#[trigger] texts(r@)[p], #[trigger] tb[q]) by {
                            if p < tr.len() {
                                lemma_text_order(tr[p], tb[j as int], tb[q]);
                            }
                        }
                    }
                } else {
                    proof {
                        assert forall|p: int, q: int| 0 <= p < texts(r@).len() && j + 1 <= q < nb implies text_lt(#[trigger] texts(r@)[p], #[trigger] tb[q]) by {
                            lemma_text_order(tr[p], tb[j as int], tb[q]);
                        }
                    }
                }
                proof {
                    assert(tb.take(j + 1) =~= tb.take(j as int).push(x));
                    assert forall|p: int, q: int| 0 <= p < j + 1 && i <= q < na implies text_lt(#[trigger] tb[p], #[trigger] ta[q]) by {
                        if p < j {
                            lemma_text_order(tb[p], x, ta[q]);
                        }
                    }
                    assert forall|y: Seq<char>| #[trigger] texts(r@).contains(y) <==> combined(op, ta.take(i as int).contains(y), tb.take(j + 1).contains(y)) by {
                        if y == x {
                            assert(tb.take(j + 1)[j as int] == x);
                            if op == SetOperation::Or {
                                assert(texts(r@)[tr.len() as int] == x);
                            } else {
                                assert(!tr.contains(x)) by {
                                    if tr.contains(x) {
                                        let k = choose|k: int| 0 <= k < tr.len() && tr[k] == x;
                                        lemma_text_order(x, x, x);
                                    }
                                }
                            }
                        } else {
                            if tb.take(j + 1).contains(y) {
                                let k = choose|k: int| 0 <= k < j + 1 && tb1[k] == y;
                                assert(tb.take(j as int)[k] == y);
                            }
                            if tb.take(j as int).contains(y) {
                                let k = choose|k: int| 0 <= k < j && tb0[k] == y;
                                assert(tb.take(j + 1)[k] == y);
                            }
                            if op == SetOperation::Or && texts(r@).contains(y) {
                                let k = choose|k: int| 0 <= k < texts(r@).len() && texts(r@)[k] == y;
                                assert(tr[k] == y);
                            }
                            if op == SetOperation::Or && tr.contains(y) {
                                let k = choose|k: int| 0 <= k < tr.len() && tr[k] == y;
                                assert(texts(r@)[k] == y);
                            }
                        }
                    }
                }
                j = j + 1;
            },
            Order::Equal => {
                let ghost x = ta[i as int];
                proof {
                    lemma_text_order(ta[i as int], tb[j as int], tb[j as int]);
                    assert(tb[j as int] == x);
                }
                if op != SetOperation::Diff {
                    let c = copy_text(&a[i]);
                    r.push(c);
                    proof {
                        assert(texts(r@) =~= tr.push(x));
                    }
                }
                proof {
                    assert forall|p: int, q: int| 0 <= p < texts(r@).len() && i + 1 <= q < na implies text_lt(#[trigger] texts(r@)[p], #[trigger] ta[q]) by {
                        if p < tr.len() {
                            lemma_text_order(tr[p], ta[i as int], ta[q]);
                        }
                    }
                    assert forall|p: int, q: int| 0 <= p < texts(r@).len() && j + 1 <= q < nb implies text_lt(#[trigger] texts(r@)[p], #[trigger] tb[q]) by {
                        if p < tr.len() {
                            lemma_text_order(tr[p], tb[j as int], tb[q]);
                        }
                    }
                    assert(ta.take(i + 1) =~= ta.take(i as int).push(x));
                    assert(tb.take(j + 1) =~= tb.take(j as int).push(x));
                    assert forall|p: int, q: int| 0 <= p < i + 1 && j + 1 <= q < nb implies text_lt(#[trigger] ta[p], #[trigger] tb[q]) by {
                        if p < i {
                            lemma_text_order(ta[p], tb[j as int], tb[q]);
                        }
                    }
                    assert forall|p: int, q: int| 0 <= p < j + 1 && i + 1 <= q < na implies text_lt(#[trigger] tb[p], #[trigger] ta[q]) by {
                        if p < j {
                            lemma_text_order(tb[p], ta[i as int], ta[q]);
                        }
                    }
                    assert forall|y: Seq<char>| #[trigger] texts(r@).contains(y) <==> combined(op, ta.take(i + 1).contains(y), tb.take(j + 1).contains(y)) by {
                        if y == x {
                            assert(ta.take(i + 1)[i as int] == x);
                            assert(tb.take(j + 1)[j as int] == x);
                            if op != SetOperation::Diff {
                                assert(texts(r@)[tr.len() as int] == x);
                            } else {
                                assert(!tr.contains(x)) by {
                                    if tr.contains(x) {
                                        let k = choose|k: int| 0 <= k < tr.len() && tr[k] == x;
                                        lemma_text_order(x, x, x);
                                    }
                                }
                            }
                        } else {
                            if ta.take(i + 1).contains(y) {
                                let k = choose|k: int| 0 <= k < i + 1 && ta1[k] == y;
                                assert(ta.take(i as int)[k] == y);
                            }
                            if ta.take(i as int).contains(y) {
                                let k = choose|k: int| 0 <= k < i && ta0[k] == y;
                                assert(ta.take(i + 1)[k] == y);
                            }
                            if tb.take(j + 1).contains(y) {
                                let k = choose|k: int| 0 <= k < j + 1 && tb1[k] == y;
                                assert(tb.take(j as int)[k] == y);
                            }
                            if tb.take(j as int).contains(y) {
                                let k = choose|k: int| 0 <= k < j && tb0[k] == y;
                                assert(tb.take(j + 1)[k] == y);
                            }
                            if op != SetOperation::Diff && texts(r@).contains(y) {
                                let k = choose|k: int| 0 <= k < texts(r@).len() && texts(r@)[k] == y;
                                assert(tr[k] == y);
                            }
                            if op != SetOperation::Diff && tr.contains(y) {
                                let k = choose|k: int| 0 <= k < tr.len() && tr[k] == y;
                                assert(texts(r@)[k] == y);
                            }
                        }
                    }
                }
                i = i + 1;
                j = j + 1;
            },
        }
    }
    proof {
        assert(ta.take(na as int) =~= ta);
        assert(tb.take(nb as int) =~= tb);
    }
    r
}

/// The sorted set with `x` added.
pub fn with_text(v: &Vec<Vec<char>>, x: &Vec<char>) -> (r: Vec<Vec<char>>)
    requires
        sorted(texts(v@)),
    ensures
        sorted(texts(r@)),
        forall|y: Seq<char>| #[trigger] texts(r@).contains(y) <==> (texts(v@).contains(y) || y == x@),
{
    let mut one: Vec<Vec<char>> = Vec::new();
    one.push(copy_text(x));
    assert(texts(one@) =~= seq![x@]);
    let r = merge(SetOperation::Or, v, &one);
    assert forall|y: Seq<char>| #[trigger] texts(r@).contains(y) <==> (texts(v@).contains(y) || y == x@) by {
        if y == x@ {
            assert(texts(one@)[0] == y);
        }
    }
    r
}

/// The sorted set with `x` taken out.
pub fn without_text(v: &Vec<Vec<char>>, x: &Vec<char>) -> (r: Vec<Vec<char>>)
    requires
        sorted(texts(v@)),
    ensures
        sorted(texts(r@)),
        forall|y: Seq<char>| #[trigger] texts(r@).contains(y) <==> (texts(v@).contains(y) && y != x@),
{
    let mut one: Vec<Vec<char>> = Vec::new();
    one.push(copy_text(x));
    assert(texts(one@) =~= seq![x@]);
    let r = merge(SetOperation::Diff, v, &one);
    assert forall|y: Seq<char>| #[trigger] texts(r@).contains(y) <==> (texts(v@).contains(y) && y != x@) by {
        if y == x@ {
            assert(texts(one@)[0] == y);
        }
    }
    r
}

} // verus!
