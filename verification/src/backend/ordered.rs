//! An ordered backend held in memory: each key with the set of its values,
//! kept in increasing order of keys.

use vstd::prelude::*;
use crate::backend::{
    ivalue_order, key_normal, key_order, lemma_ivalue_order, lemma_key_order, Batch, BatchOp, BatchOpV,
    IndexKey, IndexKeyV, IndexValue, IndexValueV, KeyScanItem,
};
use crate::order::Order;

verus! {

/// The values of entries: keys with their values.
pub open spec fn entry_views(e: Seq<(IndexKey, Vec<IndexValue>)>) -> Seq<(IndexKeyV, Seq<IndexValueV>)> {
    e.map_values(|x: (IndexKey, Vec<IndexValue>)| (x.0@, ivalue_views(x.1@)))
}

/// The values of backend values.
pub open spec fn ivalue_views(v: Seq<IndexValue>) -> Seq<IndexValueV> {
    v.map_values(|x: IndexValue| x@)
}

/// Whether the entries hold the value under the key.
pub open spec fn holds(e: Seq<(IndexKeyV, Seq<IndexValueV>)>, k: IndexKeyV, v: IndexValueV) -> bool {
    exists|i: int| 0 <= i < e.len() && (#[trigger] e[i]).0 == k && e[i].1.contains(v)
}

/// The keys increase strictly.
pub open spec fn keys_increase(e: Seq<(IndexKeyV, Seq<IndexValueV>)>) -> bool {
    forall|i: int, j: int| 0 <= i < j < e.len() ==> key_order((#[trigger] e[i]).0, (#[trigger] e[j]).0) == Order::Less
}

/// The values increase strictly.
pub open spec fn ivalues_increase(s: Seq<IndexValueV>) -> bool {
    forall|i: int, j: int| 0 <= i < j < s.len() ==> ivalue_order(#[trigger] s[i], #[trigger] s[j]) == Order::Less
}

/// Whether the key is held with some value.
pub open spec fn has_key(pairs: Set<(IndexKeyV, IndexValueV)>, k: IndexKeyV) -> bool {
    exists|v: IndexValueV| #[trigger] pairs.contains((key_normal(k), v))
}

/// The pairs after one change, or none where it fails: an addition adds
/// the value under the key; a removal takes it out, and fails where the key
/// holds no value.
pub open spec fn apply_op(pairs: Set<(IndexKeyV, IndexValueV)>, op: BatchOpV) -> Option<Set<(IndexKeyV, IndexValueV)>> {
    match op {
        BatchOpV::Add(k, v) => Some(pairs.insert((key_normal(k), v))),
        BatchOpV::Del(k, v) => if has_key(pairs, k) {
            Some(pairs.remove((key_normal(k), v)))
        } else {
            None
        },
    }
}

/// The pairs after changes applied in order, and whether all succeeded;
/// the changes after one that fails are not applied.
pub open spec fn apply_ops(pairs: Set<(IndexKeyV, IndexValueV)>, ops: Seq<BatchOpV>) -> (Set<(IndexKeyV, IndexValueV)>, bool)
    decreases ops.len(),
{
    if ops.len() == 0 {
        (pairs, true)
    } else {
        let (p, ok) = apply_ops(pairs, ops.drop_last());
        if !ok {
            (p, false)
        } else {
            match apply_op(p, ops.last()) {
                Some(q) => (q, true),
                None => (p, false),
            }
        }
    }
}

/// A bound of a range of keys.
#[derive(Debug, Clone, PartialEq)]
pub enum KeyBound {
    Included(IndexKey),
    Excluded(IndexKey),
    Unbounded,
}

/// A bound of a range of values.
#[derive(Debug, Clone, PartialEq)]
pub enum ValueBound {
    Included(IndexValue),
    Excluded(IndexValue),
    Unbounded,
}

/// Whether a key is at or after a start bound.
pub open spec fn after_start(b: KeyBound, k: IndexKeyV) -> bool {
    match b {
        KeyBound::Included(s) => key_order(s@, k) != Order::Greater,
        KeyBound::Excluded(s) => key_order(s@, k) == Order::Less,
        KeyBound::Unbounded => true,
    }
}

/// Whether a key is at or before an end bound.
pub open spec fn before_end(b: KeyBound, k: IndexKeyV) -> bool {
    match b {
        KeyBound::Included(e) => key_order(k, e@) != Order::Greater,
        KeyBound::Excluded(e) => key_order(k, e@) == Order::Less,
        KeyBound::Unbounded => true,
    }
}

/// Whether a value is at or after a start bound.
pub open spec fn value_after_start(b: ValueBound, v: IndexValueV) -> bool {
    match b {
        ValueBound::Included(s) => ivalue_order(s@, v) != Order::Greater,
        ValueBound::Excluded(s) => ivalue_order(s@, v) == Order::Less,
        ValueBound::Unbounded => true,
    }
}

/// Whether a value is at or before an end bound.
pub open spec fn value_before_end(b: ValueBound, v: IndexValueV) -> bool {
    match b {
        ValueBound::Included(e) => ivalue_order(v, e@) != Order::Greater,
        ValueBound::Excluded(e) => ivalue_order(v, e@) == Order::Less,
        ValueBound::Unbounded => true,
    }
}

/// Each key with the set of its values, in increasing order of keys.
pub struct LLRBBackend {
    entries: Vec<(IndexKey, Vec<IndexValue>)>,
}

impl View for LLRBBackend {
    type V = Set<(IndexKeyV, IndexValueV)>;

    closed spec fn view(&self) -> Set<(IndexKeyV, IndexValueV)> {
        Set::new(|p: (IndexKeyV, IndexValueV)| holds(entry_views(self.entries@), p.0, p.1))
    }
}

/// The entries are in order, keys by their representative, and no key
/// is without values.
pub open spec fn entries_wf(e: Seq<(IndexKeyV, Seq<IndexValueV>)>) -> bool {
    &&& keys_increase(e)
    &&& forall|i: int| 0 <= i < e.len() ==> (#[trigger] e[i]).0 == key_normal(e[i].0)
    &&& forall|i: int| 0 <= i < e.len() ==> (#[trigger] e[i]).1.len() > 0 && ivalues_increase(e[i].1)
}

impl LLRBBackend {
    #[verifier::type_invariant]
    closed spec fn ordered(self) -> bool {
        entries_wf(entry_views(self.entries@))
    }

    /// An empty backend.
    pub fn new() -> (r: LLRBBackend)
        ensures
            r@ == Set::<(IndexKeyV, IndexValueV)>::empty(),
    {
        let r = LLRBBackend { entries: Vec::new() };
        assert(r@ =~= Set::<(IndexKeyV, IndexValueV)>::empty());
        r
    }
}

proof fn lemma_insert_ivalues(s: Seq<IndexValueV>, p: int, x: IndexValueV)
    requires
        ivalues_increase(s),
        0 <= p <= s.len(),
        forall|j: int| 0 <= j < p ==> ivalue_order(#[trigger] s[j], x) == Order::Less,
        p < s.len() ==> ivalue_order(s[p], x) == Order::Greater,
    ensures
        ivalues_increase(s.insert(p, x)),
        s.insert(p, x).to_set() == s.to_set().insert(x),
{
    let t = s.insert(p, x);
    assert forall|i: int, j: int| 0 <= i < j < t.len() implies ivalue_order(#[trigger] t[i], #[trigger] t[j]) == Order::Less by {
        if j < p {
            assert(t[i] == s[i] && t[j] == s[j]);
        } else if j == p {
            assert(t[i] == s[i]);
        } else if i == p {
            assert(t[j] == s[j - 1]);
            lemma_ivalue_order(s[p], x, s[j - 1]);
            lemma_ivalue_order(x, s[p], s[j - 1]);
            if j - 1 > p {
                assert(ivalue_order(s[p], s[j - 1]) == Order::Less);
            }
        } else if i < p {
            assert(t[i] == s[i] && t[j] == s[j - 1]);
        } else {
            assert(t[i] == s[i - 1] && t[j] == s[j - 1]);
        }
    }
    assert forall|y: IndexValueV| #[trigger] t.to_set().contains(y) <==> s.to_set().insert(x).contains(y) by {
        if t.contains(y) {
            let j = choose|j: int| 0 <= j < t.len() && t[j] == y;
            if j < p {
                assert(s[j] == y);
            } else if j > p {
                assert(s[j - 1] == y);
            }
        }
        if s.contains(y) {
            let j = choose|j: int| 0 <= j < s.len() && s[j] == y;
            if j < p {
                assert(t[j] == y);
            } else {
                assert(t[j + 1] == y);
            }
        }
        if y == x {
            assert(t[p] == y);
        }
    }
    assert(t.to_set() =~= s.to_set().insert(x));
}

/// Inserts a value into a strictly increasing list unless it is there.
fn insert_ivalue(vals: &Vec<IndexValue>, x: &IndexValue) -> (r: Vec<IndexValue>)
    requires
        ivalues_increase(ivalue_views(vals@)),
    ensures
        ivalues_increase(ivalue_views(r@)),
        ivalue_views(r@).to_set() == ivalue_views(vals@).to_set().insert(x@),
        r@.len() > 0,
{
    let ghost s = ivalue_views(vals@);
    let n = vals.len();
    let mut p: usize = 0;
    while p < n && vals[p].compare(x) == Order::Less
        invariant
            n == vals@.len(),
            s == ivalue_views(vals@),
            p <= n,
            forall|j: int| 0 <= j < p ==> ivalue_order(#[trigger] s[j], x@) == Order::Less,
        decreases n - p,
    {
        p = p + 1;
    }
    let mut r: Vec<IndexValue> = Vec::new();
    for i in 0..n
        invariant
            n == vals@.len(),
            ivalue_views(r@) == s.take(i as int),
            s == ivalue_views(vals@),
    {
        let ghost before = ivalue_views(r@);
        r.push(vals[i].duplicate());
        assert(ivalue_views(r@) =~= before.push(s[i as int]));
        assert(s.take(i + 1) =~= s.take(i as int).push(s[i as int]));
    }
    assert(s.take(n as int) =~= s);
    if p < n && vals[p].compare(x) == Order::Equal {
        proof {
            lemma_ivalue_order(s[p as int], x@, x@);
            assert(s.to_set() =~= s.to_set().insert(x@));
        }
        return r;
    }
    r.insert(p, x.duplicate());
    assert(ivalue_views(r@) =~= s.insert(p as int, x@));
    proof {
        if p < n {
            lemma_ivalue_order(s[p as int], x@, x@);
        }
        lemma_insert_ivalues(s, p as int, x@);
    }
    r
}

/// The list without the value; it stays strictly increasing.
fn remove_ivalue(vals: &Vec<IndexValue>, x: &IndexValue) -> (r: Vec<IndexValue>)
    requires
        ivalues_increase(ivalue_views(vals@)),
    ensures
        ivalues_increase(ivalue_views(r@)),
        ivalue_views(r@).to_set() == ivalue_views(vals@).to_set().remove(x@),
{
    let ghost s = ivalue_views(vals@);
    let n = vals.len();
    let mut r: Vec<IndexValue> = Vec::new();
    for i in 0..n
        invariant
            n == vals@.len(),
            ivalue_views(r@) == s.take(i as int),
            s == ivalue_views(vals@),
    {
        let ghost before = ivalue_views(r@);
        r.push(vals[i].duplicate());
        assert(ivalue_views(r@) =~= before.push(s[i as int]));
        assert(s.take(i + 1) =~= s.take(i as int).push(s[i as int]));
    }
    assert(s.take(n as int) =~= s);
    let mut q: usize = 0;
    while q < n && vals[q].compare(x) != Order::Equal
        invariant
            n == vals@.len(),
            s == ivalue_views(vals@),
            q <= n,
            forall|j: int| 0 <= j < q ==> ivalue_order(#[trigger] s[j], x@) != Order::Equal,
        decreases n - q,
    {
        q = q + 1;
    }
    if q == n {
        proof {
            assert forall|j: int| 0 <= j < n implies #[trigger] s[j] != x@ by {
                lemma_ivalue_order(s[j], x@, x@);
            }
            assert(s.to_set() =~= s.to_set().remove(x@));
        }
        return r;
    }
    proof {
        lemma_ivalue_order(s[q as int], x@, x@);
    }
    r.remove(q);
    assert(ivalue_views(r@) =~= s.remove(q as int));
    proof {
        lemma_remove_ivalues(s, q as int, x@);
    }
    r
}

proof fn lemma_remove_ivalues(s: Seq<IndexValueV>, q: int, x: IndexValueV)
    requires
        ivalues_increase(s),
        0 <= q < s.len(),
        s[q] == x,
    ensures
        ivalues_increase(s.remove(q)),
        s.remove(q).to_set() == s.to_set().remove(x),
{
    let t = s.remove(q);
    assert forall|i: int, j: int| 0 <= i < j < t.len() implies ivalue_order(#[trigger] t[i], #[trigger] t[j]) == Order::Less by {
        if j < q {
            assert(t[i] == s[i] && t[j] == s[j]);
        } else if i < q {
            assert(t[i] == s[i] && t[j] == s[j + 1]);
        } else {
            assert(t[i] == s[i + 1] && t[j] == s[j + 1]);
        }
    }
    assert forall|y: IndexValueV| #[trigger] t.to_set().contains(y) <==> s.to_set().remove(x).contains(y) by {
        if t.contains(y) {
            let k = choose|k: int| 0 <= k < t.len() && t[k] == y;
            if k < q {
                assert(s[k] == y);
                lemma_ivalue_order(s[k], s[q], s[q]);
            } else {
                assert(s[k + 1] == y);
                lemma_ivalue_order(s[q], s[k + 1], s[k + 1]);
            }
        }
        if s.contains(y) && y != x {
            let k = choose|k: int| 0 <= k < s.len() && s[k] == y;
            if k < q {
                assert(t[k] == y);
            } else {
                assert(k != q);
                assert(t[k - 1] == y);
            }
        }
    }
    assert(t.to_set() =~= s.to_set().remove(x));
}

/// The entries as they are, copied.
fn copy_entries(e: &Vec<(IndexKey, Vec<IndexValue>)>) -> (r: Vec<(IndexKey, Vec<IndexValue>)>)
    ensures
        entry_views(r@) == entry_views(e@),
{
    let mut r: Vec<(IndexKey, Vec<IndexValue>)> = Vec::new();
    let n = e.len();
    for i in 0..n
        invariant
            n == e@.len(),
            entry_views(r@) == entry_views(e@).take(i as int),
    {
        let ghost before = entry_views(r@);
        let vals = copy_ivalues(&e[i].1);
        r.push((e[i].0.clone_key(), vals));
        assert(entry_views(r@) =~= before.push(entry_views(e@)[i as int]));
        assert(entry_views(e@).take(i + 1) =~= entry_views(e@).take(i as int).push(entry_views(e@)[i as int]));
    }
    assert(entry_views(e@).take(n as int) =~= entry_views(e@));
    r
}

/// The values as they are, copied.
fn copy_ivalues(v: &Vec<IndexValue>) -> (r: Vec<IndexValue>)
    ensures
        ivalue_views(r@) == ivalue_views(v@),
{
    let mut r: Vec<IndexValue> = Vec::new();
    let n = v.len();
    for i in 0..n
        invariant
            n == v@.len(),
            ivalue_views(r@) == ivalue_views(v@).take(i as int),
    {
        let ghost before = ivalue_views(r@);
        r.push(v[i].duplicate());
        assert(ivalue_views(r@) =~= before.push(v@[i as int]@));
        assert(ivalue_views(v@).take(i + 1) =~= ivalue_views(v@).take(i as int).push(v@[i as int]@));
    }
    assert(ivalue_views(v@).take(n as int) =~= ivalue_views(v@));
    r
}

/// A key is held with some value exactly when an entry has it.
proof fn lemma_has_key(e: Seq<(IndexKeyV, Seq<IndexValueV>)>, k: IndexKeyV)
    requires
        entries_wf(e),
    ensures
        has_key(Set::new(|p: (IndexKeyV, IndexValueV)| holds(e, p.0, p.1)), k) <==> exists|i: int|
            0 <= i < e.len() && (#[trigger] e[i]).0 == key_normal(k),
{
    let pairs = Set::new(|p: (IndexKeyV, IndexValueV)| holds(e, p.0, p.1));
    if exists|i: int| 0 <= i < e.len() && (#[trigger] e[i]).0 == key_normal(k) {
        let i = choose|i: int| 0 <= i < e.len() && (#[trigger] e[i]).0 == key_normal(k);
        let v = e[i].1[0];
        assert(e[i].1.contains(v));
        assert(holds(e, key_normal(k), v));
        assert(pairs.contains((key_normal(k), v)));
    }
    if has_key(pairs, k) {
        let v = choose|v: IndexValueV| #[trigger] pairs.contains((key_normal(k), v));
        assert(holds(e, key_normal(k), v));
    }
}

/// Where an entry with a key would go: after every smaller key.
fn find_key(e: &Vec<(IndexKey, Vec<IndexValue>)>, k: &IndexKey) -> (p: usize)
    requires
        entries_wf(entry_views(e@)),
    ensures
        p <= e@.len(),
        forall|j: int| 0 <= j < p ==> key_order((#[trigger] entry_views(e@)[j]).0, k@) == Order::Less,
        p < e@.len() ==> key_order(entry_views(e@)[p as int].0, k@) != Order::Less,
{
    let n = e.len();
    let mut p: usize = 0;
    while p < n && e[p].0.compare(k) == Order::Less
        invariant
            n == e@.len(),
            p <= n,
            forall|j: int| 0 <= j < p ==> key_order((#[trigger] entry_views(e@)[j]).0, k@) == Order::Less,
        decreases n - p,
    {
        assert(entry_views(e@)[p as int].0 == e@[p as int].0@);
        p = p + 1;
    }
    if p < n {
        assert(entry_views(e@)[p as int].0 == e@[p as int].0@);
    }
    p
}

proof fn lemma_key_normal_idempotent(k: IndexKeyV)
    ensures
        key_normal(key_normal(k)) == key_normal(k),
{
}

proof fn lemma_insert_entry_order(e: Seq<(IndexKeyV, Seq<IndexValueV>)>, p: int, x: (IndexKeyV, Seq<IndexValueV>))
    requires
        entries_wf(e),
        0 <= p <= e.len(),
        forall|j: int| 0 <= j < p ==> key_order((#[trigger] e[j]).0, x.0) == Order::Less,
        p < e.len() ==> key_order(e[p].0, x.0) == Order::Greater,
        x.0 == key_normal(x.0),
        x.1.len() > 0,
        ivalues_increase(x.1),
    ensures
        entries_wf(e.insert(p, x)),
{
    let t = e.insert(p, x);
    assert forall|i: int, j: int| 0 <= i < j < t.len() implies key_order((#[trigger] t[i]).0, (#[trigger] t[j]).0) == Order::Less by {
        if j < p {
            assert(t[i] == e[i] && t[j] == e[j]);
        } else if j == p {
            assert(t[i] == e[i]);
        } else if i == p {
            assert(t[j] == e[j - 1]);
            lemma_key_order(e[p].0, x.0, e[j - 1].0);
            lemma_key_order(x.0, e[p].0, e[j - 1].0);
            if j - 1 > p {
                assert(key_order(e[p].0, e[j - 1].0) == Order::Less);
            }
        } else if i < p {
            assert(t[i] == e[i] && t[j] == e[j - 1]);
        } else {
            assert(t[i] == e[i - 1] && t[j] == e[j - 1]);
        }
    }
    assert forall|i: int| 0 <= i < t.len() implies (#[trigger] t[i]).0 == key_normal(t[i].0) && t[i].1.len() > 0 && ivalues_increase(t[i].1) by {
        if i < p {
            assert(t[i] == e[i]);
        } else if i > p {
            assert(t[i] == e[i - 1]);
        }
    }
}

proof fn lemma_insert_entry_holds(e: Seq<(IndexKeyV, Seq<IndexValueV>)>, p: int, x: (IndexKeyV, Seq<IndexValueV>))
    requires
        0 <= p <= e.len(),
    ensures
        forall|a: IndexKeyV, b: IndexValueV| #[trigger] holds(e.insert(p, x), a, b) <==> (holds(e, a, b) || (a == x.0 && x.1.contains(b))),
{
    let t = e.insert(p, x);
    assert forall|a: IndexKeyV, b: IndexValueV| holds(t, a, b) <==> (holds(e, a, b) || (a == x.0 && x.1.contains(b))) by {
        if holds(t, a, b) {
            let i = choose|i: int| 0 <= i < t.len() && (#[trigger] t[i]).0 == a && t[i].1.contains(b);
            if i < p {
                assert(e[i] == t[i]);
            } else if i > p {
                assert(e[i - 1] == t[i]);
            }
        }
        if holds(e, a, b) {
            let i = choose|i: int| 0 <= i < e.len() && (#[trigger] e[i]).0 == a && e[i].1.contains(b);
            if i < p {
                assert(t[i] == e[i]);
            } else {
                assert(t[i + 1] == e[i]);
            }
        }
        if a == x.0 && x.1.contains(b) {
            assert(t[p] == x);
        }
    }
}

proof fn lemma_update_entry(e: Seq<(IndexKeyV, Seq<IndexValueV>)>, p: int, vals: Seq<IndexValueV>)
    requires
        entries_wf(e),
        0 <= p < e.len(),
        vals.len() > 0,
        ivalues_increase(vals),
    ensures
        entries_wf(e.update(p, (e[p].0, vals))),
        forall|b: IndexValueV| #[trigger] holds(e, e[p].0, b) <==> e[p].1.contains(b),
        forall|a: IndexKeyV, b: IndexValueV| #[trigger] holds(e.update(p, (e[p].0, vals)), a, b) <==> (if a == e[p].0 {
            vals.contains(b)
        } else {
            holds(e, a, b)
        }),
{
    let t = e.update(p, (e[p].0, vals));
    assert forall|i: int, j: int| 0 <= i < j < t.len() implies key_order((#[trigger] t[i]).0, (#[trigger] t[j]).0) == Order::Less by {
        assert(t[i].0 == e[i].0 && t[j].0 == e[j].0);
    }
    assert forall|i: int| 0 <= i < t.len() implies (#[trigger] t[i]).0 == key_normal(t[i].0) && t[i].1.len() > 0 && ivalues_increase(t[i].1) by {
        if i != p {
            assert(t[i] == e[i]);
        }
    }
    assert forall|a: IndexKeyV, b: IndexValueV| holds(t, a, b) <==> (if a == e[p].0 {
        vals.contains(b)
    } else {
        holds(e, a, b)
    }) by {
        if holds(t, a, b) {
            let i = choose|i: int| 0 <= i < t.len() && (#[trigger] t[i]).0 == a && t[i].1.contains(b);
            if i != p {
                assert(t[i] == e[i]);
                if a == e[p].0 {
                    lemma_key_order(e[i].0, e[p].0, e[p].0);
                    if i < p {
                        assert(key_order(e[i].0, e[p].0) == Order::Less);
                    } else {
                        assert(key_order(e[p].0, e[i].0) == Order::Less);
                    }
                }
            }
        }
        if a == e[p].0 && vals.contains(b) {
            assert(t[p].1.contains(b));
        }
        if a != e[p].0 && holds(e, a, b) {
            let i = choose|i: int| 0 <= i < e.len() && (#[trigger] e[i]).0 == a && e[i].1.contains(b);
            assert(t[i] == e[i]);
        }
    }
    assert forall|b: IndexValueV| #[trigger] holds(e, e[p].0, b) <==> e[p].1.contains(b) by {
        if holds(e, e[p].0, b) {
            let i = choose|i: int| 0 <= i < e.len() && (#[trigger] e[i]).0 == e[p].0 && e[i].1.contains(b);
            if i != p {
                lemma_key_order(e[i].0, e[p].0, e[p].0);
                if i < p {
                    assert(key_order(e[i].0, e[p].0) == Order::Less);
                } else {
                    assert(key_order(e[p].0, e[i].0) == Order::Less);
                }
            }
        }
    }
}

proof fn lemma_remove_entry_order(e: Seq<(IndexKeyV, Seq<IndexValueV>)>, p: int)
    requires
        entries_wf(e),
        0 <= p < e.len(),
    ensures
        entries_wf(e.remove(p)),
{
    let t = e.remove(p);
    assert forall|i: int, j: int| 0 <= i < j < t.len() implies key_order((#[trigger] t[i]).0, (#[trigger] t[j]).0) == Order::Less by {
        if j < p {
            assert(t[i] == e[i] && t[j] == e[j]);
        } else if i < p {
            assert(t[i] == e[i] && t[j] == e[j + 1]);
        } else {
            assert(t[i] == e[i + 1] && t[j] == e[j + 1]);
        }
    }
    assert forall|i: int| 0 <= i < t.len() implies (#[trigger] t[i]).0 == key_normal(t[i].0) && t[i].1.len() > 0 && ivalues_increase(t[i].1) by {
        if i < p {
            assert(t[i] == e[i]);
        } else {
            assert(t[i] == e[i + 1]);
        }
    }
}

proof fn lemma_remove_entry_holds(e: Seq<(IndexKeyV, Seq<IndexValueV>)>, p: int)
    requires
        entries_wf(e),
        0 <= p < e.len(),
    ensures
        forall|a: IndexKeyV, b: IndexValueV| #[trigger] holds(e.remove(p), a, b) <==> (a != e[p].0 && holds(e, a, b)),
{
    let t = e.remove(p);
    assert forall|a: IndexKeyV, b: IndexValueV| holds(t, a, b) <==> (a != e[p].0 && holds(e, a, b)) by {
        if holds(t, a, b) {
            let i = choose|i: int| 0 <= i < t.len() && (#[trigger] t[i]).0 == a && t[i].1.contains(b);
            let q = if i < p { i } else { i + 1 };
            assert(t[i] == e[q]);
            lemma_key_order(e[q].0, e[p].0, e[p].0);
            if q < p {
                assert(key_order(e[q].0, e[p].0) == Order::Less);
            } else {
                assert(key_order(e[p].0, e[q].0) == Order::Less);
            }
        }
        if a != e[p].0 && holds(e, a, b) {
            let i = choose|i: int| 0 <= i < e.len() && (#[trigger] e[i]).0 == a && e[i].1.contains(b);
            if i < p {
                assert(t[i] == e[i]);
            } else {
                assert(i != p);
                assert(t[i - 1] == e[i]);
            }
        }
    }
}

/// The keys held, each with at least one value.
pub open spec fn held_keys(pairs: Set<(IndexKeyV, IndexValueV)>) -> Set<IndexKeyV> {
    Set::new(|k: IndexKeyV| exists|v: IndexValueV| #[trigger] pairs.contains((k, v)))
}

/// The keys of entries.
pub open spec fn entry_keys(e: Seq<(IndexKeyV, Seq<IndexValueV>)>) -> Seq<IndexKeyV> {
    e.map_values(|x: (IndexKeyV, Seq<IndexValueV>)| x.0)
}

/// No entry has the key where the search stopped short of it.
proof fn lemma_key_absent(e: Seq<(IndexKeyV, Seq<IndexValueV>)>, p: int, k: IndexKeyV)
    requires
        entries_wf(e),
        0 <= p <= e.len(),
        forall|j: int| 0 <= j < p ==> key_order((#[trigger] e[j]).0, k) == Order::Less,
        p < e.len() ==> key_order(e[p].0, k) == Order::Greater,
    ensures
        forall|i: int| 0 <= i < e.len() ==> (#[trigger] e[i]).0 != key_normal(k),
{
    assert forall|i: int| 0 <= i < e.len() implies (#[trigger] e[i]).0 != key_normal(k) by {
        lemma_key_order(e[i].0, k, k);
        lemma_key_order(key_normal(k), k, k);
        lemma_key_normal_idempotent(k);
        if i >= p {
            if i > p {
                assert(key_order(e[p].0, e[i].0) == Order::Less);
                lemma_key_order(k, e[p].0, e[i].0);
                lemma_key_order(e[p].0, k, k);
            }
        }
    }
}

impl LLRBBackend {
    /// Adds a value under a key.
    fn add(&mut self, k: &IndexKey, v: &IndexValue)
        ensures
            final(self)@ == old(self)@.insert((key_normal(k@), v@)),
    {
        proof {
            use_type_invariant(&*self);
        }
        let ghost ev = entry_views(self.entries@);
        let nk = k.normalized();
        proof {
            lemma_key_normal_idempotent(k@);
        }
        let p = find_key(&self.entries, &nk);
        let n = self.entries.len();
        let mut new = copy_entries(&self.entries);
        if p < n && self.entries[p].0.compare(&nk) == Order::Equal {
            proof {
                lemma_key_order(ev[p as int].0, nk@, nk@);
                assert(ev[p as int].0 == nk@);
            }
            let vals = insert_ivalue(&self.entries[p].1, v);
            new.set(p, (nk, vals));
            proof {
                lemma_update_entry(ev, p as int, ivalue_views(vals@));
                assert(entry_views(new@) =~= ev.update(p as int, (ev[p as int].0, ivalue_views(vals@))));
                assert forall|a: IndexKeyV, b: IndexValueV| #[trigger] holds(entry_views(new@), a, b) <==> (holds(ev, a, b) || (a == nk@ && b == v@)) by {
                    assert(ivalue_views(vals@).to_set().contains(b) == ivalue_views(vals@).contains(b));
                    assert(ev[p as int].1.to_set().contains(b) == ev[p as int].1.contains(b));
                    assert(ev[p as int].1 == ivalue_views(self.entries@[p as int].1@));
                }
            }
        } else {
            proof {
                if p < n {
                    lemma_key_order(ev[p as int].0, nk@, nk@);
                }
            }
            let mut one: Vec<IndexValue> = Vec::new();
            one.push(v.duplicate());
            assert(ivalue_views(one@) =~= seq![v@]);
            new.insert(p, (nk, one));
            proof {
                assert(ivalues_increase(ivalue_views(one@)));
                lemma_insert_entry_order(ev, p as int, (nk@, ivalue_views(one@)));
                lemma_insert_entry_holds(ev, p as int, (nk@, ivalue_views(one@)));
                assert(entry_views(new@) =~= ev.insert(p as int, (nk@, ivalue_views(one@))));
                assert forall|a: IndexKeyV, b: IndexValueV| #[trigger] holds(entry_views(new@), a, b) <==> (holds(ev, a, b) || (a == nk@ && b == v@)) by {
                    if b == v@ {
                        assert(ivalue_views(one@)[0] == b);
                    }
                }
            }
        }
        assert(forall|a: IndexKeyV, b: IndexValueV| #[trigger] holds(entry_views(new@), a, b) <==> (holds(ev, a, b) || (a == nk@ && b == v@)));
        self.entries = new;
        assert(self@ =~= old(self)@.insert((key_normal(k@), v@)));
    }
}

impl LLRBBackend {
    /// Takes a value from under a key; false, and nothing changes, where no
    /// value is held under the key.
    fn del(&mut self, k: &IndexKey, v: &IndexValue) -> (found: bool)
        ensures
            found == has_key(old(self)@, k@),
            found ==> final(self)@ == old(self)@.remove((key_normal(k@), v@)),
            !found ==> final(self)@ == old(self)@,
    {
        proof {
            use_type_invariant(&*self);
        }
        let ghost ev = entry_views(self.entries@);
        proof {
            lemma_has_key(ev, k@);
        }
        let nk = k.normalized();
        proof {
            lemma_key_normal_idempotent(k@);
        }
        let p = find_key(&self.entries, &nk);
        let n = self.entries.len();
        if !(p < n && self.entries[p].0.compare(&nk) == Order::Equal) {
            proof {
                if p < n {
                    lemma_key_order(ev[p as int].0, nk@, nk@);
                }
                lemma_key_absent(ev, p as int, nk@);
            }
            return false;
        }
        proof {
            lemma_key_order(ev[p as int].0, nk@, nk@);
            assert(ev[p as int].0 == nk@);
        }
        let vals = remove_ivalue(&self.entries[p].1, v);
        let mut new = copy_entries(&self.entries);
        proof {
            lemma_update_entry(ev, p as int, ev[p as int].1);
        }
        if vals.len() == 0 {
            new.remove(p);
            proof {
                assert(entry_views(new@) =~= ev.remove(p as int));
                lemma_remove_entry_order(ev, p as int);
                lemma_remove_entry_holds(ev, p as int);
                assert forall|a: IndexKeyV, b: IndexValueV| #[trigger] holds(entry_views(new@), a, b) <==> (holds(ev, a, b) && !(a == nk@ && b == v@)) by {
                    if a == nk@ && holds(ev, a, b) {
                        assert(ev[p as int].1.contains(b));
                        assert(ev[p as int].1.to_set().contains(b));
                        if b != v@ {
                            assert(ivalue_views(vals@).to_set().contains(b));
                            assert(ivalue_views(vals@).contains(b));
                        }
                    }
                }
            }
        } else {
            new.set(p, (nk, vals));
            proof {
                lemma_update_entry(ev, p as int, ivalue_views(vals@));
                assert(entry_views(new@) =~= ev.update(p as int, (ev[p as int].0, ivalue_views(vals@))));
                assert forall|a: IndexKeyV, b: IndexValueV| #[trigger] holds(entry_views(new@), a, b) <==> (holds(ev, a, b) && !(a == nk@ && b == v@)) by {
                    assert(ivalue_views(vals@).to_set().contains(b) == ivalue_views(vals@).contains(b));
                    assert(ev[p as int].1.to_set().contains(b) == ev[p as int].1.contains(b));
                }
            }
        }
        assert(forall|a: IndexKeyV, b: IndexValueV| #[trigger] holds(entry_views(new@), a, b) <==> (holds(ev, a, b) && !(a == nk@ && b == v@)));
        self.entries = new;
        assert(self@ =~= old(self)@.remove((key_normal(k@), v@)));
        true
    }

    /// Applies changes in order (see [`apply_ops`]); an error at the first
    /// removal under a key that holds no value, after the changes before it.
    pub fn update(&mut self, batch: &Batch) -> (r: Result<(), String>)
        ensures
            final(self)@ == apply_ops(old(self)@, batch@).0,
            r is Ok <==> apply_ops(old(self)@, batch@).1,
            r matches Err(e) ==> e@ == "key not found"@,
    {
        let ops = batch.iter();
        let ghost ov = crate::backend::op_views(ops@);
        let n = ops.len();
        assert(ov.take(0) =~= Seq::<BatchOpV>::empty());
        for i in 0..n
            invariant
                n == ops@.len(),
                ov == crate::backend::op_views(ops@),
                ov == batch@,
                apply_ops(old(self)@, ov.take(i as int)) == (self@, true),
        {
            assert(ov.take(i + 1).drop_last() =~= ov.take(i as int));
            assert(ov.take(i + 1).last() == ops@[i as int]@);
            match &ops[i] {
                BatchOp::Add(k, v) => {
                    self.add(k, v);
                },
                BatchOp::Del(k, v) => {
                    if !self.del(k, v) {
                        proof {
                            lemma_apply_ops_stuck(old(self)@, ov, i as int);
                        }
                        return Err("key not found".to_owned());
                    }
                },
            }
        }
        assert(ov.take(n as int) =~= ov);
        Ok(())
    }

    /// The number of keys held.
    pub fn len(&self) -> (r: usize)
        ensures
            r == held_keys(self@).len(),
    {
        proof {
            use_type_invariant(self);
            let ev = entry_views(self.entries@);
            let ks = entry_keys(ev);
            assert forall|i: int, j: int| 0 <= i < ks.len() && 0 <= j < ks.len() && i != j implies ks[i] != ks[j] by {
                lemma_key_order(ev[i].0, ev[j].0, ev[j].0);
                if i < j {
                    assert(key_order(ev[i].0, ev[j].0) == Order::Less);
                } else {
                    assert(key_order(ev[j].0, ev[i].0) == Order::Less);
                    lemma_key_order(ev[j].0, ev[i].0, ev[i].0);
                }
            }
            assert(ks.no_duplicates());
            ks.unique_seq_to_set();
            assert forall|k: IndexKeyV| #[trigger] ks.to_set().contains(k) <==> held_keys(self@).contains(k) by {
                if ks.to_set().contains(k) {
                    let i = choose|i: int| 0 <= i < ks.len() && ks[i] == k;
                    let v = ev[i].1[0];
                    assert(ev[i].1.contains(v));
                    assert(holds(ev, k, v));
                    assert(self@.contains((k, v)));
                }
                if held_keys(self@).contains(k) {
                    let v = choose|v: IndexValueV| #[trigger] self@.contains((k, v));
                    assert(holds(ev, k, v));
                    let i = choose|i: int| 0 <= i < ev.len() && (#[trigger] ev[i]).0 == k && ev[i].1.contains(v);
                    assert(ks[i] == k);
                }
            }
            assert(ks.to_set() =~= held_keys(self@));
        }
        self.entries.len()
    }

    /// Whether no key is held.
    pub fn is_empty(&self) -> (r: bool)
        ensures
            r == (self@ == Set::<(IndexKeyV, IndexValueV)>::empty()),
    {
        proof {
            use_type_invariant(self);
        }
        let r = self.entries.len() == 0;
        proof {
            let ev = entry_views(self.entries@);
            if r {
                assert(self@ =~= Set::<(IndexKeyV, IndexValueV)>::empty());
            } else {
                let v = ev[0].1[0];
                assert(ev[0].1.contains(v));
                assert(holds(ev, ev[0].0, v));
                assert(self@.contains((ev[0].0, v)));
            }
        }
        r
    }
}

/// A failed change fails the whole batch.
proof fn lemma_apply_ops_stuck(pairs: Set<(IndexKeyV, IndexValueV)>, ops: Seq<BatchOpV>, i: int)
    requires
        0 <= i < ops.len(),
        apply_ops(pairs, ops.take(i)).1,
        apply_op(apply_ops(pairs, ops.take(i)).0, ops[i]) is None,
    ensures
        apply_ops(pairs, ops) == (apply_ops(pairs, ops.take(i)).0, false),
    decreases ops.len(),
{
    if i == ops.len() - 1 {
        assert(ops.drop_last() =~= ops.take(i));
    } else {
        assert(ops.drop_last().take(i) =~= ops.take(i));
        lemma_apply_ops_stuck(pairs, ops.drop_last(), i);
    }
}

} // verus!

verus! {

/// The values held under an entry's key are those of the entry.
proof fn lemma_entry_holds(e: Seq<(IndexKeyV, Seq<IndexValueV>)>, p: int)
    requires
        entries_wf(e),
        0 <= p < e.len(),
    ensures
        forall|b: IndexValueV| #[trigger] holds(e, e[p].0, b) <==> e[p].1.contains(b),
{
    assert forall|b: IndexValueV| #[trigger] holds(e, e[p].0, b) <==> e[p].1.contains(b) by {
        if holds(e, e[p].0, b) {
            let i = choose|i: int| 0 <= i < e.len() && (#[trigger] e[i]).0 == e[p].0 && e[i].1.contains(b);
            if i != p {
                lemma_key_order(e[i].0, e[p].0, e[p].0);
                if i < p {
                    assert(key_order(e[i].0, e[p].0) == Order::Less);
                } else {
                    assert(key_order(e[p].0, e[i].0) == Order::Less);
                }
            }
        }
        if e[p].1.contains(b) {
            assert(holds(e, e[p].0, b));
        }
    }
}

/// The first of a strictly increasing list is its least, the last its
/// greatest.
proof fn lemma_ivalue_ends(s: Seq<IndexValueV>)
    requires
        ivalues_increase(s),
        s.len() > 0,
    ensures
        forall|v: IndexValueV| s.contains(v) ==> ivalue_order(s[0], v) != Order::Greater && ivalue_order(v, s.last())
            != Order::Greater,
{
    assert forall|v: IndexValueV| s.contains(v) implies ivalue_order(s[0], v) != Order::Greater && ivalue_order(v, s.last())
        != Order::Greater by {
        let i = choose|i: int| 0 <= i < s.len() && s[i] == v;
        lemma_ivalue_order(s[0], v, v);
        lemma_ivalue_order(v, s.last(), s.last());
        if i > 0 {
            assert(ivalue_order(s[0], s[i]) == Order::Less);
        }
        if i < s.len() - 1 {
            assert(ivalue_order(s[i], s[s.len() - 1]) == Order::Less);
        }
    }
}

/// What a scan reports of a key: that it lies in the range, and the least
/// and the greatest value held under it.
pub open spec fn scan_item_ok(pairs: Set<(IndexKeyV, IndexValueV)>, start: KeyBound, end: KeyBound, it: KeyScanItem) -> bool {
    &&& after_start(start, it.key@)
    &&& before_end(end, it.key@)
    &&& pairs.contains((it.key@, it.min@))
    &&& pairs.contains((it.key@, it.max@))
    &&& forall|v: IndexValueV| #[trigger] pairs.contains((it.key@, v)) ==> ivalue_order(it.min@, v) != Order::Greater
        && ivalue_order(v, it.max@) != Order::Greater
}

/// The item reports the entry: its key, its first and its last value.
pub open spec fn item_of_entry(e: Seq<(IndexKeyV, Seq<IndexValueV>)>, m: int, it: KeyScanItem) -> bool {
    &&& it.key@ == e[m].0
    &&& it.min@ == e[m].1[0]
    &&& it.max@ == e[m].1.last()
}

/// What a scan reports of one entry in the range.
proof fn lemma_scan_item(e: Seq<(IndexKeyV, Seq<IndexValueV>)>, i: int, start: KeyBound, end: KeyBound, it: KeyScanItem)
    requires
        entries_wf(e),
        0 <= i < e.len(),
        it.key@ == e[i].0,
        it.min@ == e[i].1[0],
        it.max@ == e[i].1.last(),
        after_start(start, it.key@),
        before_end(end, it.key@),
    ensures
        scan_item_ok(Set::new(|p: (IndexKeyV, IndexValueV)| holds(e, p.0, p.1)), start, end, it),
{
    let pairs = Set::new(|p: (IndexKeyV, IndexValueV)| holds(e, p.0, p.1));
    let s = e[i].1;
    lemma_entry_holds(e, i);
    lemma_ivalue_ends(s);
    assert(s.contains(s[0]));
    assert(s.contains(s[s.len() - 1]));
    assert(holds(e, it.key@, it.min@));
    assert(holds(e, it.key@, it.max@));
    assert forall|v: IndexValueV| #[trigger] pairs.contains((it.key@, v)) implies ivalue_order(it.min@, v)
        != Order::Greater && ivalue_order(v, it.max@) != Order::Greater by {
        assert(holds(e, it.key@, v));
        assert(s.contains(v));
    }
}

impl LLRBBackend {
    /// The keys held in a range, in increasing order, each with the least
    /// and the greatest value held under it.
    pub fn key_scan(&self, start: &KeyBound, end: &KeyBound) -> (r: Result<Vec<KeyScanItem>, String>)
        ensures
            r is Ok,
            r matches Ok(items) ==> {
                &&& forall|i: int, j: int| 0 <= i < j < items@.len() ==> key_order(
                    (#[trigger] items@[i]).key@,
                    (#[trigger] items@[j]).key@,
                ) == Order::Less
                &&& forall|i: int| 0 <= i < items@.len() ==> scan_item_ok(self@, *start, *end, #[trigger] items@[i])
                &&& forall|k: IndexKeyV| #[trigger] held_keys(self@).contains(k) && after_start(*start, k) && before_end(
                    *end,
                    k,
                ) ==> exists|i: int| 0 <= i < items@.len() && (#[trigger] items@[i]).key@ == k
            },
    {
        proof {
            use_type_invariant(self);
        }
        let ghost e = entry_views(self.entries@);
        let n = self.entries.len();
        let mut items: Vec<KeyScanItem> = Vec::new();
        let ghost mut idx: Seq<int> = Seq::empty();
        for i in 0..n
            invariant
                n == self.entries@.len(),
                e == entry_views(self.entries@),
                entries_wf(e),
                idx.len() == items@.len(),
                forall|a: int| 0 <= a < idx.len() ==> 0 <= #[trigger] idx[a] < i && item_of_entry(e, idx[a], items@[a]),
                forall|a: int, b: int| 0 <= a < b < idx.len() ==> #[trigger] idx[a] < #[trigger] idx[b],
                forall|a: int| 0 <= a < items@.len() ==> after_start(*start, (#[trigger] items@[a]).key@) && before_end(*end, items@[a].key@),
                forall|m: int| 0 <= m < i && after_start(*start, (#[trigger] e[m]).0) && before_end(*end, e[m].0) ==> idx.contains(m),
        {
            let entry = &self.entries[i];
            assert(e[i as int].0 == entry.0@);
            if Self::starts_before(start, &entry.0) && Self::ends_after(end, &entry.0) {
                let vals = &entry.1;
                let last = vals.len() - 1;
                let it = KeyScanItem { key: entry.0.clone_key(), min: vals[0].duplicate(), max: vals[last].duplicate() };
                proof {
                    assert(ivalue_views(vals@)[0] == it.min@);
                    assert(ivalue_views(vals@)[last as int] == it.max@);
                    assert(item_of_entry(e, i as int, it));
                }
                let ghost old_idx = idx;
                items.push(it);
                proof {
                    idx = idx.push(i as int);
                    assert forall|m: int| 0 <= m < i + 1 && after_start(*start, (#[trigger] e[m]).0) && before_end(*end, e[m].0) implies idx.contains(m) by {
                        if m < i {
                            let a = choose|a: int| 0 <= a < old_idx.len() && old_idx[a] == m;
                            assert(idx[a] == m);
                        } else {
                            assert(idx[idx.len() - 1] == m);
                        }
                    }
                }
            }
        }
        proof {
            assert forall|a: int, b: int| 0 <= a < b < items@.len() implies key_order(
                (#[trigger] items@[a]).key@,
                (#[trigger] items@[b]).key@,
            ) == Order::Less by {
                assert(idx[a] < idx[b]);
                assert(item_of_entry(e, idx[a], items@[a]));
                assert(item_of_entry(e, idx[b], items@[b]));
            }
            assert forall|a: int| 0 <= a < items@.len() implies scan_item_ok(self@, *start, *end, #[trigger] items@[a]) by {
                assert(item_of_entry(e, idx[a], items@[a]));
                lemma_scan_item(e, idx[a], *start, *end, items@[a]);
            }
            assert forall|k: IndexKeyV| #[trigger] held_keys(self@).contains(k) && after_start(*start, k) && before_end(*end, k)
                implies exists|a: int| 0 <= a < items@.len() && (#[trigger] items@[a]).key@ == k by {
                let v = choose|v: IndexValueV| #[trigger] self@.contains((k, v));
                assert(holds(e, k, v));
                let m = choose|m: int| 0 <= m < e.len() && (#[trigger] e[m]).0 == k && e[m].1.contains(v);
                assert(after_start(*start, e[m].0));
                assert(idx.contains(m));
                let a = choose|a: int| 0 <= a < idx.len() && idx[a] == m;
                assert(item_of_entry(e, idx[a], items@[a]));
            }
        }
        Ok(items)
    }

    /// The values held under a key that lie in a range, in increasing
    /// order; an error where no value is held under the key.
    pub fn value_scan(&self, key: &IndexKey, start: &ValueBound, end: &ValueBound) -> (r: Result<Vec<IndexValue>, String>)
        ensures
            r is Ok <==> has_key(self@, key@),
            r matches Err(e) ==> e@ == "key not found"@,
            r matches Ok(vals) ==> {
                &&& forall|i: int, j: int| 0 <= i < j < vals@.len() ==> ivalue_order(
                    (#[trigger] vals@[i])@,
                    (#[trigger] vals@[j])@,
                ) == Order::Less
                &&& forall|i: int| 0 <= i < vals@.len() ==> self@.contains((key_normal(key@), (#[trigger] vals@[i])@))
                    && value_after_start(*start, vals@[i]@) && value_before_end(*end, vals@[i]@)
                &&& forall|v: IndexValueV| #[trigger] self@.contains((key_normal(key@), v)) && value_after_start(*start, v)
                    && value_before_end(*end, v) ==> exists|i: int| 0 <= i < vals@.len() && (#[trigger] vals@[i])@ == v
            },
    {
        proof {
            use_type_invariant(self);
        }
        let ghost e = entry_views(self.entries@);
        proof {
            lemma_has_key(e, key@);
        }
        let nk = key.normalized();
        proof {
            lemma_key_normal_idempotent(key@);
        }
        let p = find_key(&self.entries, &nk);
        let n = self.entries.len();
        if !(p < n && self.entries[p].0.compare(&nk) == Order::Equal) {
            proof {
                if p < n {
                    lemma_key_order(e[p as int].0, nk@, nk@);
                }
                lemma_key_absent(e, p as int, nk@);
            }
            return Err("key not found".to_owned());
        }
        proof {
            lemma_key_order(e[p as int].0, nk@, nk@);
            assert(e[p as int].0 == nk@);
            lemma_entry_holds(e, p as int);
        }
        let vals = &self.entries[p].1;
        let ghost s = e[p as int].1;
        assert(s == ivalue_views(vals@));
        let m = vals.len();
        let mut out: Vec<IndexValue> = Vec::new();
        let ghost mut idx: Seq<int> = Seq::empty();
        for i in 0..m
            invariant
                m == vals@.len(),
                s == ivalue_views(vals@),
                ivalues_increase(s),
                idx.len() == out@.len(),
                forall|a: int| 0 <= a < idx.len() ==> 0 <= #[trigger] idx[a] < i && out@[a]@ == s[idx[a]],
                forall|a: int, b: int| 0 <= a < b < idx.len() ==> #[trigger] idx[a] < #[trigger] idx[b],
                forall|a: int| 0 <= a < out@.len() ==> value_after_start(*start, (#[trigger] out@[a])@) && value_before_end(*end, out@[a]@),
                forall|j: int| 0 <= j < i && value_after_start(*start, #[trigger] s[j]) && value_before_end(*end, s[j]) ==> idx.contains(j),
        {
            assert(s[i as int] == vals@[i as int]@);
            if Self::value_starts_before(start, &vals[i]) && Self::value_ends_after(end, &vals[i]) {
                let ghost old_idx = idx;
                out.push(vals[i].duplicate());
                proof {
                    idx = idx.push(i as int);
                    assert forall|j: int| 0 <= j < i + 1 && value_after_start(*start, #[trigger] s[j]) && value_before_end(*end, s[j]) implies idx.contains(j) by {
                        if j < i {
                            let a = choose|a: int| 0 <= a < old_idx.len() && old_idx[a] == j;
                            assert(idx[a] == j);
                        } else {
                            assert(idx[idx.len() - 1] == j);
                        }
                    }
                }
            }
        }
        proof {
            assert forall|a: int, b: int| 0 <= a < b < out@.len() implies ivalue_order(
                (#[trigger] out@[a])@,
                (#[trigger] out@[b])@,
            ) == Order::Less by {
                assert(idx[a] < idx[b]);
            }
            assert forall|a: int| 0 <= a < out@.len() implies self@.contains((key_normal(key@), (#[trigger] out@[a])@)) by {
                assert(out@[a]@ == s[idx[a]]);
                assert(s.contains(s[idx[a]]));
                assert(holds(e, e[p as int].0, out@[a]@));
            }
            assert forall|v: IndexValueV| #[trigger] self@.contains((key_normal(key@), v)) && value_after_start(*start, v)
                && value_before_end(*end, v) implies exists|a: int| 0 <= a < out@.len() && (#[trigger] out@[a])@ == v by {
                assert(holds(e, e[p as int].0, v));
                assert(s.contains(v));
                let j = choose|j: int| 0 <= j < s.len() && s[j] == v;
                assert(idx.contains(j));
                let a = choose|a: int| 0 <= a < idx.len() && idx[a] == j;
                assert(out@[a]@ == v);
            }
        }
        Ok(out)
    }

    /// Whether a value lies at or after the start bound.
    fn value_starts_before(start: &ValueBound, v: &IndexValue) -> (r: bool)
        ensures
            r == value_after_start(*start, v@),
    {
        match start {
            ValueBound::Included(s) => s.compare(v) != Order::Greater,
            ValueBound::Excluded(s) => s.compare(v) == Order::Less,
            ValueBound::Unbounded => true,
        }
    }

    /// Whether a value lies at or before the end bound.
    fn value_ends_after(end: &ValueBound, v: &IndexValue) -> (r: bool)
        ensures
            r == value_before_end(*end, v@),
    {
        match end {
            ValueBound::Included(s) => v.compare(s) != Order::Greater,
            ValueBound::Excluded(s) => v.compare(s) == Order::Less,
            ValueBound::Unbounded => true,
        }
    }

    /// Whether a key lies at or after the start bound.
    fn starts_before(start: &KeyBound, k: &IndexKey) -> (r: bool)
        ensures
            r == after_start(*start, k@),
    {
        match start {
            KeyBound::Included(s) => s.compare(k) != Order::Greater,
            KeyBound::Excluded(s) => s.compare(k) == Order::Less,
            KeyBound::Unbounded => true,
        }
    }

    /// Whether a key lies at or before the end bound.
    fn ends_after(end: &KeyBound, k: &IndexKey) -> (r: bool)
        ensures
            r == before_end(*end, k@),
    {
        match end {
            KeyBound::Included(s) => k.compare(s) != Order::Greater,
            KeyBound::Excluded(s) => k.compare(s) == Order::Less,
            KeyBound::Unbounded => true,
        }
    }
}

} // verus!

verus! {

/// Adding a value under a key and then taking it away succeeds and leaves
/// the pairs as they were, where the pair was not held before.
pub proof fn lemma_add_then_del(pairs: Set<(IndexKeyV, IndexValueV)>, k: IndexKeyV, v: IndexValueV)
    requires
        !pairs.contains((key_normal(k), v)),
    ensures
        apply_ops(pairs, seq![BatchOpV::Add(k, v), BatchOpV::Del(k, v)]) == (pairs, true),
{
    let ops = seq![BatchOpV::Add(k, v), BatchOpV::Del(k, v)];
    assert(ops.drop_last() =~= seq![BatchOpV::Add(k, v)]);
    assert(seq![BatchOpV::Add(k, v)].drop_last() =~= Seq::<BatchOpV>::empty());
    let added = pairs.insert((key_normal(k), v));
    assert(apply_ops(pairs, Seq::<BatchOpV>::empty()) == (pairs, true));
    assert(apply_op(pairs, BatchOpV::Add(k, v)) == Some(added));
    assert(apply_ops(pairs, seq![BatchOpV::Add(k, v)]) == (added, true));
    assert(has_key(added, k)) by {
        assert(added.contains((key_normal(k), v)));
    }
    assert(added.remove((key_normal(k), v)) =~= pairs);
}

} // verus!
