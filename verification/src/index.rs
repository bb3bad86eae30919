//! An in-memory inverted index of entities: which entities exist, which
//! fields each one has, and which values are found in each field; and the
//! search of the entities that a query selects.

use vstd::prelude::*;
use crate::bql::{normal, value_order, value_views, Value, ValueV, BQL, BqlV};
use crate::resource::{kind_error, resource_json};
use crate::data::{Entity, EntityID, EntityKind};
use crate::idset::{combined, copy_text, merge, sorted, texts, with_text, without_text, SetOperation};
use crate::json::{field_values, field_name, field_value_views, path_name, string_views, to_field_values, FieldValue, FieldValueV};
use crate::order::Order;
use crate::text::{chars_eq, chars_of, string_from_chars};

verus! {

/// The mathematical value of an [`Index`]: the identifiers of the indexed
/// entities; the pairs of a field name and an identifier that has the
/// field; the triples of a field name, a value found there and the
/// identifier; and the pairs of a field name and a value that were ever
/// indexed, which stay known after the entities leave.
pub struct IndexV {
    pub world: Set<Seq<char>>,
    pub fields: Set<(Seq<char>, Seq<char>)>,
    pub values: Set<(Seq<char>, ValueV, Seq<char>)>,
    pub keys: Set<(Seq<char>, ValueV)>,
}

/// The inverted index.
pub struct Index {
    world: Vec<Vec<char>>,
    fields: Vec<(Vec<char>, Vec<char>)>,
    values: Vec<(Vec<char>, Value, Vec<char>)>,
    keys: Vec<(Vec<char>, Value)>,
}

pub open spec fn pair_views(v: Seq<(Vec<char>, Vec<char>)>) -> Seq<(Seq<char>, Seq<char>)> {
    v.map_values(|p: (Vec<char>, Vec<char>)| (p.0@, p.1@))
}

pub open spec fn triple_views(v: Seq<(Vec<char>, Value, Vec<char>)>) -> Seq<(Seq<char>, ValueV, Seq<char>)> {
    v.map_values(|t: (Vec<char>, Value, Vec<char>)| (t.0@, t.1@, t.2@))
}

pub open spec fn key_views(v: Seq<(Vec<char>, Value)>) -> Seq<(Seq<char>, ValueV)> {
    v.map_values(|k: (Vec<char>, Value)| (k.0@, k.1@))
}

impl View for Index {
    type V = IndexV;

    closed spec fn view(&self) -> IndexV {
        IndexV {
            world: texts(self.world@).to_set(),
            fields: pair_views(self.fields@).to_set(),
            values: triple_views(self.values@).to_set(),
            keys: key_views(self.keys@).to_set(),
        }
    }
}

/// The names of the fields that a path passes through: `.` and the name of
/// every prefix of the path, the whole path included.
pub open spec fn prefix_names(path: Seq<Seq<char>>) -> Set<Seq<char>> {
    Set::new(|f: Seq<char>| exists|k: int| 0 <= k <= path.len() && f == field_name(#[trigger] path.take(k)))
}

/// The field pairs that field values give an identifier.
pub open spec fn field_pairs_of(id: Seq<char>, fvs: Seq<FieldValueV>) -> Set<(Seq<char>, Seq<char>)> {
    Set::new(
        |p: (Seq<char>, Seq<char>)|
            p.1 == id && exists|i: int| 0 <= i < fvs.len() && #[trigger] prefix_names(fvs[i].0).contains(p.0),
    )
}

/// The value triples that field values give an identifier.
pub open spec fn value_triples_of(id: Seq<char>, fvs: Seq<FieldValueV>) -> Set<(Seq<char>, ValueV, Seq<char>)> {
    Set::new(
        |t: (Seq<char>, ValueV, Seq<char>)|
            t.2 == id && exists|i: int|
                0 <= i < fvs.len() && t.0 == field_name(#[trigger] fvs[i].0) && t.1 == normal(fvs[i].1),
    )
}

/// The field and value pairs of field values.
pub open spec fn value_keys_of(fvs: Seq<FieldValueV>) -> Set<(Seq<char>, ValueV)> {
    Set::new(
        |k: (Seq<char>, ValueV)|
            exists|i: int| 0 <= i < fvs.len() && k.0 == field_name(#[trigger] fvs[i].0) && k.1 == normal(fvs[i].1),
    )
}

/// The index after an entity with identifier `id` and field values `fvs`
/// is added: the entity exists if it has a field value; it has every field
/// that a value's path passes through; and each value is found in the field
/// of its path.
pub open spec fn indexed(m: IndexV, id: Seq<char>, fvs: Seq<FieldValueV>) -> IndexV {
    IndexV {
        world: if fvs.len() > 0 { m.world.insert(id) } else { m.world },
        fields: m.fields + field_pairs_of(id, fvs),
        values: m.values + value_triples_of(id, fvs),
        keys: m.keys + value_keys_of(fvs),
    }
}

/// The index after an entity with identifier `id` and field values `fvs`
/// is taken out: what [`indexed`] adds for it is removed again, but the
/// field and value pairs stay known.
pub open spec fn unindexed(m: IndexV, id: Seq<char>, fvs: Seq<FieldValueV>) -> IndexV {
    IndexV {
        world: if fvs.len() > 0 { m.world.remove(id) } else { m.world },
        fields: m.fields - field_pairs_of(id, fvs),
        values: m.values - value_triples_of(id, fvs),
        keys: m.keys + value_keys_of(fvs),
    }
}

/// Adds a pair unless it is there.
fn add_pair(v: &mut Vec<(Vec<char>, Vec<char>)>, f: &Vec<char>, x: &Vec<char>)
    ensures
        pair_views(final(v)@).to_set() == pair_views(old(v)@).to_set().insert((f@, x@)),
{
    let n = v.len();
    for i in 0..n
        invariant
            n == v@.len(),
            forall|j: int| 0 <= j < i ==> #[trigger] pair_views(v@)[j] != (f@, x@),
    {
        if chars_eq(&v[i].0, f) && chars_eq(&v[i].1, x) {
            assert(pair_views(v@)[i as int] == (f@, x@));
            assert(pair_views(v@).to_set() =~= pair_views(v@).to_set().insert((f@, x@)));
            return;
        }
    }
    let ghost before = pair_views(v@);
    v.push((copy_text(f), copy_text(x)));
    assert(pair_views(v@) =~= before.push((f@, x@)));
    assert(pair_views(v@).to_set() =~= before.to_set().insert((f@, x@))) by {
        assert forall|p: (Seq<char>, Seq<char>)| #[trigger] pair_views(v@).contains(p) <==> (before.contains(p) || p == (f@, x@)) by {
            if before.contains(p) {
                let j = choose|j: int| 0 <= j < before.len() && before[j] == p;
                assert(pair_views(v@)[j] == p);
            }
            if p == (f@, x@) {
                assert(pair_views(v@)[before.len() as int] == p);
            }
        }
    }
}

/// The pairs without the given one.
fn drop_pair(v: &Vec<(Vec<char>, Vec<char>)>, f: &Vec<char>, x: &Vec<char>) -> (r: Vec<(Vec<char>, Vec<char>)>)
    ensures
        pair_views(r@).to_set() == pair_views(v@).to_set().remove((f@, x@)),
{
    let mut r: Vec<(Vec<char>, Vec<char>)> = Vec::new();
    let n = v.len();
    for i in 0..n
        invariant
            n == v@.len(),
            forall|p: (Seq<char>, Seq<char>)| #[trigger] pair_views(r@).contains(p) <==> (pair_views(v@).take(i as int).contains(p) && p != (f@, x@)),
    {
        let ghost before = pair_views(r@);
        assert(pair_views(v@).take(i + 1) =~= pair_views(v@).take(i as int).push(pair_views(v@)[i as int]));
        if !(chars_eq(&v[i].0, f) && chars_eq(&v[i].1, x)) {
            r.push((copy_text(&v[i].0), copy_text(&v[i].1)));
            assert(pair_views(r@) =~= before.push(pair_views(v@)[i as int]));
        }
        assert forall|p: (Seq<char>, Seq<char>)| #[trigger] pair_views(r@).contains(p) <==> (pair_views(v@).take(i + 1).contains(p) && p != (f@, x@)) by {
            let t = pair_views(v@).take(i + 1);
            if t.contains(p) {
                let j = choose|j: int| 0 <= j < t.len() && t[j] == p;
                if j < i {
                    assert(pair_views(v@).take(i as int)[j] == p);
                }
            }
            if pair_views(v@).take(i as int).contains(p) {
                let j = choose|j: int| 0 <= j < i && pair_views(v@).take(i as int)[j] == p;
                assert(t[j] == p);
            }
            if pair_views(r@).contains(p) && !before.contains(p) {
                let j = choose|j: int| 0 <= j < pair_views(r@).len() && pair_views(r@)[j] == p;
                if j < before.len() {
                    assert(before[j] == p);
                }
                assert(t[i as int] == p);
            }
            if before.contains(p) {
                let j = choose|j: int| 0 <= j < before.len() && before[j] == p;
                assert(pair_views(r@)[j] == p);
            }
            if t.contains(p) && p != (f@, x@) && !pair_views(v@).take(i as int).contains(p) {
                assert(p == pair_views(v@)[i as int]);
                assert(pair_views(r@)[pair_views(r@).len() - 1] == p);
            }
        }
    }
    assert(pair_views(v@).take(n as int) =~= pair_views(v@));
    assert(pair_views(r@).to_set() =~= pair_views(v@).to_set().remove((f@, x@)));
    r
}

/// Whether two values have the same representative.
fn same_value(a: &Value, b: &Value) -> (r: bool)
    ensures
        r == (normal(a@) == normal(b@)),
{
    let o = a.compare(b);
    proof {
        crate::bql::lemma_value_order(a@, b@, b@);
    }
    o == Order::Equal
}

/// Adds a triple unless it is there.
fn add_triple(v: &mut Vec<(Vec<char>, Value, Vec<char>)>, f: &Vec<char>, val: &Value, x: &Vec<char>)
    requires
        forall|j: int| 0 <= j < old(v)@.len() ==> #[trigger] old(v)@[j].1@ == normal(old(v)@[j].1@),
        val@ == normal(val@),
    ensures
        triple_views(final(v)@).to_set() == triple_views(old(v)@).to_set().insert((f@, val@, x@)),
        forall|j: int| 0 <= j < final(v)@.len() ==> #[trigger] final(v)@[j].1@ == normal(final(v)@[j].1@),
{
    let n = v.len();
    for i in 0..n
        invariant
            n == v@.len(),
            val@ == normal(val@),
            forall|j: int| 0 <= j < v@.len() ==> #[trigger] v@[j].1@ == normal(v@[j].1@),
            forall|j: int| 0 <= j < i ==> #[trigger] triple_views(v@)[j] != (f@, val@, x@),
    {
        assert(v@[i as int].1@ == normal(v@[i as int].1@));
        if chars_eq(&v[i].0, f) && same_value(&v[i].1, val) && chars_eq(&v[i].2, x) {
            assert(triple_views(v@)[i as int] == (f@, val@, x@));
            assert(triple_views(v@).to_set() =~= triple_views(v@).to_set().insert((f@, val@, x@)));
            return;
        }
    }
    let ghost before = triple_views(v@);
    let ghost raw = v@;
    v.push((copy_text(f), val.duplicate(), copy_text(x)));
    assert forall|j: int| 0 <= j < v@.len() implies #[trigger] v@[j].1@ == normal(v@[j].1@) by {
        if j < raw.len() {
            assert(v@[j] == raw[j]);
        }
    }
    assert(triple_views(v@) =~= before.push((f@, val@, x@)));
    assert(triple_views(v@).to_set() =~= before.to_set().insert((f@, val@, x@))) by {
        assert forall|t: (Seq<char>, ValueV, Seq<char>)| #[trigger] triple_views(v@).contains(t) <==> (before.contains(t) || t == (f@, val@, x@)) by {
            if before.contains(t) {
                let j = choose|j: int| 0 <= j < before.len() && before[j] == t;
                assert(triple_views(v@)[j] == t);
            }
            if t == (f@, val@, x@) {
                assert(triple_views(v@)[before.len() as int] == t);
            }
        }
    }
}

/// The triples without the given one.
fn drop_triple(v: &Vec<(Vec<char>, Value, Vec<char>)>, f: &Vec<char>, val: &Value, x: &Vec<char>) -> (r: Vec<(Vec<char>, Value, Vec<char>)>)
    requires
        forall|j: int| 0 <= j < v@.len() ==> #[trigger] v@[j].1@ == normal(v@[j].1@),
        val@ == normal(val@),
    ensures
        triple_views(r@).to_set() == triple_views(v@).to_set().remove((f@, val@, x@)),
        forall|j: int| 0 <= j < r@.len() ==> #[trigger] r@[j].1@ == normal(r@[j].1@),
{
    let mut r: Vec<(Vec<char>, Value, Vec<char>)> = Vec::new();
    let n = v.len();
    for i in 0..n
        invariant
            n == v@.len(),
            val@ == normal(val@),
            forall|j: int| 0 <= j < v@.len() ==> #[trigger] v@[j].1@ == normal(v@[j].1@),
            forall|j: int| 0 <= j < r@.len() ==> #[trigger] r@[j].1@ == normal(r@[j].1@),
            forall|t: (Seq<char>, ValueV, Seq<char>)| #[trigger] triple_views(r@).contains(t) <==> (triple_views(v@).take(i as int).contains(t) && t != (f@, val@, x@)),
    {
        let ghost before = triple_views(r@);
        assert(triple_views(v@).take(i + 1) =~= triple_views(v@).take(i as int).push(triple_views(v@)[i as int]));
        assert(v@[i as int].1@ == normal(v@[i as int].1@));
        if !(chars_eq(&v[i].0, f) && same_value(&v[i].1, val) && chars_eq(&v[i].2, x)) {
            let ghost raw = r@;
            let d = v[i].1.duplicate();
            assert(d@ == normal(d@));
            r.push((copy_text(&v[i].0), d, copy_text(&v[i].2)));
            assert forall|j: int| 0 <= j < r@.len() implies #[trigger] r@[j].1@ == normal(r@[j].1@) by {
                if j < raw.len() {
                    assert(r@[j] == raw[j]);
                    assert(raw[j].1@ == normal(raw[j].1@));
                } else {
                    assert(r@[j].1 == d);
                }
            }
            assert(triple_views(r@) =~= before.push(triple_views(v@)[i as int]));
        }
        assert(forall|j: int| 0 <= j < r@.len() ==> #[trigger] r@[j].1@ == normal(r@[j].1@));
        assert forall|t: (Seq<char>, ValueV, Seq<char>)| #[trigger] triple_views(r@).contains(t) <==> (triple_views(v@).take(i + 1).contains(t) && t != (f@, val@, x@)) by {
            let w = triple_views(v@).take(i + 1);
            if w.contains(t) {
                let j = choose|j: int| 0 <= j < w.len() && w[j] == t;
                if j < i {
                    assert(triple_views(v@).take(i as int)[j] == t);
                }
            }
            if triple_views(v@).take(i as int).contains(t) {
                let j = choose|j: int| 0 <= j < i && triple_views(v@).take(i as int)[j] == t;
                assert(w[j] == t);
            }
            if triple_views(r@).contains(t) && !before.contains(t) {
                let j = choose|j: int| 0 <= j < triple_views(r@).len() && triple_views(r@)[j] == t;
                if j < before.len() {
                    assert(before[j] == t);
                }
                assert(w[i as int] == t);
            }
            if before.contains(t) {
                let j = choose|j: int| 0 <= j < before.len() && before[j] == t;
                assert(triple_views(r@)[j] == t);
            }
            if w.contains(t) && t != (f@, val@, x@) && !triple_views(v@).take(i as int).contains(t) {
                assert(t == triple_views(v@)[i as int]);
                assert(triple_views(r@)[triple_views(r@).len() - 1] == t);
            }
        }
    }
    assert(triple_views(v@).take(n as int) =~= triple_views(v@));
    assert(triple_views(r@).to_set() =~= triple_views(v@).to_set().remove((f@, val@, x@)));
    r
}

/// Adds a field and value pair unless it is there.
fn add_key(v: &mut Vec<(Vec<char>, Value)>, f: &Vec<char>, val: &Value)
    requires
        forall|j: int| 0 <= j < old(v)@.len() ==> #[trigger] old(v)@[j].1@ == normal(old(v)@[j].1@),
        val@ == normal(val@),
    ensures
        key_views(final(v)@).to_set() == key_views(old(v)@).to_set().insert((f@, val@)),
        forall|j: int| 0 <= j < final(v)@.len() ==> #[trigger] final(v)@[j].1@ == normal(final(v)@[j].1@),
{
    let n = v.len();
    for i in 0..n
        invariant
            n == v@.len(),
            val@ == normal(val@),
            forall|j: int| 0 <= j < v@.len() ==> #[trigger] v@[j].1@ == normal(v@[j].1@),
            forall|j: int| 0 <= j < i ==> #[trigger] key_views(v@)[j] != (f@, val@),
    {
        assert(v@[i as int].1@ == normal(v@[i as int].1@));
        if chars_eq(&v[i].0, f) && same_value(&v[i].1, val) {
            assert(key_views(v@)[i as int] == (f@, val@));
            assert(key_views(v@).to_set() =~= key_views(v@).to_set().insert((f@, val@)));
            return;
        }
    }
    let ghost before = key_views(v@);
    let ghost raw = v@;
    v.push((copy_text(f), val.duplicate()));
    assert forall|j: int| 0 <= j < v@.len() implies #[trigger] v@[j].1@ == normal(v@[j].1@) by {
        if j < raw.len() {
            assert(v@[j] == raw[j]);
        }
    }
    assert(key_views(v@) =~= before.push((f@, val@)));
    assert(key_views(v@).to_set() =~= before.to_set().insert((f@, val@))) by {
        assert forall|k: (Seq<char>, ValueV)| #[trigger] key_views(v@).contains(k) <==> (before.contains(k) || k == (f@, val@)) by {
            if before.contains(k) {
                let j = choose|j: int| 0 <= j < before.len() && before[j] == k;
                assert(key_views(v@)[j] == k);
            }
            if k == (f@, val@) {
                assert(key_views(v@)[before.len() as int] == k);
            }
        }
    }
}

/// The field pairs that one path gives an identifier.
pub open spec fn path_pairs(id: Seq<char>, path: Seq<Seq<char>>) -> Set<(Seq<char>, Seq<char>)> {
    Set::new(|p: (Seq<char>, Seq<char>)| p.1 == id && prefix_names(path).contains(p.0))
}

proof fn lemma_field_pairs_step(id: Seq<char>, fvs: Seq<FieldValueV>, i: int)
    requires
        0 <= i < fvs.len(),
    ensures
        field_pairs_of(id, fvs.take(i + 1)) == field_pairs_of(id, fvs.take(i)) + path_pairs(id, fvs[i].0),
{
    let a = fvs.take(i + 1);
    let b = fvs.take(i);
    assert forall|p: (Seq<char>, Seq<char>)| #[trigger] field_pairs_of(id, a).contains(p) <==> (field_pairs_of(id, b) + path_pairs(id, fvs[i].0)).contains(p) by {
        if field_pairs_of(id, a).contains(p) {
            let j = choose|j: int| 0 <= j < a.len() && #[trigger] prefix_names(a[j].0).contains(p.0);
            if j < i {
                assert(b[j] == a[j]);
                assert(prefix_names(b[j].0).contains(p.0));
            } else {
                assert(a[j] == fvs[i]);
            }
        }
        if field_pairs_of(id, b).contains(p) {
            let j = choose|j: int| 0 <= j < b.len() && #[trigger] prefix_names(b[j].0).contains(p.0);
            assert(a[j] == b[j]);
            assert(prefix_names(a[j].0).contains(p.0));
        }
        if path_pairs(id, fvs[i].0).contains(p) {
            assert(a[i] == fvs[i]);
            assert(prefix_names(a[i].0).contains(p.0));
        }
    }
    assert(field_pairs_of(id, a) =~= field_pairs_of(id, b) + path_pairs(id, fvs[i].0));
}

proof fn lemma_value_triples_step(id: Seq<char>, fvs: Seq<FieldValueV>, i: int)
    requires
        0 <= i < fvs.len(),
    ensures
        value_triples_of(id, fvs.take(i + 1)) == value_triples_of(id, fvs.take(i)).insert(
            (field_name(fvs[i].0), normal(fvs[i].1), id),
        ),
        value_keys_of(fvs.take(i + 1)) == value_keys_of(fvs.take(i)).insert((field_name(fvs[i].0), normal(fvs[i].1))),
{
    let a = fvs.take(i + 1);
    let b = fvs.take(i);
    let t0 = (field_name(fvs[i].0), normal(fvs[i].1), id);
    assert forall|t: (Seq<char>, ValueV, Seq<char>)| #[trigger] value_triples_of(id, a).contains(t) <==> value_triples_of(id, b).insert(t0).contains(t) by {
        if value_triples_of(id, a).contains(t) {
            let j = choose|j: int| 0 <= j < a.len() && t.0 == field_name(#[trigger] a[j].0) && t.1 == normal(a[j].1);
            if j < i {
                assert(b[j] == a[j]);
                assert(t.0 == field_name(b[j].0));
            } else {
                assert(a[j] == fvs[i]);
            }
        }
        if value_triples_of(id, b).contains(t) {
            let j = choose|j: int| 0 <= j < b.len() && t.0 == field_name(#[trigger] b[j].0) && t.1 == normal(b[j].1);
            assert(a[j] == b[j]);
            assert(t.0 == field_name(a[j].0));
        }
        if t == t0 {
            assert(a[i] == fvs[i]);
            assert(t.0 == field_name(a[i].0));
        }
    }
    assert(value_triples_of(id, a) =~= value_triples_of(id, b).insert(t0));
    let k0 = (field_name(fvs[i].0), normal(fvs[i].1));
    assert forall|k: (Seq<char>, ValueV)| #[trigger] value_keys_of(a).contains(k) <==> value_keys_of(b).insert(k0).contains(k) by {
        if value_keys_of(a).contains(k) {
            let j = choose|j: int| 0 <= j < a.len() && k.0 == field_name(#[trigger] a[j].0) && k.1 == normal(a[j].1);
            if j < i {
                assert(b[j] == a[j]);
                assert(k.0 == field_name(b[j].0));
            } else {
                assert(a[j] == fvs[i]);
            }
        }
        if value_keys_of(b).contains(k) {
            let j = choose|j: int| 0 <= j < b.len() && k.0 == field_name(#[trigger] b[j].0) && k.1 == normal(b[j].1);
            assert(a[j] == b[j]);
            assert(k.0 == field_name(a[j].0));
        }
        if k == k0 {
            assert(a[i] == fvs[i]);
            assert(k.0 == field_name(a[i].0));
        }
    }
    assert(value_keys_of(a) =~= value_keys_of(b).insert(k0));
}

/// The pairs of the first prefixes of a path.
pub open spec fn first_prefix_pairs(id: Seq<char>, path: Seq<Seq<char>>, k: int) -> Set<(Seq<char>, Seq<char>)> {
    Set::new(|p: (Seq<char>, Seq<char>)| p.1 == id && exists|q: int| 0 <= q <= k && p.0 == field_name(#[trigger] path.take(q)))
}

impl Index {
    /// The internal invariant: identifiers are kept sorted and values are
    /// kept by their representative.
    pub closed spec fn wf(&self) -> bool {
        &&& sorted(texts(self.world@))
        &&& forall|j: int| 0 <= j < self.values@.len() ==> #[trigger] self.values@[j].1@ == normal(self.values@[j].1@)
        &&& forall|j: int| 0 <= j < self.keys@.len() ==> #[trigger] self.keys@[j].1@ == normal(self.keys@[j].1@)
    }

    /// The empty index.
    pub fn new() -> (r: Index)
        ensures
            r.wf(),
            r@.world.is_empty(),
            r@.fields.is_empty(),
            r@.values.is_empty(),
            r@.keys.is_empty(),
    {
        let r = Index { world: Vec::new(), fields: Vec::new(), values: Vec::new(), keys: Vec::new() };
        assert(r@.world =~= Set::<Seq<char>>::empty());
        assert(r@.fields =~= Set::<(Seq<char>, Seq<char>)>::empty());
        assert(r@.values =~= Set::<(Seq<char>, ValueV, Seq<char>)>::empty());
        assert(r@.keys =~= Set::<(Seq<char>, ValueV)>::empty());
        r
    }

    /// Adds the pairs of every prefix of a path.
    fn add_path_fields(&mut self, id: &Vec<char>, path: &Vec<String>)
        requires
            old(self).wf(),
        ensures
            final(self).wf(),
            final(self)@ == (IndexV { fields: old(self)@.fields + path_pairs(id@, string_views(path@)), ..old(self)@ }),
    {
        let ghost base = self@.fields;
        let ghost pv = string_views(path@);
        let name0 = path_name(path, 0);
        add_pair(&mut self.fields, &name0, id);
        assert(self@.fields =~= base + first_prefix_pairs(id@, pv, 0)) by {
            assert forall|p: (Seq<char>, Seq<char>)| #[trigger] self@.fields.contains(p) <==> (base + first_prefix_pairs(id@, pv, 0)).contains(p) by {
                if p == (name0@, id@) {
                    assert(p.0 == field_name(pv.take(0)));
                }
            }
        }
        let n = path.len();
        for k in 0..n
            invariant
                n == path@.len(),
                pv == string_views(path@),
                self.wf(),
                self@.world == old(self)@.world,
                self@.values == old(self)@.values,
                self@.keys == old(self)@.keys,
                self@.fields == base + first_prefix_pairs(id@, pv, k as int),
        {
            let name = path_name(path, k + 1);
            let ghost before = self@.fields;
            add_pair(&mut self.fields, &name, id);
            assert(self@.fields =~= base + first_prefix_pairs(id@, pv, k + 1)) by {
                assert forall|p: (Seq<char>, Seq<char>)| #[trigger] self@.fields.contains(p) <==> (base + first_prefix_pairs(id@, pv, k + 1)).contains(p) by {
                    if first_prefix_pairs(id@, pv, k as int).contains(p) {
                        let q = choose|q: int| 0 <= q <= k && p.0 == field_name(#[trigger] pv.take(q));
                        assert(first_prefix_pairs(id@, pv, k + 1).contains(p));
                    }
                    if first_prefix_pairs(id@, pv, k + 1).contains(p) {
                        let q = choose|q: int| 0 <= q <= k + 1 && p.0 == field_name(#[trigger] pv.take(q));
                        if q <= k {
                            assert(first_prefix_pairs(id@, pv, k as int).contains(p));
                        } else {
                            assert(p == (name@, id@));
                        }
                    }
                    if p == (name@, id@) {
                        assert(p.0 == field_name(pv.take(k + 1)));
                    }
                }
            }
        }
        assert(first_prefix_pairs(id@, pv, n as int) =~= path_pairs(id@, pv)) by {
            assert forall|p: (Seq<char>, Seq<char>)| #[trigger] first_prefix_pairs(id@, pv, n as int).contains(p) <==> path_pairs(id@, pv).contains(p) by {
                if path_pairs(id@, pv).contains(p) {
                    let q = choose|q: int| 0 <= q <= pv.len() && p.0 == field_name(#[trigger] pv.take(q));
                }
                if first_prefix_pairs(id@, pv, n as int).contains(p) {
                    let q = choose|q: int| 0 <= q <= n && p.0 == field_name(#[trigger] pv.take(q));
                    assert(prefix_names(pv).contains(p.0));
                }
            }
        }
    }

    /// Adds the identifier and one field value.
    fn add_field_value(&mut self, id: &Vec<char>, fv: &FieldValue)
        requires
            old(self).wf(),
        ensures
            final(self).wf(),
            final(self)@ == (IndexV {
                world: old(self)@.world.insert(id@),
                fields: old(self)@.fields + path_pairs(id@, fv@.0),
                values: old(self)@.values.insert((field_name(fv@.0), normal(fv@.1), id@)),
                keys: old(self)@.keys.insert((field_name(fv@.0), normal(fv@.1))),
            }),
    {
        let ghost w0 = self@.world;
        let new_world = with_text(&self.world, id);
        self.world = new_world;
        assert(self@.world =~= w0.insert(id@));
        let name = path_name(&fv.accessor, fv.accessor.len());
        assert(string_views(fv.accessor@).take(fv.accessor@.len() as int) =~= fv@.0);
        let v = fv.value.normalized();
        add_triple(&mut self.values, &name, &v, id);
        add_key(&mut self.keys, &name, &v);
        self.add_path_fields(id, &fv.accessor);
    }

    /// Takes out the identifier and one field value.
    fn remove_field_value(&mut self, id: &Vec<char>, fv: &FieldValue)
        requires
            old(self).wf(),
        ensures
            final(self).wf(),
            final(self)@ == (IndexV {
                world: old(self)@.world.remove(id@),
                fields: old(self)@.fields - path_pairs(id@, fv@.0),
                values: old(self)@.values.remove((field_name(fv@.0), normal(fv@.1), id@)),
                keys: old(self)@.keys.insert((field_name(fv@.0), normal(fv@.1))),
            }),
    {
        let ghost w0 = self@.world;
        let new_world = without_text(&self.world, id);
        self.world = new_world;
        assert(self@.world =~= w0.remove(id@));
        let name = path_name(&fv.accessor, fv.accessor.len());
        assert(string_views(fv.accessor@).take(fv.accessor@.len() as int) =~= fv@.0);
        let v = fv.value.normalized();
        let new_values = drop_triple(&self.values, &name, &v, id);
        self.values = new_values;
        add_key(&mut self.keys, &name, &v);
        let ghost f0 = self@.fields;
        let pv = &fv.accessor;
        self.remove_path_fields(id, pv);
    }

    /// Takes out the pairs of every prefix of a path.
    fn remove_path_fields(&mut self, id: &Vec<char>, path: &Vec<String>)
        requires
            old(self).wf(),
        ensures
            final(self).wf(),
            final(self)@ == (IndexV { fields: old(self)@.fields - path_pairs(id@, string_views(path@)), ..old(self)@ }),
    {
        let ghost base = self@.fields;
        let ghost pv = string_views(path@);
        let name0 = path_name(path, 0);
        let nf = drop_pair(&self.fields, &name0, id);
        self.fields = nf;
        assert(self@.fields =~= base - first_prefix_pairs(id@, pv, 0)) by {
            assert forall|p: (Seq<char>, Seq<char>)| #[trigger] self@.fields.contains(p) <==> (base - first_prefix_pairs(id@, pv, 0)).contains(p) by {
                if first_prefix_pairs(id@, pv, 0).contains(p) {
                    let q = choose|q: int| 0 <= q <= 0 && p.0 == field_name(#[trigger] pv.take(q));
                    assert(p == (name0@, id@));
                }
                if p == (name0@, id@) {
                    assert(p.0 == field_name(pv.take(0)));
                }
            }
        }
        let n = path.len();
        for k in 0..n
            invariant
                n == path@.len(),
                pv == string_views(path@),
                self.wf(),
                self@.world == old(self)@.world,
                self@.values == old(self)@.values,
                self@.keys == old(self)@.keys,
                self@.fields == base - first_prefix_pairs(id@, pv, k as int),
        {
            let name = path_name(path, k + 1);
            let nf = drop_pair(&self.fields, &name, id);
            self.fields = nf;
            assert(self@.fields =~= base - first_prefix_pairs(id@, pv, k + 1)) by {
                assert forall|p: (Seq<char>, Seq<char>)| #[trigger] self@.fields.contains(p) <==> (base - first_prefix_pairs(id@, pv, k + 1)).contains(p) by {
                    if first_prefix_pairs(id@, pv, k as int).contains(p) {
                        let q = choose|q: int| 0 <= q <= k && p.0 == field_name(#[trigger] pv.take(q));
                        assert(first_prefix_pairs(id@, pv, k + 1).contains(p));
                    }
                    if first_prefix_pairs(id@, pv, k + 1).contains(p) {
                        let q = choose|q: int| 0 <= q <= k + 1 && p.0 == field_name(#[trigger] pv.take(q));
                        if q <= k {
                            assert(first_prefix_pairs(id@, pv, k as int).contains(p));
                        } else {
                            assert(p == (name@, id@));
                        }
                    }
                    if p == (name@, id@) {
                        assert(p.0 == field_name(pv.take(k + 1)));
                    }
                }
            }
        }
        assert(first_prefix_pairs(id@, pv, n as int) =~= path_pairs(id@, pv)) by {
            assert forall|p: (Seq<char>, Seq<char>)| #[trigger] first_prefix_pairs(id@, pv, n as int).contains(p) <==> path_pairs(id@, pv).contains(p) by {
                if path_pairs(id@, pv).contains(p) {
                    let q = choose|q: int| 0 <= q <= pv.len() && p.0 == field_name(#[trigger] pv.take(q));
                }
                if first_prefix_pairs(id@, pv, n as int).contains(p) {
                    let q = choose|q: int| 0 <= q <= n && p.0 == field_name(#[trigger] pv.take(q));
                    assert(prefix_names(pv).contains(p.0));
                }
            }
        }
    }
}

impl Index {
    /// Adds an identifier and its field values (see [`indexed`]).
    fn update_indexes(&mut self, id: &Vec<char>, fvs: &Vec<FieldValue>)
        requires
            old(self).wf(),
        ensures
            final(self).wf(),
            final(self)@ == indexed(old(self)@, id@, field_value_views(fvs@)),
    {
        let ghost m = self@;
        let ghost fvv = field_value_views(fvs@);
        let n = fvs.len();
        assert(fvv.take(0) =~= Seq::<FieldValueV>::empty());
        assert(field_pairs_of(id@, fvv.take(0)) =~= Set::empty());
        assert(value_triples_of(id@, fvv.take(0)) =~= Set::empty());
        assert(value_keys_of(fvv.take(0)) =~= Set::empty());
        assert(self@ == indexed(m, id@, fvv.take(0))) by {
            assert(m.fields + Set::empty() =~= m.fields);
            assert(m.values + Set::empty() =~= m.values);
            assert(m.keys + Set::empty() =~= m.keys);
        }
        for i in 0..n
            invariant
                n == fvs@.len(),
                fvv == field_value_views(fvs@),
                self.wf(),
                self@ == indexed(m, id@, fvv.take(i as int)),
        {
            let ghost before = self@;
            self.add_field_value(id, &fvs[i]);
            proof {
                assert(fvv[i as int] == fvs@[i as int]@);
                lemma_field_pairs_step(id@, fvv, i as int);
                lemma_value_triples_step(id@, fvv, i as int);
                assert(fvv.take(i + 1).len() > 0);
                assert(self@.world =~= m.world.insert(id@));
                assert(self@.fields =~= m.fields + field_pairs_of(id@, fvv.take(i + 1)));
                assert(self@.values =~= m.values + value_triples_of(id@, fvv.take(i + 1)));
                assert(self@.keys =~= m.keys + value_keys_of(fvv.take(i + 1)));
            }
        }
        assert(fvv.take(n as int) =~= fvv);
    }

    /// Takes out an identifier and its field values (see [`unindexed`]).
    fn remove_indexes(&mut self, id: &Vec<char>, fvs: &Vec<FieldValue>)
        requires
            old(self).wf(),
        ensures
            final(self).wf(),
            final(self)@ == unindexed(old(self)@, id@, field_value_views(fvs@)),
    {
        let ghost m = self@;
        let ghost fvv = field_value_views(fvs@);
        let n = fvs.len();
        assert(fvv.take(0) =~= Seq::<FieldValueV>::empty());
        assert(field_pairs_of(id@, fvv.take(0)) =~= Set::empty());
        assert(value_triples_of(id@, fvv.take(0)) =~= Set::empty());
        assert(value_keys_of(fvv.take(0)) =~= Set::empty());
        assert(self@ == unindexed(m, id@, fvv.take(0))) by {
            assert(m.fields - Set::empty() =~= m.fields);
            assert(m.values - Set::empty() =~= m.values);
            assert(m.keys + Set::empty() =~= m.keys);
        }
        for i in 0..n
            invariant
                n == fvs@.len(),
                fvv == field_value_views(fvs@),
                self.wf(),
                self@ == unindexed(m, id@, fvv.take(i as int)),
        {
            self.remove_field_value(id, &fvs[i]);
            proof {
                assert(fvv[i as int] == fvs@[i as int]@);
                lemma_field_pairs_step(id@, fvv, i as int);
                lemma_value_triples_step(id@, fvv, i as int);
                assert(fvv.take(i + 1).len() > 0);
                assert(self@.world =~= m.world.remove(id@));
                assert(self@.fields =~= m.fields - field_pairs_of(id@, fvv.take(i + 1)));
                assert(self@.values =~= m.values - value_triples_of(id@, fvv.take(i + 1)));
                assert(self@.keys =~= m.keys + value_keys_of(fvv.take(i + 1)));
            }
        }
        assert(fvv.take(n as int) =~= fvv);
    }

    /// Indexes an entity: its JSON form is flattened into field values (see
    /// [`crate::json::field_values`]) and those are added for its
    /// identifier (see [`indexed`]). The error of the JSON form where it
    /// has none, and then the index is unchanged.
    pub fn index(&mut self, entity: &Entity) -> (r: Result<(), String>)
        requires
            old(self).wf(),
        ensures
            final(self).wf(),
            match r {
                Ok(_) => resource_json(entity@.resource()) matches Some(j) && final(self)@ == indexed(
                    old(self)@,
                    entity@.id().text(),
                    field_values(Seq::empty(), j),
                ),
                Err(e) => resource_json(entity@.resource()) is None && kind_error(e@) && final(self)@ == old(self)@,
            },
    {
        let j = match entity.resource().to_json() {
            Ok(j) => j,
            Err(e) => return Err(e),
        };
        let fvs = to_field_values(&j);
        let id = chars_of(entity.id().text().as_str());
        self.update_indexes(&id, &fvs);
        Ok(())
    }

    /// Takes an entity out of the index: what indexing it adds is removed
    /// (see [`unindexed`]). The error of the JSON form where it has none,
    /// and then the index is unchanged.
    pub fn remove(&mut self, entity: &Entity) -> (r: Result<(), String>)
        requires
            old(self).wf(),
        ensures
            final(self).wf(),
            match r {
                Ok(_) => resource_json(entity@.resource()) matches Some(j) && final(self)@ == unindexed(
                    old(self)@,
                    entity@.id().text(),
                    field_values(Seq::empty(), j),
                ),
                Err(e) => resource_json(entity@.resource()) is None && kind_error(e@) && final(self)@ == old(self)@,
            },
    {
        let j = match entity.resource().to_json() {
            Ok(j) => j,
            Err(e) => return Err(e),
        };
        let fvs = to_field_values(&j);
        let id = chars_of(entity.id().text().as_str());
        self.remove_indexes(&id, &fvs);
        Ok(())
    }

    /// Whether the entity is indexed.
    pub fn has_entity(&self, entity: &Entity) -> (r: bool)
        ensures
            r == self@.world.contains(entity@.id().text()),
    {
        let id = chars_of(entity.id().text().as_str());
        crate::idset::contains_text(&self.world, &id)
    }

    /// Whether the entity has the field (named as `.a.b`).
    pub fn has_field(&self, entity: &Entity, field: &str) -> (r: bool)
        ensures
            r == self@.fields.contains((field@, entity@.id().text())),
    {
        let id = chars_of(entity.id().text().as_str());
        let f = chars_of(field);
        let n = self.fields.len();
        for i in 0..n
            invariant
                n == self.fields@.len(),
                f@ == field@,
                id@ == entity@.id().text(),
                forall|j: int| 0 <= j < i ==> #[trigger] pair_views(self.fields@)[j] != (f@, id@),
        {
            if chars_eq(&self.fields[i].0, &f) && chars_eq(&self.fields[i].1, &id) {
                assert(pair_views(self.fields@)[i as int] == (f@, id@));
                assert(pair_views(self.fields@).contains((f@, id@)));
                return true;
            }
        }
        assert(!pair_views(self.fields@).contains((f@, id@)));
        false
    }

    /// Whether the value is found in the entity's field (a value equal to
    /// it in the order of values, see [`crate::bql::value_order`]).
    pub fn has_value(&self, entity: &Entity, field: &str, value: &Value) -> (r: bool)
        requires
            self.wf(),
        ensures
            r == self@.values.contains((field@, normal(value@), entity@.id().text())),
    {
        let id = chars_of(entity.id().text().as_str());
        let f = chars_of(field);
        let v = value.normalized();
        let n = self.values.len();
        for i in 0..n
            invariant
                n == self.values@.len(),
                self.wf(),
                f@ == field@,
                v@ == normal(value@),
                id@ == entity@.id().text(),
                forall|j: int| 0 <= j < i ==> #[trigger] triple_views(self.values@)[j] != (f@, v@, id@),
        {
            assert(self.values@[i as int].1@ == normal(self.values@[i as int].1@));
            if chars_eq(&self.values[i].0, &f) && same_value(&self.values[i].1, &v) && chars_eq(&self.values[i].2, &id) {
                assert(triple_views(self.values@)[i as int] == (f@, v@, id@));
                assert(triple_views(self.values@).contains((f@, v@, id@)));
                return true;
            }
        }
        assert(!triple_views(self.values@).contains((f@, v@, id@)));
        false
    }
}

/// How a found value must relate to the value a query names.
#[derive(Debug, Clone, Copy, PartialEq, Eq, Structural)]
pub enum Relation {
    Lt,
    Le,
    Eq,
    Gt,
    Ge,
}

/// Whether the outcome of comparing a found value with a named value is
/// the relation.
pub open spec fn relates(rel: Relation, o: Order) -> bool {
    match rel {
        Relation::Lt => o == Order::Less,
        Relation::Le => o != Order::Greater,
        Relation::Eq => o == Order::Equal,
        Relation::Gt => o == Order::Greater,
        Relation::Ge => o != Order::Less,
    }
}

/// Whether the entity `x` has, in field `f`, a value in the relation to `v`.
pub open spec fn value_hit(m: IndexV, f: Seq<char>, v: ValueV, rel: Relation, x: Seq<char>) -> bool {
    exists|k: ValueV| #[trigger] m.values.contains((f, k, x)) && relates(rel, value_order(k, v))
}

/// Whether a query selects the entity `x`: intersection, union and the two
/// differences of sub-queries; the indexed entities without those a
/// sub-query selects (for a list query, the entities that have its field
/// without those it selects); every indexed entity; the entities that have a field;
/// those with a value in a field equal to, below, at most, above or at
/// least a value; those with every one of a list of values in a field (none
/// for an empty list); and those with one of them.
pub open spec fn selects(m: IndexV, q: BqlV, x: Seq<char>) -> bool
    decreases q,
{
    match q {
        BqlV::And(a, b) => selects(m, *a, x) && selects(m, *b, x),
        BqlV::Or(a, b) => selects(m, *a, x) || selects(m, *b, x),
        BqlV::Diff(a, b) => selects(m, *a, x) && !selects(m, *b, x),
        BqlV::Comp(a, b) => selects(m, *b, x) && !selects(m, *a, x),
        BqlV::Not(a) => negation_base(m, *a, x) && !selects(m, *a, x),
        BqlV::IsPresent => m.world.contains(x),
        BqlV::Eq { field, value } => value_hit(m, field, value, Relation::Eq, x),
        BqlV::IsDefined { field } => m.fields.contains((field, x)),
        BqlV::LT { field, value } => value_hit(m, field, value, Relation::Lt, x),
        BqlV::LE { field, value } => value_hit(m, field, value, Relation::Le, x),
        BqlV::GT { field, value } => value_hit(m, field, value, Relation::Gt, x),
        BqlV::GE { field, value } => value_hit(m, field, value, Relation::Ge, x),
        BqlV::All { field, values } => all_hit(m, field, values, x),
        BqlV::Any { field, values } => any_hit(m, field, values, x),
    }
}

/// Where a negation takes its entities from: for a list query, the
/// entities that have its field; for any other query, every indexed entity.
pub open spec fn negation_base(m: IndexV, q: BqlV, x: Seq<char>) -> bool {
    match q {
        BqlV::All { field, .. } => m.fields.contains((field, x)),
        BqlV::Any { field, .. } => m.fields.contains((field, x)),
        _ => m.world.contains(x),
    }
}

/// Whether the entity `x` has every one of the values in field `f`; false
/// for no values.
pub open spec fn all_hit(m: IndexV, f: Seq<char>, vs: Seq<ValueV>, x: Seq<char>) -> bool {
    vs.len() > 0 && forall|i: int| 0 <= i < vs.len() ==> #[trigger] value_hit(m, f, vs[i], Relation::Eq, x)
}

/// Whether the entity `x` has one of the values in field `f`.
pub open spec fn any_hit(m: IndexV, f: Seq<char>, vs: Seq<ValueV>, x: Seq<char>) -> bool {
    exists|i: int| 0 <= i < vs.len() && #[trigger] value_hit(m, f, vs[i], Relation::Eq, x)
}

/// The identifiers of entities as texts.
pub open spec fn id_texts(ids: Seq<EntityID>) -> Seq<Seq<char>> {
    ids.map_values(|e: EntityID| e@.text())
}

fn rel_holds(rel: Relation, o: Order) -> (r: bool)
    ensures
        r == relates(rel, o),
{
    match rel {
        Relation::Lt => o == Order::Less,
        Relation::Le => o != Order::Greater,
        Relation::Eq => o == Order::Equal,
        Relation::Gt => o == Order::Greater,
        Relation::Ge => o != Order::Less,
    }
}

/// The identifiers as entity identifiers.
fn to_entity_ids(v: &Vec<Vec<char>>) -> (r: Vec<EntityID>)
    ensures
        id_texts(r@) == texts(v@),
{
    let mut r: Vec<EntityID> = Vec::new();
    let n = v.len();
    for i in 0..n
        invariant
            n == v@.len(),
            id_texts(r@) == texts(v@).take(i as int),
    {
        let ghost before = id_texts(r@);
        r.push(EntityID::ResourceID(string_from_chars(&v[i])));
        assert(id_texts(r@) =~= before.push(v@[i as int]@));
        assert(texts(v@).take(i + 1) =~= texts(v@).take(i as int).push(v@[i as int]@));
    }
    assert(texts(v@).take(n as int) =~= texts(v@));
    r
}

/// The identifiers as texts.
fn from_entity_ids(v: &Vec<EntityID>) -> (r: Vec<Vec<char>>)
    ensures
        texts(r@) == id_texts(v@),
{
    let mut r: Vec<Vec<char>> = Vec::new();
    let n = v.len();
    for i in 0..n
        invariant
            n == v@.len(),
            texts(r@) == id_texts(v@).take(i as int),
    {
        let ghost before = texts(r@);
        r.push(chars_of(v[i].text().as_str()));
        assert(texts(r@) =~= before.push(v@[i as int]@.text()));
        assert(id_texts(v@).take(i + 1) =~= id_texts(v@).take(i as int).push(v@[i as int]@.text()));
    }
    assert(id_texts(v@).take(n as int) =~= id_texts(v@));
    r
}

impl Index {
    /// The sorted identifiers with a value in field `f` in the relation to `v`.
    fn ids_with_value(&self, f: &Vec<char>, v: &Value, rel: Relation) -> (r: Vec<Vec<char>>)
        ensures
            sorted(texts(r@)),
            forall|x: Seq<char>| #[trigger] texts(r@).contains(x) <==> value_hit(self@, f@, v@, rel, x),
    {
        let mut acc: Vec<Vec<char>> = Vec::new();
        let n = self.values.len();
        let ghost tv = triple_views(self.values@);
        for i in 0..n
            invariant
                n == self.values@.len(),
                tv == triple_views(self.values@),
                sorted(texts(acc@)),
                forall|x: Seq<char>| #[trigger] texts(acc@).contains(x) <==> exists|j: int|
                    0 <= j < i && (#[trigger] tv[j]).0 == f@ && tv[j].2 == x && relates(rel, value_order(tv[j].1, v@)),
        {
            let o = self.values[i].1.compare(v);
            if chars_eq(&self.values[i].0, f) && rel_holds(rel, o) {
                let ghost before = acc@;
                acc = with_text(&acc, &self.values[i].2);
                assert forall|x: Seq<char>| #[trigger] texts(acc@).contains(x) <==> exists|j: int|
                    0 <= j < i + 1 && (#[trigger] tv[j]).0 == f@ && tv[j].2 == x && relates(rel, value_order(tv[j].1, v@)) by {
                    if x == self.values@[i as int].2@ {
                        assert(tv[i as int].2 == x);
                    }
                    if exists|j: int| 0 <= j < i + 1 && (#[trigger] tv[j]).0 == f@ && tv[j].2 == x && relates(rel, value_order(tv[j].1, v@)) {
                        let j = choose|j: int| 0 <= j < i + 1 && (#[trigger] tv[j]).0 == f@ && tv[j].2 == x && relates(rel, value_order(tv[j].1, v@));
                        if j < i {
                            assert(texts(before).contains(x));
                        }
                    }
                }
            } else {
                assert forall|x: Seq<char>| #[trigger] texts(acc@).contains(x) <==> exists|j: int|
                    0 <= j < i + 1 && (#[trigger] tv[j]).0 == f@ && tv[j].2 == x && relates(rel, value_order(tv[j].1, v@)) by {
                    if exists|j: int| 0 <= j < i + 1 && (#[trigger] tv[j]).0 == f@ && tv[j].2 == x && relates(rel, value_order(tv[j].1, v@)) {
                        let j = choose|j: int| 0 <= j < i + 1 && (#[trigger] tv[j]).0 == f@ && tv[j].2 == x && relates(rel, value_order(tv[j].1, v@));
                        if j == i {
                            assert(tv[j].0 == self.values@[i as int].0@);
                        }
                    }
                }
            }
        }
        assert forall|x: Seq<char>| #[trigger] texts(acc@).contains(x) <==> value_hit(self@, f@, v@, rel, x) by {
            if texts(acc@).contains(x) {
                let j = choose|j: int| 0 <= j < n && (#[trigger] tv[j]).0 == f@ && tv[j].2 == x && relates(rel, value_order(tv[j].1, v@));
                assert(tv.contains(tv[j]));
                assert(self@.values.contains((f@, tv[j].1, x)));
            }
            if value_hit(self@, f@, v@, rel, x) {
                let k = choose|k: ValueV| #[trigger] self@.values.contains((f@, k, x)) && relates(rel, value_order(k, v@));
                assert(tv.contains((f@, k, x)));
                let j = choose|j: int| 0 <= j < tv.len() && tv[j] == (f@, k, x);
                assert(tv[j].0 == f@);
            }
        }
        acc
    }

    /// The sorted identifiers that have field `f`.
    fn ids_with_field(&self, f: &Vec<char>) -> (r: Vec<Vec<char>>)
        ensures
            sorted(texts(r@)),
            forall|x: Seq<char>| #[trigger] texts(r@).contains(x) <==> self@.fields.contains((f@, x)),
    {
        let mut acc: Vec<Vec<char>> = Vec::new();
        let n = self.fields.len();
        let ghost pv = pair_views(self.fields@);
        for i in 0..n
            invariant
                n == self.fields@.len(),
                pv == pair_views(self.fields@),
                sorted(texts(acc@)),
                forall|x: Seq<char>| #[trigger] texts(acc@).contains(x) <==> exists|j: int|
                    0 <= j < i && (#[trigger] pv[j]).0 == f@ && pv[j].1 == x,
        {
            if chars_eq(&self.fields[i].0, f) {
                let ghost before = acc@;
                acc = with_text(&acc, &self.fields[i].1);
                assert forall|x: Seq<char>| #[trigger] texts(acc@).contains(x) <==> exists|j: int|
                    0 <= j < i + 1 && (#[trigger] pv[j]).0 == f@ && pv[j].1 == x by {
                    if x == self.fields@[i as int].1@ {
                        assert(pv[i as int].1 == x);
                    }
                    if exists|j: int| 0 <= j < i + 1 && (#[trigger] pv[j]).0 == f@ && pv[j].1 == x {
                        let j = choose|j: int| 0 <= j < i + 1 && (#[trigger] pv[j]).0 == f@ && pv[j].1 == x;
                        if j < i {
                            assert(texts(before).contains(x));
                        }
                    }
                }
            } else {
                assert forall|x: Seq<char>| #[trigger] texts(acc@).contains(x) <==> exists|j: int|
                    0 <= j < i + 1 && (#[trigger] pv[j]).0 == f@ && pv[j].1 == x by {
                    if exists|j: int| 0 <= j < i + 1 && (#[trigger] pv[j]).0 == f@ && pv[j].1 == x {
                        let j = choose|j: int| 0 <= j < i + 1 && (#[trigger] pv[j]).0 == f@ && pv[j].1 == x;
                        if j == i {
                            assert(pv[j].0 == self.fields@[i as int].0@);
                        }
                    }
                }
            }
        }
        assert forall|x: Seq<char>| #[trigger] texts(acc@).contains(x) <==> self@.fields.contains((f@, x)) by {
            if texts(acc@).contains(x) {
                let j = choose|j: int| 0 <= j < n && (#[trigger] pv[j]).0 == f@ && pv[j].1 == x;
                assert(pv.contains(pv[j]));
            }
            if self@.fields.contains((f@, x)) {
                let j = choose|j: int| 0 <= j < pv.len() && pv[j] == (f@, x);
                assert(pv[j].0 == f@);
            }
        }
        acc
    }
}

impl Index {
    /// The sorted identifiers with every one of the values in field `f`;
    /// none for no values.
    fn ids_with_all(&self, f: &Vec<char>, vs: &Vec<Value>) -> (r: Vec<Vec<char>>)
        ensures
            sorted(texts(r@)),
            forall|x: Seq<char>| #[trigger] texts(r@).contains(x) <==> (vs@.len() > 0 && forall|i: int|
                0 <= i < vs@.len() ==> #[trigger] value_hit(self@, f@, vs@[i]@, Relation::Eq, x)),
    {
        let n = vs.len();
        if n == 0 {
            let r: Vec<Vec<char>> = Vec::new();
            assert(texts(r@) =~= Seq::<Seq<char>>::empty());
            return r;
        }
        let mut acc = self.ids_with_value(f, &vs[0], Relation::Eq);
        for i in 1..n
            invariant
                n == vs@.len(),
                n > 0,
                sorted(texts(acc@)),
                forall|x: Seq<char>| #[trigger] texts(acc@).contains(x) <==> forall|j: int|
                    0 <= j < i ==> #[trigger] value_hit(self@, f@, vs@[j]@, Relation::Eq, x),
        {
            let next = self.ids_with_value(f, &vs[i], Relation::Eq);
            let ghost before = acc@;
            acc = merge(SetOperation::And, &acc, &next);
            assert forall|x: Seq<char>| #[trigger] texts(acc@).contains(x) <==> forall|j: int|
                0 <= j < i + 1 ==> #[trigger] value_hit(self@, f@, vs@[j]@, Relation::Eq, x) by {
                if texts(acc@).contains(x) {
                    assert(texts(before).contains(x));
                    assert(texts(next@).contains(x));
                }
                if forall|j: int| 0 <= j < i + 1 ==> #[trigger] value_hit(self@, f@, vs@[j]@, Relation::Eq, x) {
                    assert(value_hit(self@, f@, vs@[i as int]@, Relation::Eq, x));
                    assert(texts(next@).contains(x));
                    assert(texts(before).contains(x));
                }
            }
        }
        acc
    }

    /// The sorted identifiers with one of the values in field `f`.
    fn ids_with_any(&self, f: &Vec<char>, vs: &Vec<Value>) -> (r: Vec<Vec<char>>)
        ensures
            sorted(texts(r@)),
            forall|x: Seq<char>| #[trigger] texts(r@).contains(x) <==> exists|i: int|
                0 <= i < vs@.len() && #[trigger] value_hit(self@, f@, vs@[i]@, Relation::Eq, x),
    {
        let n = vs.len();
        let mut acc: Vec<Vec<char>> = Vec::new();
        assert(texts(acc@) =~= Seq::<Seq<char>>::empty());
        for i in 0..n
            invariant
                n == vs@.len(),
                sorted(texts(acc@)),
                forall|x: Seq<char>| #[trigger] texts(acc@).contains(x) <==> exists|j: int|
                    0 <= j < i && #[trigger] value_hit(self@, f@, vs@[j]@, Relation::Eq, x),
        {
            let next = self.ids_with_value(f, &vs[i], Relation::Eq);
            let ghost before = acc@;
            acc = merge(SetOperation::Or, &acc, &next);
            assert forall|x: Seq<char>| #[trigger] texts(acc@).contains(x) <==> exists|j: int|
                0 <= j < i + 1 && #[trigger] value_hit(self@, f@, vs@[j]@, Relation::Eq, x) by {
                if texts(next@).contains(x) {
                    assert(value_hit(self@, f@, vs@[i as int]@, Relation::Eq, x));
                }
                if exists|j: int| 0 <= j < i + 1 && #[trigger] value_hit(self@, f@, vs@[j]@, Relation::Eq, x) {
                    let j = choose|j: int| 0 <= j < i + 1 && #[trigger] value_hit(self@, f@, vs@[j]@, Relation::Eq, x);
                    if j == i {
                        assert(texts(next@).contains(x));
                    } else {
                        assert(texts(before).contains(x));
                    }
                }
            }
        }
        acc
    }

    /// The sorted identifiers that a query selects (see [`selects`]).
    fn search_ids(&self, q: &BQL) -> (r: Vec<Vec<char>>)
        requires
            self.wf(),
        ensures
            sorted(texts(r@)),
            forall|x: Seq<char>| #[trigger] texts(r@).contains(x) <==> selects(self@, q@, x),
        decreases q,
    {
        match q {
            BQL::And(a, b) => {
                let ra = self.search_ids(a);
                let rb = self.search_ids(b);
                merge(SetOperation::And, &ra, &rb)
            },
            BQL::Or(a, b) => {
                let ra = self.search_ids(a);
                let rb = self.search_ids(b);
                merge(SetOperation::Or, &ra, &rb)
            },
            BQL::Diff(a, b) => {
                let ra = self.search_ids(a);
                let rb = self.search_ids(b);
                merge(SetOperation::Diff, &ra, &rb)
            },
            BQL::Comp(a, b) => {
                let ra = self.search_ids(a);
                let rb = self.search_ids(b);
                merge(SetOperation::Diff, &rb, &ra)
            },
            BQL::Not(a) => {
                let ra = self.search_ids(a);
                match &**a {
                    BQL::All { field, .. } => {
                        let base = self.ids_with_field(&chars_of(field.as_str()));
                        merge(SetOperation::Diff, &base, &ra)
                    },
                    BQL::Any { field, .. } => {
                        let base = self.ids_with_field(&chars_of(field.as_str()));
                        merge(SetOperation::Diff, &base, &ra)
                    },
                    _ => merge(SetOperation::Diff, &self.world, &ra),
                }
            },
            BQL::IsPresent => {
                let r = merge(SetOperation::Or, &self.world, &Vec::new());
                r
            },
            BQL::Eq { field, value } => self.ids_with_value(&chars_of(field.as_str()), value, Relation::Eq),
            BQL::IsDefined { field } => self.ids_with_field(&chars_of(field.as_str())),
            BQL::LT { field, value } => self.ids_with_value(&chars_of(field.as_str()), value, Relation::Lt),
            BQL::LE { field, value } => self.ids_with_value(&chars_of(field.as_str()), value, Relation::Le),
            BQL::GT { field, value } => self.ids_with_value(&chars_of(field.as_str()), value, Relation::Gt),
            BQL::GE { field, value } => self.ids_with_value(&chars_of(field.as_str()), value, Relation::Ge),
            BQL::All { field, values } => {
                let r = self.ids_with_all(&chars_of(field.as_str()), values);
                assert(q@ == BqlV::All { field: field@, values: crate::bql::value_views(values@) });
                assert forall|x: Seq<char>| #[trigger] texts(r@).contains(x) <==> selects(self@, q@, x) by {
                    assert(crate::bql::value_views(values@).len() == values@.len());
                    if texts(r@).contains(x) {
                        assert forall|i: int| 0 <= i < crate::bql::value_views(values@).len() implies #[trigger] value_hit(
                            self@,
                            field@,
                            crate::bql::value_views(values@)[i],
                            Relation::Eq,
                            x,
                        ) by {
                            assert(value_hit(self@, field@, values@[i]@, Relation::Eq, x));
                        }
                    }
                    if selects(self@, q@, x) {
                        let vv = crate::bql::value_views(values@);
                        assert(vv.len() > 0 && forall|i: int| 0 <= i < vv.len() ==> #[trigger] value_hit(self@, field@, vv[i], Relation::Eq, x));
                        assert forall|i: int| 0 <= i < values@.len() implies #[trigger] value_hit(self@, field@, values@[i]@, Relation::Eq, x) by {
                            assert(vv[i] == values@[i]@);
                            assert(value_hit(self@, field@, vv[i], Relation::Eq, x));
                        }
                    }
                }
                r
            },
            BQL::Any { field, values } => {
                let r = self.ids_with_any(&chars_of(field.as_str()), values);
                assert(q@ == BqlV::Any { field: field@, values: crate::bql::value_views(values@) });
                assert forall|x: Seq<char>| #[trigger] texts(r@).contains(x) <==> selects(self@, q@, x) by {
                    if texts(r@).contains(x) {
                        let i = choose|i: int| 0 <= i < values@.len() && #[trigger] value_hit(self@, field@, values@[i]@, Relation::Eq, x);
                        assert(value_hit(self@, field@, crate::bql::value_views(values@)[i], Relation::Eq, x));
                    }
                    if selects(self@, q@, x) {
                        let i = choose|i: int| 0 <= i < crate::bql::value_views(values@).len() && #[trigger] value_hit(
                            self@,
                            field@,
                            crate::bql::value_views(values@)[i],
                            Relation::Eq,
                            x,
                        );
                        assert(value_hit(self@, field@, values@[i]@, Relation::Eq, x));
                    }
                }
                r
            },
        }
    }
}

/// The values increase strictly in the order of values.
pub open spec fn values_increase(s: Seq<ValueV>) -> bool {
    forall|i: int, j: int| 0 <= i < j < s.len() ==> value_order(#[trigger] s[i], #[trigger] s[j]) == Order::Less
}

proof fn lemma_insert_increase(s: Seq<ValueV>, p: int, x: ValueV)
    requires
        values_increase(s),
        0 <= p <= s.len(),
        forall|j: int| 0 <= j < p ==> value_order(#[trigger] s[j], x) == Order::Less,
        p < s.len() ==> value_order(s[p], x) == Order::Greater,
    ensures
        values_increase(s.insert(p, x)),
{
    let t = s.insert(p, x);
    assert forall|i: int, j: int| 0 <= i < j < t.len() implies value_order(#[trigger] t[i], #[trigger] t[j]) == Order::Less by {
        if j < p {
            assert(t[i] == s[i] && t[j] == s[j]);
        } else if j == p {
            assert(t[i] == s[i]);
        } else if i == p {
            assert(t[j] == s[j - 1]);
            crate::bql::lemma_value_order(s[p], x, s[j - 1]);
            crate::bql::lemma_value_order(x, s[p], s[j - 1]);
            if j - 1 > p {
                assert(value_order(s[p], s[j - 1]) == Order::Less);
            }
        } else if i < p {
            assert(t[i] == s[i] && t[j] == s[j - 1]);
        } else {
            assert(t[i] == s[i - 1] && t[j] == s[j - 1]);
        }
    }
}

proof fn lemma_insert_set(s: Seq<ValueV>, p: int, x: ValueV)
    requires
        0 <= p <= s.len(),
    ensures
        s.insert(p, x).to_set() == s.to_set().insert(x),
{
    let t = s.insert(p, x);
    assert forall|y: ValueV| #[trigger] t.to_set().contains(y) <==> s.to_set().insert(x).contains(y) by {
        if t.contains(y) {
            let j = choose|j: int| 0 <= j < t.len() && t[j] == y;
            if j < p {
                assert(s[j] == y);
            } else if j > p {
                assert(s[j - 1] == y);
            }
        }
        if s.contains(y) {
            let j = choose|j: int| 0 <= j < s.len() && s[j] == y;
            if j < p {
                assert(t[j] == y);
            } else {
                assert(t[j + 1] == y);
            }
        }
        if y == x {
            assert(t[p] == y);
        }
    }
    assert(t.to_set() =~= s.to_set().insert(x));
}

/// Inserts a value into a strictly increasing list unless an equal one is
/// there.
fn insert_value(v: &mut Vec<Value>, x: &Value)
    requires
        values_increase(value_views(old(v)@)),
        forall|j: int| 0 <= j < old(v)@.len() ==> #[trigger] old(v)@[j]@ == normal(old(v)@[j]@),
        x@ == normal(x@),
    ensures
        values_increase(value_views(final(v)@)),
        forall|j: int| 0 <= j < final(v)@.len() ==> #[trigger] final(v)@[j]@ == normal(final(v)@[j]@),
        value_views(final(v)@).to_set() == value_views(old(v)@).to_set().insert(x@),
{
    let ghost s = value_views(v@);
    let n = v.len();
    let mut p: usize = 0;
    while p < n && v[p].compare(x) == Order::Less
        invariant
            n == v@.len(),
            s == value_views(v@),
            p <= n,
            forall|j: int| 0 <= j < p ==> value_order(#[trigger] s[j], x@) == Order::Less,
        decreases n - p,
    {
        p = p + 1;
    }
    if p < n && v[p].compare(x) == Order::Equal {
        proof {
            crate::bql::lemma_value_order(s[p as int], x@, x@);
            assert(v@[p as int]@ == normal(v@[p as int]@));
            assert(s[p as int] == x@);
            assert(s.to_set() =~= s.to_set().insert(x@));
        }
        return;
    }
    let ghost before = v@;
    v.insert(p, x.duplicate());
    let ghost t = value_views(v@);
    assert(t =~= s.insert(p as int, x@));
    assert forall|j: int| 0 <= j < v@.len() implies #[trigger] v@[j]@ == normal(v@[j]@) by {
        if j < p {
            assert(v@[j] == before[j]);
        } else if j > p {
            assert(v@[j] == before[j - 1]);
        }
    }
    proof {
        if p < n {
            assert(value_order(s[p as int], x@) != Order::Less);
            assert(value_order(s[p as int], x@) != Order::Equal);
        }
        lemma_insert_increase(s, p as int, x@);
        lemma_insert_set(s, p as int, x@);
    }
}

impl Index {
    /// The entities that a query selects (see [`selects`]), in increasing
    /// order of their identifiers.
    pub fn search(&self, kind: &EntityKind, ast: &BQL) -> (r: Vec<EntityID>)
        requires
            self.wf(),
        ensures
            sorted(id_texts(r@)),
            forall|x: Seq<char>| #[trigger] id_texts(r@).contains(x) <==> selects(self@, ast@, x),
    {
        let ids = self.search_ids(ast);
        to_entity_ids(&ids)
    }

    /// The indexed entities, in increasing order.
    pub fn with_kind(&self, kind: &EntityKind) -> (r: Vec<EntityID>)
        requires
            self.wf(),
        ensures
            sorted(id_texts(r@)),
            forall|x: Seq<char>| #[trigger] id_texts(r@).contains(x) <==> self@.world.contains(x),
    {
        let ids = self.search_ids(&BQL::IsPresent);
        to_entity_ids(&ids)
    }

    /// The entities with the field, in increasing order.
    pub fn with_field(&self, kind: &EntityKind, field: &str) -> (r: Vec<EntityID>)
        ensures
            sorted(id_texts(r@)),
            forall|x: Seq<char>| #[trigger] id_texts(r@).contains(x) <==> self@.fields.contains((field@, x)),
    {
        let ids = self.ids_with_field(&chars_of(field));
        to_entity_ids(&ids)
    }

    /// The entities with a value in the field in the relation to `value`.
    fn with_value(&self, field: &str, value: &Value, rel: Relation) -> (r: Vec<EntityID>)
        ensures
            sorted(id_texts(r@)),
            forall|x: Seq<char>| #[trigger] id_texts(r@).contains(x) <==> value_hit(self@, field@, value@, rel, x),
    {
        let ids = self.ids_with_value(&chars_of(field), value, rel);
        to_entity_ids(&ids)
    }

    /// The entities with a value below `value` in the field.
    pub fn with_value_lt(&self, kind: &EntityKind, field: &str, value: &Value) -> (r: Vec<EntityID>)
        ensures
            sorted(id_texts(r@)),
            forall|x: Seq<char>| #[trigger] id_texts(r@).contains(x) <==> value_hit(self@, field@, value@, Relation::Lt, x),
    {
        self.with_value(field, value, Relation::Lt)
    }

    /// The entities with a value at most `value` in the field.
    pub fn with_value_lte(&self, kind: &EntityKind, field: &str, value: &Value) -> (r: Vec<EntityID>)
        ensures
            sorted(id_texts(r@)),
            forall|x: Seq<char>| #[trigger] id_texts(r@).contains(x) <==> value_hit(self@, field@, value@, Relation::Le, x),
    {
        self.with_value(field, value, Relation::Le)
    }

    /// The entities with a value above `value` in the field.
    pub fn with_value_gt(&self, kind: &EntityKind, field: &str, value: &Value) -> (r: Vec<EntityID>)
        ensures
            sorted(id_texts(r@)),
            forall|x: Seq<char>| #[trigger] id_texts(r@).contains(x) <==> value_hit(self@, field@, value@, Relation::Gt, x),
    {
        self.with_value(field, value, Relation::Gt)
    }

    /// The entities with a value at least `value` in the field.
    pub fn with_value_gte(&self, kind: &EntityKind, field: &str, value: &Value) -> (r: Vec<EntityID>)
        ensures
            sorted(id_texts(r@)),
            forall|x: Seq<char>| #[trigger] id_texts(r@).contains(x) <==> value_hit(self@, field@, value@, Relation::Ge, x),
    {
        self.with_value(field, value, Relation::Ge)
    }

    /// The entities with a value equal to `value` in the field.
    pub fn with_value_eq(&self, kind: &EntityKind, field: &str, value: &Value) -> (r: Vec<EntityID>)
        ensures
            sorted(id_texts(r@)),
            forall|x: Seq<char>| #[trigger] id_texts(r@).contains(x) <==> value_hit(self@, field@, value@, Relation::Eq, x),
    {
        self.with_value(field, value, Relation::Eq)
    }

    /// The entities with every one of the values in the field; none for no
    /// values.
    pub fn with_value_eq_all(&self, kind: &EntityKind, field: &str, values: &Vec<Value>) -> (r: Vec<EntityID>)
        ensures
            sorted(id_texts(r@)),
            forall|x: Seq<char>| #[trigger] id_texts(r@).contains(x) <==> all_hit(self@, field@, value_views(values@), x),
    {
        let ids = self.ids_with_all(&chars_of(field), values);
        let r = to_entity_ids(&ids);
        assert forall|x: Seq<char>| #[trigger] id_texts(r@).contains(x) <==> all_hit(self@, field@, value_views(values@), x) by {
            let vv = value_views(values@);
            if id_texts(r@).contains(x) {
                assert forall|i: int| 0 <= i < vv.len() implies #[trigger] value_hit(self@, field@, vv[i], Relation::Eq, x) by {
                    assert(value_hit(self@, field@, values@[i]@, Relation::Eq, x));
                }
            }
            if all_hit(self@, field@, vv, x) {
                assert forall|i: int| 0 <= i < values@.len() implies #[trigger] value_hit(self@, field@, values@[i]@, Relation::Eq, x) by {
                    assert(vv[i] == values@[i]@);
                    assert(value_hit(self@, field@, vv[i], Relation::Eq, x));
                }
            }
        }
        r
    }

    /// The entities with one of the values in the field.
    pub fn with_value_eq_any(&self, kind: &EntityKind, field: &str, values: &Vec<Value>) -> (r: Vec<EntityID>)
        ensures
            sorted(id_texts(r@)),
            forall|x: Seq<char>| #[trigger] id_texts(r@).contains(x) <==> any_hit(self@, field@, value_views(values@), x),
    {
        let ids = self.ids_with_any(&chars_of(field), values);
        let r = to_entity_ids(&ids);
        assert forall|x: Seq<char>| #[trigger] id_texts(r@).contains(x) <==> any_hit(self@, field@, value_views(values@), x) by {
            let vv = value_views(values@);
            if id_texts(r@).contains(x) {
                let i = choose|i: int| 0 <= i < values@.len() && #[trigger] value_hit(self@, field@, values@[i]@, Relation::Eq, x);
                assert(value_hit(self@, field@, vv[i], Relation::Eq, x));
            }
            if any_hit(self@, field@, vv, x) {
                let i = choose|i: int| 0 <= i < vv.len() && #[trigger] value_hit(self@, field@, vv[i], Relation::Eq, x);
                assert(value_hit(self@, field@, values@[i]@, Relation::Eq, x));
            }
        }
        r
    }

    /// Combines two increasing lists of entities.
    fn with_op(op: SetOperation, a: &Vec<EntityID>, b: &Vec<EntityID>) -> (r: Vec<EntityID>)
        requires
            sorted(id_texts(a@)),
            sorted(id_texts(b@)),
        ensures
            sorted(id_texts(r@)),
            forall|x: Seq<char>| #[trigger] id_texts(r@).contains(x) <==> crate::idset::combined(
                op,
                id_texts(a@).contains(x),
                id_texts(b@).contains(x),
            ),
    {
        let ta = from_entity_ids(a);
        let tb = from_entity_ids(b);
        let m = merge(op, &ta, &tb);
        to_entity_ids(&m)
    }

    /// The entities in both increasing lists.
    pub fn with_and(&self, a: &Vec<EntityID>, b: &Vec<EntityID>) -> (r: Vec<EntityID>)
        requires
            sorted(id_texts(a@)),
            sorted(id_texts(b@)),
        ensures
            sorted(id_texts(r@)),
            forall|x: Seq<char>| #[trigger] id_texts(r@).contains(x) <==> (id_texts(a@).contains(x) && id_texts(b@).contains(x)),
    {
        Index::with_op(SetOperation::And, a, b)
    }

    /// The entities in either increasing list.
    pub fn with_or(&self, a: &Vec<EntityID>, b: &Vec<EntityID>) -> (r: Vec<EntityID>)
        requires
            sorted(id_texts(a@)),
            sorted(id_texts(b@)),
        ensures
            sorted(id_texts(r@)),
            forall|x: Seq<char>| #[trigger] id_texts(r@).contains(x) <==> (id_texts(a@).contains(x) || id_texts(b@).contains(x)),
    {
        Index::with_op(SetOperation::Or, a, b)
    }

    /// The entities in the first increasing list and not in the second.
    pub fn with_diff(&self, a: &Vec<EntityID>, b: &Vec<EntityID>) -> (r: Vec<EntityID>)
        requires
            sorted(id_texts(a@)),
            sorted(id_texts(b@)),
        ensures
            sorted(id_texts(r@)),
            forall|x: Seq<char>| #[trigger] id_texts(r@).contains(x) <==> (id_texts(a@).contains(x) && !id_texts(b@).contains(x)),
    {
        Index::with_op(SetOperation::Diff, a, b)
    }

    /// The values ever found in the field, in increasing order of values
    /// (see [`crate::bql::value_order`]), each once.
    pub fn values(&self, kind: &EntityKind, field: &str) -> (r: Vec<Value>)
        requires
            self.wf(),
        ensures
            values_increase(value_views(r@)),
            forall|v: ValueV| #[trigger] value_views(r@).contains(v) <==> self@.keys.contains((field@, v)),
    {
        let f = chars_of(field);
        let mut out: Vec<Value> = Vec::new();
        let n = self.keys.len();
        let ghost kv = key_views(self.keys@);
        assert(value_views(out@) =~= Seq::<ValueV>::empty());
        for i in 0..n
            invariant
                n == self.keys@.len(),
                kv == key_views(self.keys@),
                self.wf(),
                f@ == field@,
                values_increase(value_views(out@)),
                forall|j: int| 0 <= j < out@.len() ==> #[trigger] out@[j]@ == normal(out@[j]@),
                forall|v: ValueV| #[trigger] value_views(out@).to_set().contains(v) <==> exists|j: int|
                    0 <= j < i && (#[trigger] kv[j]).0 == f@ && kv[j].1 == v,
        {
            if chars_eq(&self.keys[i].0, &f) {
                assert(self.keys@[i as int].1@ == normal(self.keys@[i as int].1@));
                let ghost before = value_views(out@).to_set();
                insert_value(&mut out, &self.keys[i].1);
                assert forall|v: ValueV| #[trigger] value_views(out@).to_set().contains(v) <==> exists|j: int|
                    0 <= j < i + 1 && (#[trigger] kv[j]).0 == f@ && kv[j].1 == v by {
                    if v == self.keys@[i as int].1@ {
                        assert(kv[i as int].1 == v);
                    }
                    if exists|j: int| 0 <= j < i + 1 && (#[trigger] kv[j]).0 == f@ && kv[j].1 == v {
                        let j = choose|j: int| 0 <= j < i + 1 && (#[trigger] kv[j]).0 == f@ && kv[j].1 == v;
                        if j < i {
                            assert(before.contains(v));
                        }
                    }
                }
            } else {
                assert forall|v: ValueV| #[trigger] value_views(out@).to_set().contains(v) <==> exists|j: int|
                    0 <= j < i + 1 && (#[trigger] kv[j]).0 == f@ && kv[j].1 == v by {
                    if exists|j: int| 0 <= j < i + 1 && (#[trigger] kv[j]).0 == f@ && kv[j].1 == v {
                        let j = choose|j: int| 0 <= j < i + 1 && (#[trigger] kv[j]).0 == f@ && kv[j].1 == v;
                        if j == i {
                            assert(kv[j].0 == self.keys@[i as int].0@);
                        }
                    }
                }
            }
        }
        assert forall|v: ValueV| #[trigger] value_views(out@).contains(v) <==> self@.keys.contains((field@, v)) by {
            assert(value_views(out@).to_set().contains(v) == value_views(out@).contains(v));
            if value_views(out@).contains(v) {
                let j = choose|j: int| 0 <= j < n && (#[trigger] kv[j]).0 == f@ && kv[j].1 == v;
                assert(kv.contains(kv[j]));
            }
            if self@.keys.contains((field@, v)) {
                let j = choose|j: int| 0 <= j < kv.len() && kv[j] == (field@, v);
                assert(kv[j].0 == f@);
            }
        }
        out
    }
}

/// Indexing an entity makes it exist when it has a field value, gives it
/// every field its values' paths pass through, and finds each of its values
/// in the field of its path.
pub proof fn lemma_indexed_finds(m: IndexV, id: Seq<char>, fvs: Seq<FieldValueV>)
    ensures
        fvs.len() > 0 ==> indexed(m, id, fvs).world.contains(id),
        forall|i: int, k: int|
            0 <= i < fvs.len() && 0 <= k <= fvs[i].0.len() ==> indexed(m, id, fvs).fields.contains(
                (field_name(#[trigger] fvs[i].0.take(k)), id),
            ),
        forall|i: int|
            0 <= i < fvs.len() ==> indexed(m, id, fvs).values.contains(
                (field_name(#[trigger] fvs[i].0), normal(fvs[i].1), id),
            ),
{
    assert forall|i: int, k: int|
        0 <= i < fvs.len() && 0 <= k <= fvs[i].0.len() implies indexed(m, id, fvs).fields.contains(
            (field_name(#[trigger] fvs[i].0.take(k)), id),
        ) by {
        let path = fvs[i].0;
        assert(0 <= k <= path.len() && field_name(path.take(k)) == field_name(path.take(k)));
        assert(exists|q: int| 0 <= q <= path.len() && field_name(path.take(k)) == field_name(#[trigger] path.take(q)));
        assert(prefix_names(fvs[i].0).contains(field_name(fvs[i].0.take(k))));
        let name = field_name(fvs[i].0.take(k));
        assert(0 <= i < fvs.len() && prefix_names(fvs[i].0).contains(name));
        assert(exists|j: int| 0 <= j < fvs.len() && #[trigger] prefix_names(fvs[j].0).contains(name));
        let p = (name, id);
        assert(p.0 == name && p.1 == id);
        assert(exists|j: int| 0 <= j < fvs.len() && #[trigger] prefix_names(fvs[j].0).contains(p.0));
        assert(field_pairs_of(id, fvs).contains(p));
    }
    assert forall|i: int| 0 <= i < fvs.len() implies indexed(m, id, fvs).values.contains(
        (field_name(#[trigger] fvs[i].0), normal(fvs[i].1), id),
    ) by {
        assert(value_triples_of(id, fvs).contains((field_name(fvs[i].0), normal(fvs[i].1), id)));
    }
}

/// Taking an entity out of the index takes out its existence, its fields
/// and its values.
pub proof fn lemma_unindexed_forgets(m: IndexV, id: Seq<char>, fvs: Seq<FieldValueV>)
    ensures
        fvs.len() > 0 ==> !unindexed(m, id, fvs).world.contains(id),
        forall|i: int, k: int|
            0 <= i < fvs.len() && 0 <= k <= fvs[i].0.len() ==> !unindexed(m, id, fvs).fields.contains(
                (field_name(#[trigger] fvs[i].0.take(k)), id),
            ),
        forall|i: int|
            0 <= i < fvs.len() ==> !unindexed(m, id, fvs).values.contains(
                (field_name(#[trigger] fvs[i].0), normal(fvs[i].1), id),
            ),
{
    assert forall|i: int, k: int|
        0 <= i < fvs.len() && 0 <= k <= fvs[i].0.len() implies !unindexed(m, id, fvs).fields.contains(
            (field_name(#[trigger] fvs[i].0.take(k)), id),
        ) by {
        let path = fvs[i].0;
        assert(0 <= k <= path.len() && field_name(path.take(k)) == field_name(path.take(k)));
        assert(exists|q: int| 0 <= q <= path.len() && field_name(path.take(k)) == field_name(#[trigger] path.take(q)));
        assert(prefix_names(fvs[i].0).contains(field_name(fvs[i].0.take(k))));
        let name = field_name(fvs[i].0.take(k));
        assert(0 <= i < fvs.len() && prefix_names(fvs[i].0).contains(name));
        assert(exists|j: int| 0 <= j < fvs.len() && #[trigger] prefix_names(fvs[j].0).contains(name));
        let p = (name, id);
        assert(p.0 == name && p.1 == id);
        assert(exists|j: int| 0 <= j < fvs.len() && #[trigger] prefix_names(fvs[j].0).contains(p.0));
        assert(field_pairs_of(id, fvs).contains(p));
    }
    assert forall|i: int| 0 <= i < fvs.len() implies !unindexed(m, id, fvs).values.contains(
        (field_name(#[trigger] fvs[i].0), normal(fvs[i].1), id),
    ) by {
        assert(value_triples_of(id, fvs).contains((field_name(fvs[i].0), normal(fvs[i].1), id)));
    }
}

/// Whether the index knows nothing of the identifier: it does not exist and
/// has no field and no value.
pub open spec fn absent(m: IndexV, id: Seq<char>) -> bool {
    &&& !m.world.contains(id)
    &&& forall|f: Seq<char>| !(#[trigger] m.fields.contains((f, id)))
    &&& forall|f: Seq<char>, v: ValueV| !(#[trigger] m.values.contains((f, v, id)))
}

/// The negation of a query that is not a list query selects the indexed
/// entities that the query does not select: everything indexed, less what
/// the query selects.
pub proof fn lemma_not_complements(m: IndexV, q: BqlV, x: Seq<char>)
    requires
        !(q is All),
        !(q is Any),
    ensures
        selects(m, BqlV::Not(Box::new(q)), x) == (m.world.contains(x) && !selects(m, q, x)),
{
}

/// `!.f` selects the indexed entities that do not have the field `f`.
pub proof fn lemma_not_defined(m: IndexV, f: Seq<char>, x: Seq<char>)
    ensures
        selects(m, BqlV::Not(Box::new(BqlV::IsDefined { field: f })), x) == (m.world.contains(x) && !m.fields.contains(
            (f, x),
        )),
{
    assert(selects(m, BqlV::IsDefined { field: f }, x) == m.fields.contains((f, x)));
}

/// The negation of a list query selects, among the entities that have its
/// field, those that the list query does not select.
pub proof fn lemma_not_list(m: IndexV, q: BqlV, x: Seq<char>)
    ensures
        q matches BqlV::All { field, .. } ==> selects(m, BqlV::Not(Box::new(q)), x) == (m.fields.contains((field, x))
            && !selects(m, q, x)),
        q matches BqlV::Any { field, .. } ==> selects(m, BqlV::Not(Box::new(q)), x) == (m.fields.contains((field, x))
            && !selects(m, q, x)),
{
}

/// Taking out an entity that was indexed into an index that knew nothing
/// of it gives the index back as it was, except that the fields and values
/// it had stay known.
pub proof fn lemma_remove_undoes_index(m: IndexV, id: Seq<char>, fvs: Seq<FieldValueV>)
    requires
        absent(m, id),
    ensures
        unindexed(indexed(m, id, fvs), id, fvs) == (IndexV { keys: m.keys + value_keys_of(fvs), ..m }),
{
    let r = unindexed(indexed(m, id, fvs), id, fvs);
    assert(r.world =~= m.world);
    assert forall|p: (Seq<char>, Seq<char>)| #[trigger] r.fields.contains(p) <==> m.fields.contains(p) by {
        if m.fields.contains(p) && field_pairs_of(id, fvs).contains(p) {
            assert(m.fields.contains((p.0, id)));
        }
    }
    assert(r.fields =~= m.fields);
    assert forall|t: (Seq<char>, ValueV, Seq<char>)| #[trigger] r.values.contains(t) <==> m.values.contains(t) by {
        if m.values.contains(t) && value_triples_of(id, fvs).contains(t) {
            assert(m.values.contains((t.0, t.1, id)));
        }
    }
    assert(r.values =~= m.values);
    assert(r.keys =~= m.keys + value_keys_of(fvs));
}

/// The identifiers of an intersection, union or difference of two sets of
/// identifiers, handed out one by one in increasing order.
pub struct EntityIDSetOperationIter {
    items: Vec<EntityID>,
    pos: usize,
}

impl View for EntityIDSetOperationIter {
    type V = Seq<Seq<char>>;

    closed spec fn view(&self) -> Seq<Seq<char>> {
        id_texts(self.items@).skip(self.pos as int)
    }
}

impl EntityIDSetOperationIter {
    #[verifier::type_invariant]
    closed spec fn within(self) -> bool {
        self.pos <= self.items@.len()
    }

    /// The identifiers in `a` and `b` (`And`), in either (`Or`), or in `a`
    /// and not `b` (`Diff`), from two increasing lists.
    pub fn new(op: SetOperation, a: &Vec<EntityID>, b: &Vec<EntityID>) -> (r: EntityIDSetOperationIter)
        requires
            sorted(id_texts(a@)),
            sorted(id_texts(b@)),
        ensures
            sorted(r@),
            forall|x: Seq<char>| #[trigger] r@.contains(x) <==> combined(op, id_texts(a@).contains(x), id_texts(b@).contains(x)),
    {
        let ta = from_entity_ids(a);
        let tb = from_entity_ids(b);
        let m = merge(op, &ta, &tb);
        let items = to_entity_ids(&m);
        let r = EntityIDSetOperationIter { items, pos: 0 };
        assert(id_texts(r.items@).skip(0) =~= id_texts(r.items@));
        r
    }

    /// The next identifier, if any is left.
    pub fn next(&mut self) -> (r: Option<EntityID>)
        ensures
            match r {
                Some(x) => old(self)@.len() > 0 && x@.text() == old(self)@[0] && final(self)@ == old(self)@.drop_first(),
                None => old(self)@.len() == 0 && final(self)@ == old(self)@,
            },
    {
        proof {
            use_type_invariant(&*self);
        }
        if self.pos < self.items.len() {
            let x = self.items[self.pos].duplicate();
            let ghost before = self@;
            self.pos = self.pos + 1;
            assert(self@ =~= before.drop_first());
            Some(x)
        } else {
            None
        }
    }
}

} // verus!
