//! The keys and values of an ordered index backend, and the batches of
//! changes that indexing a document makes to it.

pub mod ordered;

use vstd::prelude::*;
use crate::bql::{lemma_value_order, normal, value_order, Value, ValueV};
use crate::flatserde::{flat_fields, flat_values, FlatJsonFieldIterator, FlatJsonValueIterator};
use crate::json::{Json, JsonV};
use crate::order::{compare_texts, int_order, lemma_text_order, text_order, Order};
use crate::text::chars_of;

verus! {

/// A key of the backend: a field, or a value found in a field.
#[derive(Debug, Clone, PartialEq)]
pub enum IndexKey {
    FieldKey { field: String },
    ValueKey { field: String, value: Value },
}

/// The mathematical value of an [`IndexKey`].
pub enum IndexKeyV {
    FieldKey { field: Seq<char> },
    ValueKey { field: Seq<char>, value: ValueV },
}

impl View for IndexKey {
    type V = IndexKeyV;

    open spec fn view(&self) -> IndexKeyV {
        match self {
            IndexKey::FieldKey { field } => IndexKeyV::FieldKey { field: field@ },
            IndexKey::ValueKey { field, value } => IndexKeyV::ValueKey { field: field@, value: value@ },
        }
    }
}

/// A value of the backend: the identifier of what has a key.
#[derive(Debug, Clone, PartialEq)]
pub enum IndexValue {
    IDStrValue(String),
    IDIntValue(usize),
}

/// The mathematical value of an [`IndexValue`].
pub enum IndexValueV {
    IDStrValue(Seq<char>),
    IDIntValue(int),
}

impl View for IndexValue {
    type V = IndexValueV;

    open spec fn view(&self) -> IndexValueV {
        match self {
            IndexValue::IDStrValue(s) => IndexValueV::IDStrValue(s@),
            IndexValue::IDIntValue(n) => IndexValueV::IDIntValue(*n as int),
        }
    }
}

/// The order of keys: fields before values; fields by name; values by
/// field name and then by value.
pub open spec fn key_order(a: IndexKeyV, b: IndexKeyV) -> Order {
    match (a, b) {
        (IndexKeyV::FieldKey { field: f }, IndexKeyV::FieldKey { field: g }) => text_order(f, g),
        (IndexKeyV::FieldKey { .. }, IndexKeyV::ValueKey { .. }) => Order::Less,
        (IndexKeyV::ValueKey { .. }, IndexKeyV::FieldKey { .. }) => Order::Greater,
        (IndexKeyV::ValueKey { field: f, value: v }, IndexKeyV::ValueKey { field: g, value: w }) => if text_order(f, g)
            != Order::Equal {
            text_order(f, g)
        } else {
            value_order(v, w)
        },
    }
}

/// The representative of a key among those equal to it.
pub open spec fn key_normal(k: IndexKeyV) -> IndexKeyV {
    match k {
        IndexKeyV::ValueKey { field, value } => IndexKeyV::ValueKey { field, value: normal(value) },
        _ => k,
    }
}

/// The order of values: text identifiers before numbers; texts by code
/// point, numbers by size.
pub open spec fn ivalue_order(a: IndexValueV, b: IndexValueV) -> Order {
    match (a, b) {
        (IndexValueV::IDStrValue(s), IndexValueV::IDStrValue(t)) => text_order(s, t),
        (IndexValueV::IDStrValue(_), IndexValueV::IDIntValue(_)) => Order::Less,
        (IndexValueV::IDIntValue(_), IndexValueV::IDStrValue(_)) => Order::Greater,
        (IndexValueV::IDIntValue(m), IndexValueV::IDIntValue(n)) => int_order(m, n),
    }
}

/// The order of keys is a total preorder whose equal keys are those with
/// the same representative.
pub proof fn lemma_key_order(a: IndexKeyV, b: IndexKeyV, c: IndexKeyV)
    ensures
        key_order(b, a) == key_order(a, b).flip(),
        key_order(a, b) == Order::Equal <==> key_normal(a) == key_normal(b),
        key_order(a, b) == Order::Less && key_order(b, c) == Order::Less ==> key_order(a, c) == Order::Less,
        key_order(a, b) == Order::Equal && key_order(b, c) == Order::Less ==> key_order(a, c) == Order::Less,
        key_order(a, b) == Order::Less && key_order(b, c) == Order::Equal ==> key_order(a, c) == Order::Less,
        key_order(key_normal(a), b) == key_order(a, b),
{
    let fa = match a { IndexKeyV::FieldKey { field } => field, IndexKeyV::ValueKey { field, .. } => field };
    let fb = match b { IndexKeyV::FieldKey { field } => field, IndexKeyV::ValueKey { field, .. } => field };
    let fc = match c { IndexKeyV::FieldKey { field } => field, IndexKeyV::ValueKey { field, .. } => field };
    let va = match a { IndexKeyV::ValueKey { value, .. } => value, _ => ValueV::Bottom };
    let vb = match b { IndexKeyV::ValueKey { value, .. } => value, _ => ValueV::Bottom };
    let vc = match c { IndexKeyV::ValueKey { value, .. } => value, _ => ValueV::Bottom };
    lemma_text_order(fa, fb, fc);
    lemma_text_order(fb, fa, fc);
    lemma_text_order(fa, fc, fb);
    lemma_text_order(fb, fc, fa);
    lemma_value_order(va, vb, vc);
    lemma_value_order(vb, va, vc);
    lemma_value_order(va, vc, vb);
    lemma_value_order(vb, vc, va);
}

/// The order of values is a strict total order.
pub proof fn lemma_ivalue_order(a: IndexValueV, b: IndexValueV, c: IndexValueV)
    ensures
        ivalue_order(b, a) == ivalue_order(a, b).flip(),
        ivalue_order(a, b) == Order::Equal <==> a == b,
        ivalue_order(a, b) == Order::Less && ivalue_order(b, c) == Order::Less ==> ivalue_order(a, c) == Order::Less,
{
    match (a, b, c) {
        (IndexValueV::IDStrValue(s), IndexValueV::IDStrValue(t), IndexValueV::IDStrValue(u)) => {
            lemma_text_order(s, t, u);
        },
        (IndexValueV::IDStrValue(s), IndexValueV::IDStrValue(t), _) => {
            lemma_text_order(s, t, t);
        },
        _ => {},
    }
}

impl IndexKey {
    /// Compares two keys (see [`key_order`]).
    pub fn compare(&self, other: &IndexKey) -> (r: Order)
        ensures
            r == key_order(self@, other@),
    {
        match (self, other) {
            (IndexKey::FieldKey { field: f }, IndexKey::FieldKey { field: g }) => compare_texts(
                &chars_of(f.as_str()),
                &chars_of(g.as_str()),
            ),
            (IndexKey::FieldKey { .. }, IndexKey::ValueKey { .. }) => Order::Less,
            (IndexKey::ValueKey { .. }, IndexKey::FieldKey { .. }) => Order::Greater,
            (IndexKey::ValueKey { field: f, value: v }, IndexKey::ValueKey { field: g, value: w }) => {
                let o = compare_texts(&chars_of(f.as_str()), &chars_of(g.as_str()));
                if o != Order::Equal {
                    o
                } else {
                    v.compare(w)
                }
            },
        }
    }

    /// The representative of the key among those equal to it.
    pub fn normalized(&self) -> (r: IndexKey)
        ensures
            r@ == key_normal(self@),
    {
        match self {
            IndexKey::FieldKey { field } => IndexKey::FieldKey { field: field.clone() },
            IndexKey::ValueKey { field, value } => IndexKey::ValueKey { field: field.clone(), value: value.normalized() },
        }
    }

    /// The smallest key of the key's kind and field: the smallest of all
    /// keys for a field key, the bottom value of the field for a value key.
    pub fn key_bottom(&self) -> (r: IndexKey)
        ensures
            r@ == match self@ {
                IndexKeyV::FieldKey { .. } => IndexKeyV::FieldKey { field: Seq::empty() },
                IndexKeyV::ValueKey { field, .. } => IndexKeyV::ValueKey { field, value: ValueV::Bottom },
            },
    {
        match self {
            IndexKey::FieldKey { .. } => IndexKey::bottom(),
            IndexKey::ValueKey { field, .. } => IndexKey::ValueKey { field: field.clone(), value: Value::Bottom },
        }
    }

    /// The largest key of the key's kind and field: the top key for a field
    /// key, the top value of the field for a value key.
    pub fn key_top(&self) -> (r: IndexKey)
        ensures
            r@ == match self@ {
                IndexKeyV::FieldKey { .. } => IndexKeyV::ValueKey { field: "~"@, value: ValueV::Top },
                IndexKeyV::ValueKey { field, .. } => IndexKeyV::ValueKey { field, value: ValueV::Top },
            },
    {
        match self {
            IndexKey::FieldKey { .. } => IndexKey::top(),
            IndexKey::ValueKey { field, .. } => IndexKey::ValueKey { field: field.clone(), value: Value::Top },
        }
    }

    /// The field key of the empty name: no key comes before it.
    pub fn bottom() -> (r: IndexKey)
        ensures
            r@ == (IndexKeyV::FieldKey { field: Seq::empty() }),
    {
        IndexKey::FieldKey { field: String::new() }
    }

    /// The top value of the field `~`.
    pub fn top() -> (r: IndexKey)
        ensures
            r@ == (IndexKeyV::ValueKey { field: "~"@, value: ValueV::Top }),
    {
        IndexKey::ValueKey { field: "~".to_owned(), value: Value::Top }
    }
}

impl IndexValue {
    /// Compares two values (see [`ivalue_order`]).
    pub fn compare(&self, other: &IndexValue) -> (r: Order)
        ensures
            r == ivalue_order(self@, other@),
    {
        match (self, other) {
            (IndexValue::IDStrValue(s), IndexValue::IDStrValue(t)) => compare_texts(
                &chars_of(s.as_str()),
                &chars_of(t.as_str()),
            ),
            (IndexValue::IDStrValue(_), IndexValue::IDIntValue(_)) => Order::Less,
            (IndexValue::IDIntValue(_), IndexValue::IDStrValue(_)) => Order::Greater,
            (IndexValue::IDIntValue(m), IndexValue::IDIntValue(n)) => {
                if *m < *n {
                    Order::Less
                } else if *m == *n {
                    Order::Equal
                } else {
                    Order::Greater
                }
            },
        }
    }

    /// A copy of the value.
    pub fn duplicate(&self) -> (r: IndexValue)
        ensures
            r@ == self@,
    {
        match self {
            IndexValue::IDStrValue(s) => IndexValue::IDStrValue(s.clone()),
            IndexValue::IDIntValue(n) => IndexValue::IDIntValue(*n),
        }
    }
}

/// A key with the smallest and the largest of the values it has.
#[derive(Debug, Clone, PartialEq)]
pub struct KeyScanItem {
    pub key: IndexKey,
    pub min: IndexValue,
    pub max: IndexValue,
}

/// A change to the backend: a value added to a key or taken from it.
#[derive(Debug, Clone, PartialEq)]
pub enum BatchOp {
    Add(IndexKey, IndexValue),
    Del(IndexKey, IndexValue),
}

/// The mathematical value of a [`BatchOp`].
pub enum BatchOpV {
    Add(IndexKeyV, IndexValueV),
    Del(IndexKeyV, IndexValueV),
}

impl View for BatchOp {
    type V = BatchOpV;

    open spec fn view(&self) -> BatchOpV {
        match self {
            BatchOp::Add(k, v) => BatchOpV::Add(k@, v@),
            BatchOp::Del(k, v) => BatchOpV::Del(k@, v@),
        }
    }
}

/// The values of changes.
pub open spec fn op_views(ops: Seq<BatchOp>) -> Seq<BatchOpV> {
    ops.map_values(|o: BatchOp| o@)
}

/// The value a scalar document is indexed under: booleans, numbers and
/// strings as themselves, anything else as the bottom value.
pub open spec fn json_value(j: JsonV) -> ValueV {
    match j {
        JsonV::Bool(b) => ValueV::Boolean(b),
        JsonV::Number(d, _) => ValueV::Rational(d),
        JsonV::String(s) => ValueV::Text(s),
        _ => ValueV::Bottom,
    }
}

/// The changes that indexing a document under `id` makes, in order: for
/// every scalar, breadth first, its value under its field; then every
/// field, breadth first and once. `add` tells additions from removals.
pub open spec fn data_ops(id: Seq<char>, j: JsonV, add: bool) -> Seq<BatchOpV> {
    flat_values(j).map_values(
        |fv: (Seq<char>, JsonV)|
            if add {
                BatchOpV::Add(
                    IndexKeyV::ValueKey { field: fv.0, value: json_value(fv.1) },
                    IndexValueV::IDStrValue(id),
                )
            } else {
                BatchOpV::Del(
                    IndexKeyV::ValueKey { field: fv.0, value: json_value(fv.1) },
                    IndexValueV::IDStrValue(id),
                )
            },
    ) + flat_fields(j).map_values(
        |f: Seq<char>|
            if add {
                BatchOpV::Add(IndexKeyV::FieldKey { field: f }, IndexValueV::IDStrValue(id))
            } else {
                BatchOpV::Del(IndexKeyV::FieldKey { field: f }, IndexValueV::IDStrValue(id))
            },
    )
}

/// A list of changes to apply in order.
#[derive(Debug, Clone, PartialEq)]
pub struct Batch {
    items: Vec<BatchOp>,
}

impl View for Batch {
    type V = Seq<BatchOpV>;

    closed spec fn view(&self) -> Seq<BatchOpV> {
        op_views(self.items@)
    }
}

impl Value {
    /// The value of a scalar document (see [`json_value`]).
    pub fn from_json(j: &Json) -> (r: Value)
        ensures
            r@ == json_value(j@),
    {
        match j {
            Json::Bool(b) => Value::Boolean(*b),
            Json::Number(d, _) => Value::Rational(d.duplicate()),
            Json::String(s) => Value::Text(s.clone()),
            _ => Value::Bottom,
        }
    }
}

impl Batch {
    /// No changes.
    pub fn new() -> (r: Batch)
        ensures
            r@ == Seq::<BatchOpV>::empty(),
    {
        let r = Batch { items: Vec::new() };
        assert(r@ =~= Seq::<BatchOpV>::empty());
        r
    }

    /// A batch of the given changes.
    pub fn from_items(items: Vec<BatchOp>) -> (r: Batch)
        ensures
            r@ == op_views(items@),
    {
        Batch { items }
    }

    /// The changes, in order.
    pub fn iter(&self) -> (r: Vec<BatchOp>)
        ensures
            op_views(r@) == self@,
    {
        let mut r: Vec<BatchOp> = Vec::new();
        let n = self.items.len();
        for i in 0..n
            invariant
                n == self.items@.len(),
                op_views(r@) == op_views(self.items@).take(i as int),
        {
            let ghost before = op_views(r@);
            let op = match &self.items[i] {
                BatchOp::Add(k, v) => BatchOp::Add(k.clone_key(), v.duplicate()),
                BatchOp::Del(k, v) => BatchOp::Del(k.clone_key(), v.duplicate()),
            };
            r.push(op);
            assert(op_views(r@) =~= before.push(self.items@[i as int]@));
            assert(op_views(self.items@).take(i + 1) =~= op_views(self.items@).take(i as int).push(self.items@[i as int]@));
        }
        assert(op_views(self.items@).take(n as int) =~= op_views(self.items@));
        r
    }

    /// The number of changes.
    pub fn len(&self) -> (r: usize)
        ensures
            r == self@.len(),
    {
        self.items.len()
    }

    /// The changes of indexing or unindexing a document (see [`data_ops`]).
    fn data(id: &str, data: &Json, add: bool) -> (r: Batch)
        ensures
            r@ == data_ops(id@, data@, add),
    {
        let mut items: Vec<BatchOp> = Vec::new();
        let mut values = FlatJsonValueIterator::new(data);
        let ghost all_values = values@;
        assert(all_values.skip(0) =~= all_values);
        assert(op_views(items@) =~= Seq::<BatchOpV>::empty());
        let ghost vmap = all_values.map_values(
            |fv: (Seq<char>, JsonV)|
                if add {
                    BatchOpV::Add(IndexKeyV::ValueKey { field: fv.0, value: json_value(fv.1) }, IndexValueV::IDStrValue(id@))
                } else {
                    BatchOpV::Del(IndexKeyV::ValueKey { field: fv.0, value: json_value(fv.1) }, IndexValueV::IDStrValue(id@))
                },
        );
        loop
            invariant
                all_values == flat_values(data@),
                vmap.len() == all_values.len(),
                forall|k: int| 0 <= k < all_values.len() ==> #[trigger] vmap[k] == (if add {
                    BatchOpV::Add(IndexKeyV::ValueKey { field: all_values[k].0, value: json_value(all_values[k].1) }, IndexValueV::IDStrValue(id@))
                } else {
                    BatchOpV::Del(IndexKeyV::ValueKey { field: all_values[k].0, value: json_value(all_values[k].1) }, IndexValueV::IDStrValue(id@))
                }),
                values@.len() <= all_values.len(),
                values@ == all_values.skip(all_values.len() - values@.len()),
                op_views(items@) == vmap.take(all_values.len() - values@.len()),
            ensures
                op_views(items@) == vmap,
            decreases values@.len(),
        {
            let ghost before_items = op_views(items@);
            let ghost before_values = values@;
            match values.next() {
                Some((field, v)) => {
                    let key = IndexKey::ValueKey { field, value: Value::from_json(&v) };
                    let op = if add {
                        BatchOp::Add(key, IndexValue::IDStrValue(id.to_owned()))
                    } else {
                        BatchOp::Del(key, IndexValue::IDStrValue(id.to_owned()))
                    };
                    items.push(op);
                    let ghost done = all_values.len() - before_values.len();
                    assert(before_values[0] == all_values[done]);
                    assert(values@ =~= all_values.skip(all_values.len() - values@.len()));
                    assert(vmap.take(done + 1) =~= vmap.take(done).push(vmap[done]));
                    assert(op_views(items@) =~= before_items.push(vmap[done]));
                },
                None => {
                    assert(vmap.take(all_values.len() as int) =~= vmap);
                    break;
                },
            }
        }
        let mut fields = FlatJsonFieldIterator::new(data);
        let ghost all_fields = fields@;
        assert(all_fields.skip(0) =~= all_fields);
        let ghost fmap = all_fields.map_values(
            |f: Seq<char>|
                if add {
                    BatchOpV::Add(IndexKeyV::FieldKey { field: f }, IndexValueV::IDStrValue(id@))
                } else {
                    BatchOpV::Del(IndexKeyV::FieldKey { field: f }, IndexValueV::IDStrValue(id@))
                },
        );
        loop
            invariant
                all_fields == flat_fields(data@),
                fmap.len() == all_fields.len(),
                forall|k: int| 0 <= k < all_fields.len() ==> #[trigger] fmap[k] == (if add {
                    BatchOpV::Add(IndexKeyV::FieldKey { field: all_fields[k] }, IndexValueV::IDStrValue(id@))
                } else {
                    BatchOpV::Del(IndexKeyV::FieldKey { field: all_fields[k] }, IndexValueV::IDStrValue(id@))
                }),
                fields@.len() <= all_fields.len(),
                fields@ == all_fields.skip(all_fields.len() - fields@.len()),
                op_views(items@) == vmap + fmap.take(all_fields.len() - fields@.len()),
            ensures
                op_views(items@) == vmap + fmap,
            decreases fields@.len(),
        {
            let ghost before_items = op_views(items@);
            let ghost before_fields = fields@;
            match fields.next() {
                Some(field) => {
                    let key = IndexKey::FieldKey { field };
                    let op = if add {
                        BatchOp::Add(key, IndexValue::IDStrValue(id.to_owned()))
                    } else {
                        BatchOp::Del(key, IndexValue::IDStrValue(id.to_owned()))
                    };
                    items.push(op);
                    let ghost done = all_fields.len() - before_fields.len();
                    assert(before_fields[0] == all_fields[done]);
                    assert(fields@ =~= all_fields.skip(all_fields.len() - fields@.len()));
                    assert(fmap.take(done + 1) =~= fmap.take(done).push(fmap[done]));
                    assert(op_views(items@) =~= before_items.push(fmap[done]));
                },
                None => {
                    assert(fmap.take(all_fields.len() as int) =~= fmap);
                    break;
                },
            }
        }
        Batch { items }
    }

    /// The additions of indexing a document under `id` (see [`data_ops`]).
    pub fn add_data(id: &str, data: &Json) -> (r: Result<Batch, String>)
        ensures
            r matches Ok(b) && b@ == data_ops(id@, data@, true),
    {
        Ok(Batch::data(id, data, true))
    }

    /// The removals of unindexing a document under `id` (see [`data_ops`]).
    pub fn del_data(id: &str, data: &Json) -> (r: Result<Batch, String>)
        ensures
            r matches Ok(b) && b@ == data_ops(id@, data@, false),
    {
        Ok(Batch::data(id, data, false))
    }
}

impl IndexKey {
    /// A copy of the key.
    pub fn clone_key(&self) -> (r: IndexKey)
        ensures
            r@ == self@,
    {
        match self {
            IndexKey::FieldKey { field } => IndexKey::FieldKey { field: field.clone() },
            IndexKey::ValueKey { field, value } => IndexKey::ValueKey { field: field.clone(), value: value.duplicate() },
        }
    }
}

} // verus!
