//! Documents as JSON values, and their flattening into field paths and the
//! values found there.

use vstd::prelude::*;
use crate::bql::{Value, ValueV};
use crate::number::{Decimal, Rational};
use crate::text::{join, push_all, push_str, chars_of, string_from_chars};

verus! {

/// A JSON document. Object members keep the order they are given in.
#[derive(Debug, PartialEq)]
pub enum Json {
    Null,
    Bool(bool),
    /// A number, and whether it is written as an integer: without a point
    /// or an exponent.
    Number(Rational, bool),
    String(String),
    Array(Vec<Json>),
    Object(Vec<(String, Json)>),
}

/// The mathematical value of a [`Json`] document.
pub enum JsonV {
    Null,
    Bool(bool),
    Number(Decimal, bool),
    String(Seq<char>),
    Array(Seq<JsonV>),
    Object(Seq<(Seq<char>, JsonV)>),
}

/// The values of a sequence of documents.
pub open spec fn json_views(items: Seq<Json>) -> Seq<JsonV>
    decreases items,
{
    if items.len() == 0 {
        Seq::empty()
    } else {
        seq![items[0]@] + json_views(items.drop_first())
    }
}

/// The values of a sequence of object members.
pub open spec fn member_views(members: Seq<(String, Json)>) -> Seq<(Seq<char>, JsonV)>
    decreases members,
{
    if members.len() == 0 {
        Seq::empty()
    } else {
        seq![(members[0].0@, members[0].1@)] + member_views(members.drop_first())
    }
}

impl View for Json {
    type V = JsonV;

    open spec fn view(&self) -> JsonV
        decreases self,
    {
        match self {
            Json::Null => JsonV::Null,
            Json::Bool(b) => JsonV::Bool(*b),
            Json::Number(n, whole) => JsonV::Number(n@, *whole),
            Json::String(s) => JsonV::String(s@),
            Json::Array(items) => JsonV::Array(json_views(items@)),
            Json::Object(members) => JsonV::Object(member_views(members@)),
        }
    }
}

pub proof fn lemma_json_views(items: Seq<Json>)
    ensures
        json_views(items).len() == items.len(),
        forall|k: int| 0 <= k < items.len() ==> #[trigger] json_views(items)[k] == items[k]@,
    decreases items.len(),
{
    if items.len() == 0 {
        assert(json_views(items) == Seq::<JsonV>::empty());
    } else {
        assert(json_views(items) == seq![items[0]@] + json_views(items.drop_first()));
        lemma_json_views(items.drop_first());
        assert forall|k: int| 0 <= k < items.len() implies #[trigger] json_views(items)[k] == items[k]@ by {
            if k > 0 {
                assert(json_views(items)[k] == json_views(items.drop_first())[k - 1]);
            }
        }
    }
}

pub proof fn lemma_member_views(members: Seq<(String, Json)>)
    ensures
        member_views(members).len() == members.len(),
        forall|k: int| 0 <= k < members.len() ==> #[trigger] member_views(members)[k] == (members[k].0@, members[k].1@),
    decreases members.len(),
{
    if members.len() == 0 {
        assert(member_views(members) == Seq::<(Seq<char>, JsonV)>::empty());
    } else {
        assert(member_views(members) == seq![(members[0].0@, members[0].1@)] + member_views(members.drop_first()));
        lemma_member_views(members.drop_first());
        assert forall|k: int| 0 <= k < members.len() implies #[trigger] member_views(members)[k] == (members[k].0@, members[k].1@) by {
            if k > 0 {
                assert(member_views(members)[k] == member_views(members.drop_first())[k - 1]);
            }
        }
    }
}

impl Json {
    /// A deep copy.
    pub fn duplicate(&self) -> (r: Json)
        ensures
            r@ == self@,
        decreases self,
    {
        match self {
            Json::Null => Json::Null,
            Json::Bool(b) => Json::Bool(*b),
            Json::Number(n, whole) => Json::Number(n.duplicate(), *whole),
            Json::String(t) => Json::String(t.clone()),
            Json::Array(items) => {
                let n = items.len();
                proof {
                    lemma_json_views(items@);
                }
                let mut out: Vec<Json> = Vec::new();
                for i in 0..n
                    invariant
                        n == items@.len(),
                        *self == Json::Array(*items),
                        out@.len() == i,
                        forall|k: int| 0 <= k < i ==> #[trigger] out@[k]@ == items@[k]@,
                {
                    proof {
                        assert(decreases_to!(*self => (*self)->Array_0));
                        assert(decreases_to!(*items => items@));
                        assert(decreases_to!(items@ => items@[i as int]));
                    }
                    out.push(items[i].duplicate());
                }
                proof {
                    lemma_json_views(out@);
                    assert(json_views(out@) =~= json_views(items@));
                }
                Json::Array(out)
            },
            Json::Object(members) => {
                let n = members.len();
                proof {
                    lemma_member_views(members@);
                }
                let mut out: Vec<(String, Json)> = Vec::new();
                for i in 0..n
                    invariant
                        n == members@.len(),
                        *self == Json::Object(*members),
                        out@.len() == i,
                        forall|k: int| 0 <= k < i ==> #[trigger] out@[k].0@ == members@[k].0@,
                        forall|k: int| 0 <= k < i ==> #[trigger] out@[k].1@ == members@[k].1@,
                {
                    proof {
                        assert(decreases_to!(*self => (*self)->Object_0));
                        assert(decreases_to!(*members => members@));
                        assert(decreases_to!(members@ => members@[i as int]));
                        assert(decreases_to!(members@[i as int] => members@[i as int].1));
                    }
                    let v = members[i].1.duplicate();
                    let name = members[i].0.clone();
                    assert(name@ == members@[i as int].0@);
                    let ghost prev = out@;
                    out.push((name, v));
                    assert forall|k: int| 0 <= k < i + 1 implies #[trigger] out@[k].0@ == members@[k].0@ by {
                        if k < i {
                            assert(out@[k] == prev[k]);
                            assert(prev[k].0@ == members@[k].0@);
                        }
                    }
                }
                proof {
                    lemma_member_views(out@);
                    assert(member_views(out@) =~= member_views(members@));
                }
                Json::Object(out)
            },
        }
    }

    /// Whether two documents are equal: same kind, same scalar, and equal
    /// elements or members in the same order.
    pub fn same(&self, other: &Json) -> (r: bool)
        ensures
            r == (self@ == other@),
        decreases self,
    {
        match self {
            Json::Null => match other {
                Json::Null => true,
                _ => false,
            },
            Json::Bool(a) => match other {
                Json::Bool(b) => *a == *b,
                _ => false,
            },
            Json::Number(a, wa) => match other {
                Json::Number(b, wb) => {
                    let o = a.compare(b);
                    proof {
                        crate::number::lemma_decimal_order_equal(a@, b@);
                    }
                    o == crate::order::Order::Equal && *wa == *wb
                },
                _ => false,
            },
            Json::String(a) => match other {
                Json::String(b) => crate::text::chars_eq(&chars_of(a.as_str()), &chars_of(b.as_str())),
                _ => false,
            },
            Json::Array(xs) => match other {
                Json::Array(ys) => {
                    proof {
                        lemma_json_views(xs@);
                        lemma_json_views(ys@);
                    }
                    if xs.len() != ys.len() {
                        return false;
                    }
                    let n = xs.len();
                    for i in 0..n
                        invariant
                            n == xs@.len(),
                            n == ys@.len(),
                            *self == Json::Array(*xs),
                            self@ == JsonV::Array(json_views(xs@)),
                            other@ == JsonV::Array(json_views(ys@)),
                            forall|k: int| 0 <= k < i ==> #[trigger] xs@[k]@ == ys@[k]@,
                    {
                        proof {
                            assert(decreases_to!(*self => (*self)->Array_0));
                            assert(decreases_to!(*xs => xs@));
                            assert(decreases_to!(xs@ => xs@[i as int]));
                        }
                        if !xs[i].same(&ys[i]) {
                            proof {
                                lemma_json_views(xs@);
                                lemma_json_views(ys@);
                                assert(json_views(xs@)[i as int] != json_views(ys@)[i as int]);
                                assert(self@ == JsonV::Array(json_views(xs@)));
                                assert(other@ == JsonV::Array(json_views(ys@)));
                            }
                            return false;
                        }
                    }
                    proof {
                        lemma_json_views(xs@);
                        lemma_json_views(ys@);
                    }
                    assert(json_views(xs@) =~= json_views(ys@));
                    true
                },
                _ => false,
            },
            Json::Object(xs) => match other {
                Json::Object(ys) => {
                    proof {
                        lemma_member_views(xs@);
                        lemma_member_views(ys@);
                    }
                    if xs.len() != ys.len() {
                        return false;
                    }
                    let n = xs.len();
                    for i in 0..n
                        invariant
                            n == xs@.len(),
                            n == ys@.len(),
                            *self == Json::Object(*xs),
                            self@ == JsonV::Object(member_views(xs@)),
                            other@ == JsonV::Object(member_views(ys@)),
                            forall|k: int| 0 <= k < i ==> #[trigger] xs@[k].0@ == ys@[k].0@,
                            forall|k: int| 0 <= k < i ==> #[trigger] xs@[k].1@ == ys@[k].1@,
                    {
                        proof {
                            assert(decreases_to!(*self => (*self)->Object_0));
                            assert(decreases_to!(*xs => xs@));
                            assert(decreases_to!(xs@ => xs@[i as int]));
                            assert(decreases_to!(xs@[i as int] => xs@[i as int].1));
                        }
                        let same_name = crate::text::chars_eq(&chars_of(xs[i].0.as_str()), &chars_of(ys[i].0.as_str()));
                        if !same_name || !xs[i].1.same(&ys[i].1) {
                            proof {
                                lemma_member_views(xs@);
                                lemma_member_views(ys@);
                                assert(member_views(xs@)[i as int] != member_views(ys@)[i as int]);
                                assert(self@ == JsonV::Object(member_views(xs@)));
                                assert(other@ == JsonV::Object(member_views(ys@)));
                            }
                            return false;
                        }
                    }
                    proof {
                        lemma_member_views(xs@);
                        lemma_member_views(ys@);
                    }
                    assert(member_views(xs@) =~= member_views(ys@));
                    true
                },
                _ => false,
            },
        }
    }
}

/// A path of member names and the scalar value found there.
pub type FieldValueV = (Seq<Seq<char>>, ValueV);

/// The scalar values of a document with the member path that leads to
/// each, depth first and in member order; array elements keep the path of
/// their array. `null` is the bottom value.
pub open spec fn field_values(path: Seq<Seq<char>>, j: JsonV) -> Seq<FieldValueV>
    decreases j,
{
    match j {
        JsonV::Null => seq![(path, ValueV::Bottom)],
        JsonV::Bool(b) => seq![(path, ValueV::Boolean(b))],
        JsonV::Number(d, _) => seq![(path, ValueV::Rational(d))],
        JsonV::String(t) => seq![(path, ValueV::Text(t))],
        JsonV::Array(items) => items_field_values(path, items),
        JsonV::Object(members) => members_field_values(path, members),
    }
}

/// The field values of array elements, in order.
pub open spec fn items_field_values(path: Seq<Seq<char>>, items: Seq<JsonV>) -> Seq<FieldValueV>
    decreases items,
{
    if items.len() == 0 {
        Seq::empty()
    } else {
        items_field_values(path, items.drop_last()) + field_values(path, items.last())
    }
}

/// The field values of object members, in order.
pub open spec fn members_field_values(path: Seq<Seq<char>>, members: Seq<(Seq<char>, JsonV)>) -> Seq<FieldValueV>
    decreases members,
{
    if members.len() == 0 {
        Seq::empty()
    } else {
        members_field_values(path, members.drop_last()) + field_values(
            path.push(members.last().0),
            members.last().1,
        )
    }
}

/// The name of a field path: `.a.b`, and `.` for the empty path.
pub open spec fn field_name(path: Seq<Seq<char>>) -> Seq<char> {
    "."@ + join(path, "."@)
}

/// A member path and the scalar value found there.
#[derive(Debug, PartialEq)]
pub struct FieldValue {
    pub accessor: Vec<String>,
    pub value: Value,
}

/// The texts of strings.
pub open spec fn string_views(v: Seq<String>) -> Seq<Seq<char>> {
    v.map_values(|s: String| s@)
}

impl View for FieldValue {
    type V = FieldValueV;

    open spec fn view(&self) -> FieldValueV {
        (string_views(self.accessor@), self.value@)
    }
}

/// The values of field values.
pub open spec fn field_value_views(v: Seq<FieldValue>) -> Seq<FieldValueV> {
    v.map_values(|f: FieldValue| f@)
}

/// A copy of a path.
fn copy_path(path: &Vec<String>) -> (r: Vec<String>)
    ensures
        string_views(r@) == string_views(path@),
{
    let mut r: Vec<String> = Vec::new();
    let n = path.len();
    for i in 0..n
        invariant
            n == path@.len(),
            string_views(r@) == string_views(path@).take(i as int),
    {
        let ghost before = string_views(r@);
        r.push(path[i].clone());
        assert(string_views(r@) =~= before.push(path@[i as int]@));
        assert(string_views(path@).take(i + 1) =~= string_views(path@).take(i as int).push(path@[i as int]@));
    }
    assert(string_views(path@).take(n as int) =~= string_views(path@));
    r
}

/// The name of the first `k` members of a path (see [`field_name`]).
pub fn path_name(path: &Vec<String>, k: usize) -> (r: Vec<char>)
    requires
        k <= path@.len(),
    ensures
        r@ == field_name(string_views(path@).take(k as int)),
{
    let mut out: Vec<char> = Vec::new();
    push_str(&mut out, ".");
    let ghost names = string_views(path@);
    for i in 0..k
        invariant
            k <= path@.len(),
            names == string_views(path@),
            out@ == "."@ + join(names.take(i as int), "."@),
    {
        assert(names.take(i + 1).drop_last() =~= names.take(i as int));
        assert(names.take(i + 1).last() == path@[i as int]@);
        if i > 0 {
            push_str(&mut out, ".");
        } else {
            assert(join(names.take(0), "."@) =~= Seq::<char>::empty());
        }
        let part = chars_of(path[i].as_str());
        push_all(&mut out, &part);
        assert(out@ =~= "."@ + join(names.take(i + 1), "."@));
    }
    out
}

impl FieldValue {
    /// A field value from its parts.
    pub fn new(accessor: Vec<String>, value: Value) -> (r: FieldValue)
        ensures
            r.accessor == accessor,
            r.value == value,
    {
        FieldValue { accessor, value }
    }

    /// The name of the field: `.a.b`, and `.` for the empty path.
    pub fn accessor_to_string(&self) -> (r: String)
        ensures
            r@ == field_name(self@.0),
    {
        let out = path_name(&self.accessor, self.accessor.len());
        assert(string_views(self.accessor@).take(self.accessor@.len() as int) =~= self@.0);
        string_from_chars(&out)
    }
}

/// Appends the field values of `j`, found under `path`.
fn collect_field_values(path: &Vec<String>, j: &Json, out: &mut Vec<FieldValue>)
    ensures
        field_value_views(final(out)@) == field_value_views(old(out)@) + field_values(string_views(path@), j@),
    decreases j,
{
    let ghost before = field_value_views(out@);
    match j {
        Json::Null => {
            out.push(FieldValue { accessor: copy_path(path), value: Value::Bottom });
            assert(field_value_views(out@) =~= before + field_values(string_views(path@), j@));
        },
        Json::Bool(b) => {
            out.push(FieldValue { accessor: copy_path(path), value: Value::Boolean(*b) });
            assert(field_value_views(out@) =~= before + field_values(string_views(path@), j@));
        },
        Json::Number(n, _) => {
            out.push(FieldValue { accessor: copy_path(path), value: Value::Rational(n.duplicate()) });
            assert(field_value_views(out@) =~= before + field_values(string_views(path@), j@));
        },
        Json::String(t) => {
            out.push(FieldValue { accessor: copy_path(path), value: Value::Text(t.clone()) });
            assert(field_value_views(out@) =~= before + field_values(string_views(path@), j@));
        },
        Json::Array(items) => {
            let n = items.len();
            proof {
                lemma_json_views(items@);
            }
            let ghost iv = json_views(items@);
            for i in 0..n
                invariant
                    n == items@.len(),
                    iv == json_views(items@),
                    *j == Json::Array(*items),
                    iv.len() == n,
                    forall|k: int| 0 <= k < n ==> #[trigger] iv[k] == items@[k]@,
                    field_value_views(out@) == before + items_field_values(string_views(path@), iv.take(i as int)),
            {
                assert(iv.take(i + 1).drop_last() =~= iv.take(i as int));
                assert(iv.take(i + 1).last() == items@[i as int]@);
                proof {
                    assert(*items == (*j)->Array_0);
                    assert(decreases_to!(*j => (*j)->Array_0));
                    assert(decreases_to!(*items => items@));
                    assert(decreases_to!(items@ => items@[i as int]));
                    assert(decreases_to!(*j => items@[i as int]));
                }
                collect_field_values(path, &items[i], out);
                assert(field_value_views(out@) =~= before + items_field_values(string_views(path@), iv.take(i + 1)));
            }
            assert(iv.take(n as int) =~= iv);
        },
        Json::Object(members) => {
            let n = members.len();
            proof {
                lemma_member_views(members@);
            }
            let ghost mv = member_views(members@);
            for i in 0..n
                invariant
                    n == members@.len(),
                    mv == member_views(members@),
                    *j == Json::Object(*members),
                    mv.len() == n,
                    forall|k: int| 0 <= k < n ==> #[trigger] mv[k] == (members@[k].0@, members@[k].1@),
                    field_value_views(out@) == before + members_field_values(string_views(path@), mv.take(i as int)),
            {
                assert(mv.take(i + 1).drop_last() =~= mv.take(i as int));
                assert(mv.take(i + 1).last() == (members@[i as int].0@, members@[i as int].1@));
                let mut sub = copy_path(path);
                let ghost pv = string_views(sub@);
                sub.push(members[i].0.clone());
                assert(string_views(sub@) =~= string_views(path@).push(members@[i as int].0@));
                proof {
                    assert(*members == (*j)->Object_0);
                    assert(decreases_to!(*j => (*j)->Object_0));
                    assert(decreases_to!(*members => members@));
                    assert(decreases_to!(members@ => members@[i as int]));
                    assert(decreases_to!(members@[i as int] => members@[i as int].1));
                    assert(decreases_to!(*j => members@[i as int].1));
                }
                collect_field_values(&sub, &members[i].1, out);
                assert(field_value_views(out@) =~= before + members_field_values(string_views(path@), mv.take(i + 1)));
            }
            assert(mv.take(n as int) =~= mv);
        },
    }
}

/// The field values of a document (see [`field_values`]).
pub fn to_field_values(j: &Json) -> (r: Vec<FieldValue>)
    ensures
        field_value_views(r@) == field_values(Seq::empty(), j@),
{
    let mut out: Vec<FieldValue> = Vec::new();
    let path: Vec<String> = Vec::new();
    assert(field_value_views(out@) =~= Seq::<FieldValueV>::empty());
    assert(string_views(path@) =~= Seq::<Seq<char>>::empty());
    collect_field_values(&path, j, &mut out);
    assert(field_value_views(out@) =~= field_values(Seq::empty(), j@));
    out
}

} // verus!
