//! Requests as JSON records of texts: each member is a text read by its
//! name, a member may appear only once, an unknown member is an error, a
//! missing one is empty; written out, empty texts are left out.

use vstd::prelude::*;
use crate::decode::{
    duplicate_key, first_failure, fold_members, invalid_type, json_text, lemma_first_failure, lemma_fold_next, lemma_fold_stuck, opt_text,
    read_text, unknown_field,
};
use crate::json::{lemma_member_views, member_views, string_views, Json, JsonV};
use crate::resource::{
    DelResourceRequest, DelResourcesRequest, GetKindsRequest, GetNamespacesRequest, GetResourceRequest, GetResourcesRequest,
    GetVersionsRequest,
};
use crate::text::{chars_eq_str, chars_of};

verus! {

/// The texts of member names.
pub open spec fn name_views(names: Seq<&str>) -> Seq<Seq<char>> {
    names.map_values(|s: &str| s@)
}

/// The position of the last name equal to `k`, or -1.
pub open spec fn name_index(names: Seq<Seq<char>>, k: Seq<char>) -> int
    decreases names.len(),
{
    if names.len() == 0 {
        -1
    } else if names.last() == k {
        names.len() - 1
    } else {
        name_index(names.drop_last(), k)
    }
}

/// Where a name is found, and that it is found where it is.
pub proof fn lemma_name_index(names: Seq<Seq<char>>, k: Seq<char>)
    ensures
        -1 <= name_index(names, k) < names.len(),
        name_index(names, k) >= 0 ==> names[name_index(names, k)] == k,
        name_index(names, k) == -1 ==> !names.contains(k),
        names.no_duplicates() ==> forall|i: int| 0 <= i < names.len() && #[trigger] names[i] == k ==> name_index(names, k) == i,
    decreases names.len(),
{
    if names.len() > 0 {
        let p = names.drop_last();
        lemma_name_index(p, k);
        if names.last() != k {
            if name_index(p, k) == -1 {
                assert forall|i: int| 0 <= i < names.len() implies names[i] != k by {
                    if i < p.len() {
                        assert(p[i] == names[i]);
                        assert(!p.contains(k));
                    }
                }
            }
            if names.no_duplicates() {
                assert(p.no_duplicates()) by {
                    assert forall|i: int, j: int| 0 <= i < p.len() && 0 <= j < p.len() && i != j implies p[i] != p[j] by {
                        assert(p[i] == names[i] && p[j] == names[j]);
                    }
                }
                assert forall|i: int| 0 <= i < names.len() && #[trigger] names[i] == k implies name_index(names, k) == i by {
                    assert(i < p.len());
                    assert(p[i] == k);
                }
            }
        } else if names.no_duplicates() {
            assert forall|i: int| 0 <= i < names.len() && #[trigger] names[i] == k implies name_index(names, k) == i by {
                if i != names.len() - 1 {
                    assert(names[i] == names[names.len() - 1]);
                }
            }
        }
    }
}

/// One member of a record: a text under a name not read yet.
pub open spec fn record_step(names: Seq<Seq<char>>) -> spec_fn(Seq<Option<Seq<char>>>, Seq<char>, JsonV) -> Option<
    Seq<Option<Seq<char>>>,
> {
    |st: Seq<Option<Seq<char>>>, k: Seq<char>, v: JsonV|
        {
            let i = name_index(names, k);
            if i < 0 {
                None
            } else if st[i] is Some {
                None
            } else {
                match json_text(v) {
                    Some(s) => Some(st.update(i, Some(s))),
                    None => None,
                }
            }
        }
}

/// Nothing read yet.
pub open spec fn record_init(n: nat) -> Seq<Option<Seq<char>>> {
    Seq::new(n, |i: int| None::<Seq<char>>)
}

/// The text of each name, empty where it was not read.
pub open spec fn record_texts(st: Seq<Option<Seq<char>>>) -> Seq<Seq<char>> {
    st.map_values(|o: Option<Seq<char>>| match o {
        Some(s) => s,
        None => Seq::<char>::empty(),
    })
}

/// The texts a record gives its names, or none where it is not a record
/// of them.
pub open spec fn record_of(j: JsonV, names: Seq<Seq<char>>) -> Option<Seq<Seq<char>>> {
    match j {
        JsonV::Object(ms) => match fold_members(ms, record_init(names.len()), record_step(names)) {
            Some(st) => Some(record_texts(st)),
            None => None,
        },
        _ => None,
    }
}

/// The error reading a record of texts gives: for a document that is not a
/// map, that it is of the wrong type; for a map, at the member where the
/// reading stops, an unknown name, a repeated member, or a value that is
/// not a text.
pub open spec fn record_error(j: JsonV, names: Seq<Seq<char>>, e: Seq<char>) -> bool {
    match j {
        JsonV::Object(ms) => match first_failure(ms, record_init(names.len()), record_step(names)) {
            Some(i) => {
                let k = ms[i].0;
                let p = name_index(names, k);
                if p < 0 {
                    e == "unknown field `"@ + k + "`"@
                } else if fold_members(ms.take(i), record_init(names.len()), record_step(names))->0[p] is Some {
                    e == "duplicate field `"@ + k + "`"@
                } else {
                    e == "invalid type: expected "@ + "a string"@
                }
            },
            None => false,
        },
        _ => e == "invalid type: expected "@ + "a map"@,
    }
}

/// The members that write texts under names: the nonempty ones, in order.
pub open spec fn record_members(names: Seq<Seq<char>>, vals: Seq<Seq<char>>) -> Seq<(Seq<char>, JsonV)>
    decreases names.len(),
{
    if names.len() == 0 || vals.len() == 0 {
        Seq::empty()
    } else if vals.last().len() == 0 {
        record_members(names.drop_last(), vals.drop_last())
    } else {
        record_members(names.drop_last(), vals.drop_last()).push((names.last(), JsonV::String(vals.last())))
    }
}

/// The record of texts under names.
pub open spec fn record_json(names: Seq<Seq<char>>, vals: Seq<Seq<char>>) -> JsonV {
    JsonV::Object(record_members(names, vals))
}

/// The optional texts read so far.
pub open spec fn slot_views(slots: Seq<Option<String>>) -> Seq<Option<Seq<char>>> {
    slots.map_values(|o: Option<String>| opt_text(o))
}

/// The position of a name among names (see [`name_index`]).
fn find_name(k: &String, names: &Vec<&str>) -> (r: Option<usize>)
    ensures
        match r {
            Some(i) => i == name_index(name_views(names@), k@),
            None => name_index(name_views(names@), k@) == -1,
        },
{
    let ghost nv = name_views(names@);
    let kc = chars_of(k.as_str());
    let n = names.len();
    let mut i = n;
    assert(nv.take(n as int) =~= nv);
    while i > 0
        invariant
            i <= n,
            n == names@.len(),
            nv == name_views(names@),
            kc@ == k@,
            name_index(nv, k@) == name_index(nv.take(i as int), k@),
        decreases i,
    {
        assert(nv.take(i as int).last() == names@[i - 1]@);
        if chars_eq_str(&kc, names[i - 1]) {
            return Some(i - 1);
        }
        assert(nv.take(i as int).drop_last() =~= nv.take(i - 1));
        i = i - 1;
    }
    None
}

/// Reads a record of texts under the names (see [`record_of`]); an error
/// where the document is not one.
pub fn read_record(j: &Json, names: &Vec<&str>) -> (r: Result<Vec<String>, String>)
    ensures
        match r {
            Ok(v) => record_of(j@, name_views(names@)) == Some(string_views(v@)) && v@.len() == names@.len(),
            Err(e) => record_of(j@, name_views(names@)) is None && record_error(j@, name_views(names@), e@),
        },
{
    let ghost nv = name_views(names@);
    let ms = match j {
        Json::Object(ms) => ms,
        _ => return Err(invalid_type("a map")),
    };
    proof {
        lemma_member_views(ms@);
    }
    let ghost mv = member_views(ms@);
    let ghost init = record_init(nv.len());
    let k = names.len();
    let mut slots: Vec<Option<String>> = Vec::new();
    for p in 0..k
        invariant
            k == names@.len(),
            slots@.len() == p,
            forall|q: int| 0 <= q < p ==> (#[trigger] slots@[q]) is None,
    {
        slots.push(None);
    }
    assert(slot_views(slots@) =~= init);
    let n = ms.len();
    assert(mv.take(0) =~= Seq::<(Seq<char>, JsonV)>::empty());
    for i in 0..n
        invariant
            n == ms@.len(),
            k == names@.len(),
            nv == name_views(names@),
            mv == member_views(ms@),
            j@ == JsonV::Object(mv),
            init == record_init(nv.len()),
            mv.len() == n,
            forall|q: int| 0 <= q < n ==> #[trigger] mv[q] == (ms@[q].0@, ms@[q].1@),
            slots@.len() == k,
            fold_members(mv.take(i as int), init, record_step(nv)) == Some(slot_views(slots@)),
    {
        proof {
            lemma_fold_next(mv, init, record_step(nv), i as int);
        }
        let key = &ms[i].0;
        let v = &ms[i].1;
        match find_name(key, names) {
            None => {
                proof {
                    lemma_fold_stuck(mv, init, record_step(nv), i as int);
                    lemma_first_failure(mv, init, record_step(nv), i as int);
                }
                return Err(unknown_field(key));
            },
            Some(q) => {
                proof {
                    lemma_name_index(nv, key@);
                }
                if slots[q].is_some() {
                    proof {
                        lemma_fold_stuck(mv, init, record_step(nv), i as int);
                    lemma_first_failure(mv, init, record_step(nv), i as int);
                    }
                    return Err(duplicate_key(key));
                }
                match read_text(v) {
                    Some(t) => {
                        let ghost before = slot_views(slots@);
                        slots.set(q, Some(t));
                        assert(slot_views(slots@) =~= before.update(q as int, opt_text(slots@[q as int])));
                    },
                    None => {
                        proof {
                            lemma_fold_stuck(mv, init, record_step(nv), i as int);
                    lemma_first_failure(mv, init, record_step(nv), i as int);
                        }
                        return Err(invalid_type("a string"));
                    },
                }
            },
        }
    }
    assert(mv.take(n as int) =~= mv);
    let mut out: Vec<String> = Vec::new();
    for p in 0..k
        invariant
            k == slots@.len(),
            string_views(out@) == record_texts(slot_views(slots@)).take(p as int),
    {
        let ghost before = string_views(out@);
        match &slots[p] {
            Some(t) => out.push(t.clone()),
            None => out.push(String::new()),
        }
        assert(string_views(out@) =~= before.push(record_texts(slot_views(slots@))[p as int]));
        assert(record_texts(slot_views(slots@)).take(p + 1) =~= record_texts(slot_views(slots@)).take(p as int).push(
            record_texts(slot_views(slots@))[p as int],
        ));
    }
    assert(record_texts(slot_views(slots@)).take(k as int) =~= record_texts(slot_views(slots@)));
    Ok(out)
}

/// Writes texts under names as a record (see [`record_json`]).
pub fn write_record(names: &Vec<&str>, vals: &Vec<String>) -> (r: Json)
    requires
        names@.len() == vals@.len(),
    ensures
        r@ == record_json(name_views(names@), string_views(vals@)),
{
    let ghost nv = name_views(names@);
    let ghost sv = string_views(vals@);
    let n = names.len();
    let mut ms: Vec<(String, Json)> = Vec::new();
    for i in 0..n
        invariant
            n == names@.len(),
            n == vals@.len(),
            nv == name_views(names@),
            sv == string_views(vals@),
            member_views(ms@) == record_members(nv.take(i as int), sv.take(i as int)),
    {
        proof {
            lemma_member_views(ms@);
        }
        assert(nv.take(i + 1).drop_last() =~= nv.take(i as int));
        assert(sv.take(i + 1).drop_last() =~= sv.take(i as int));
        assert(nv.take(i + 1).last() == names@[i as int]@);
        assert(sv.take(i + 1).last() == vals@[i as int]@);
        if !vals[i].as_str().is_empty() {
            let ghost before = ms@;
            ms.push((names[i].to_owned(), Json::String(vals[i].clone())));
            proof {
                lemma_member_views(ms@);
                assert(ms@.drop_last() =~= before);
            }
        } else {
            proof {
                assert(vals@[i as int]@.len() == 0);
            }
        }
    }
    assert(nv.take(n as int) =~= nv);
    assert(sv.take(n as int) =~= sv);
    Json::Object(ms)
}

/// The state after reading the written members of the first `n` names.
pub open spec fn record_read_upto(vals: Seq<Seq<char>>, n: int) -> Seq<Option<Seq<char>>> {
    Seq::new(vals.len(), |k: int| if k < n && vals[k].len() > 0 { Some(vals[k]) } else { None::<Seq<char>> })
}

proof fn lemma_record_fold(names: Seq<Seq<char>>, vals: Seq<Seq<char>>, n: int)
    requires
        names.no_duplicates(),
        names.len() == vals.len(),
        0 <= n <= names.len(),
    ensures
        fold_members(record_members(names.take(n), vals.take(n)), record_init(names.len()), record_step(names)) == Some(
            record_read_upto(vals, n),
        ),
    decreases n,
{
    if n == 0 {
        assert(record_read_upto(vals, 0) =~= record_init(names.len()));
    } else {
        lemma_record_fold(names, vals, n - 1);
        assert(names.take(n).drop_last() =~= names.take(n - 1));
        assert(vals.take(n).drop_last() =~= vals.take(n - 1));
        let prev = record_members(names.take(n - 1), vals.take(n - 1));
        if vals[n - 1].len() == 0 {
            assert(record_read_upto(vals, n) =~= record_read_upto(vals, n - 1));
        } else {
            let ms = prev.push((names[n - 1], JsonV::String(vals[n - 1])));
            assert(ms.drop_last() =~= prev);
            lemma_name_index(names, names[n - 1]);
            assert(record_read_upto(vals, n) =~= record_read_upto(vals, n - 1).update(n - 1, Some(vals[n - 1])));
        }
    }
}

/// A written record reads back as the texts it was written from, where
/// the names differ.
pub proof fn lemma_record_round_trip(names: Seq<Seq<char>>, vals: Seq<Seq<char>>)
    requires
        names.no_duplicates(),
        names.len() == vals.len(),
    ensures
        record_of(record_json(names, vals), names) == Some(vals),
{
    lemma_record_fold(names, vals, names.len() as int);
    assert(names.take(names.len() as int) =~= names);
    assert(vals.take(vals.len() as int) =~= vals);
    assert forall|k: int| 0 <= k < vals.len() implies #[trigger] record_texts(record_read_upto(vals, names.len() as int))[k]
        == vals[k] by {
        if vals[k].len() == 0 {
            assert(vals[k] =~= Seq::<char>::empty());
        }
    }
    assert(record_texts(record_read_upto(vals, names.len() as int)) =~= vals);
}

/// The member names of a request for one resource.
pub open spec fn one_resource_names() -> Seq<Seq<char>> {
    seq!["version"@, "namespace"@, "kind"@, "name"@]
}

/// The member names of a request for the resources that match filters.
pub open spec fn many_resources_names() -> Seq<Seq<char>> {
    seq!["version"@, "namespaces"@, "kinds"@, "names"@, "bql"@]
}

fn one_resource_names_exec() -> (r: Vec<&'static str>)
    ensures
        name_views(r@) == one_resource_names(),
{
    let r = vec!["version", "namespace", "kind", "name"];
    assert(name_views(r@) =~= one_resource_names());
    r
}

fn many_resources_names_exec() -> (r: Vec<&'static str>)
    ensures
        name_views(r@) == many_resources_names(),
{
    let r = vec!["version", "namespaces", "kinds", "names", "bql"];
    assert(name_views(r@) =~= many_resources_names());
    r
}

impl GetResourceRequest {
    /// The request a record describes (see [`record_of`] over
    /// [`one_resource_names`]); an error where it is not one.
    pub fn from_json(j: &Json) -> (r: Result<GetResourceRequest, String>)
        ensures
            match r {
                Ok(x) => record_of(j@, one_resource_names()) == Some(seq![x.version@, x.namespace@, x.kind@, x.name@]),
                Err(e) => record_of(j@, one_resource_names()) is None && record_error(j@, one_resource_names(), e@),
            },
    {
        let names = one_resource_names_exec();
        match read_record(j, &names) {
            Ok(v) => {
                assert(string_views(v@).len() == 4);
                let x = GetResourceRequest {
                    version: v[0].clone(),
                    namespace: v[1].clone(),
                    kind: v[2].clone(),
                    name: v[3].clone(),
                };
                assert(string_views(v@) =~= seq![x.version@, x.namespace@, x.kind@, x.name@]);
                Ok(x)
            },
            Err(e) => Err(e),
        }
    }

    /// The record of the request: its nonempty texts (see [`record_json`]).
    pub fn to_json(&self) -> (r: Json)
        ensures
            r@ == record_json(one_resource_names(), seq![self.version@, self.namespace@, self.kind@, self.name@]),
    {
        let names = one_resource_names_exec();
        let vals = vec![self.version.clone(), self.namespace.clone(), self.kind.clone(), self.name.clone()];
        assert(string_views(vals@) =~= seq![self.version@, self.namespace@, self.kind@, self.name@]);
        write_record(&names, &vals)
    }
}

impl DelResourceRequest {
    /// The request a record describes (see [`record_of`] over
    /// [`one_resource_names`]); an error where it is not one.
    pub fn from_json(j: &Json) -> (r: Result<DelResourceRequest, String>)
        ensures
            match r {
                Ok(x) => record_of(j@, one_resource_names()) == Some(seq![x.version@, x.namespace@, x.kind@, x.name@]),
                Err(e) => record_of(j@, one_resource_names()) is None && record_error(j@, one_resource_names(), e@),
            },
    {
        let names = one_resource_names_exec();
        match read_record(j, &names) {
            Ok(v) => {
                assert(string_views(v@).len() == 4);
                let x = DelResourceRequest {
                    version: v[0].clone(),
                    namespace: v[1].clone(),
                    kind: v[2].clone(),
                    name: v[3].clone(),
                };
                assert(string_views(v@) =~= seq![x.version@, x.namespace@, x.kind@, x.name@]);
                Ok(x)
            },
            Err(e) => Err(e),
        }
    }

    /// The record of the request: its nonempty texts (see [`record_json`]).
    pub fn to_json(&self) -> (r: Json)
        ensures
            r@ == record_json(one_resource_names(), seq![self.version@, self.namespace@, self.kind@, self.name@]),
    {
        let names = one_resource_names_exec();
        let vals = vec![self.version.clone(), self.namespace.clone(), self.kind.clone(), self.name.clone()];
        assert(string_views(vals@) =~= seq![self.version@, self.namespace@, self.kind@, self.name@]);
        write_record(&names, &vals)
    }
}

impl GetResourcesRequest {
    /// The request a record describes (see [`record_of`] over
    /// [`many_resources_names`]); an error where it is not one.
    pub fn from_json(j: &Json) -> (r: Result<GetResourcesRequest, String>)
        ensures
            match r {
                Ok(x) => record_of(j@, many_resources_names()) == Some(seq![x.version@, x.namespaces@, x.kinds@, x.names@, x.bql@]),
                Err(e) => record_of(j@, many_resources_names()) is None && record_error(j@, many_resources_names(), e@),
            },
    {
        let names = many_resources_names_exec();
        match read_record(j, &names) {
            Ok(v) => {
                assert(string_views(v@).len() == 5);
                let x = GetResourcesRequest {
                    version: v[0].clone(),
                    namespaces: v[1].clone(),
                    kinds: v[2].clone(),
                    names: v[3].clone(),
                    bql: v[4].clone(),
                };
                assert(string_views(v@) =~= seq![x.version@, x.namespaces@, x.kinds@, x.names@, x.bql@]);
                Ok(x)
            },
            Err(e) => Err(e),
        }
    }

    /// The record of the request: its nonempty texts (see [`record_json`]).
    pub fn to_json(&self) -> (r: Json)
        ensures
            r@ == record_json(many_resources_names(), seq![self.version@, self.namespaces@, self.kinds@, self.names@, self.bql@]),
    {
        let names = many_resources_names_exec();
        let vals = vec![self.version.clone(), self.namespaces.clone(), self.kinds.clone(), self.names.clone(), self.bql.clone()];
        assert(string_views(vals@) =~= seq![self.version@, self.namespaces@, self.kinds@, self.names@, self.bql@]);
        write_record(&names, &vals)
    }
}

impl DelResourcesRequest {
    /// The request a record describes (see [`record_of`] over
    /// [`many_resources_names`]); an error where it is not one.
    pub fn from_json(j: &Json) -> (r: Result<DelResourcesRequest, String>)
        ensures
            match r {
                Ok(x) => record_of(j@, many_resources_names()) == Some(seq![x.version@, x.namespaces@, x.kinds@, x.names@, x.bql@]),
                Err(e) => record_of(j@, many_resources_names()) is None && record_error(j@, many_resources_names(), e@),
            },
    {
        let names = many_resources_names_exec();
        match read_record(j, &names) {
            Ok(v) => {
                assert(string_views(v@).len() == 5);
                let x = DelResourcesRequest {
                    version: v[0].clone(),
                    namespaces: v[1].clone(),
                    kinds: v[2].clone(),
                    names: v[3].clone(),
                    bql: v[4].clone(),
                };
                assert(string_views(v@) =~= seq![x.version@, x.namespaces@, x.kinds@, x.names@, x.bql@]);
                Ok(x)
            },
            Err(e) => Err(e),
        }
    }

    /// The record of the request: its nonempty texts (see [`record_json`]).
    pub fn to_json(&self) -> (r: Json)
        ensures
            r@ == record_json(many_resources_names(), seq![self.version@, self.namespaces@, self.kinds@, self.names@, self.bql@]),
    {
        let names = many_resources_names_exec();
        let vals = vec![self.version.clone(), self.namespaces.clone(), self.kinds.clone(), self.names.clone(), self.bql.clone()];
        assert(string_views(vals@) =~= seq![self.version@, self.namespaces@, self.kinds@, self.names@, self.bql@]);
        write_record(&names, &vals)
    }
}

/// A request for one resource reads back from its record as the texts it
/// was written from.
pub proof fn lemma_one_resource_round_trip(version: Seq<char>, namespace: Seq<char>, kind: Seq<char>, name: Seq<char>)
    ensures
        record_of(record_json(one_resource_names(), seq![version, namespace, kind, name]), one_resource_names()) == Some(
            seq![version, namespace, kind, name],
        ),
{
    reveal_strlit("version");
    reveal_strlit("namespace");
    reveal_strlit("kind");
    reveal_strlit("name");
    let ns = one_resource_names();
    assert(ns.no_duplicates()) by {
        assert forall|i: int, j: int| 0 <= i < ns.len() && 0 <= j < ns.len() && i != j implies ns[i] != ns[j] by {
            assert(ns[i].len() != ns[j].len() || ns[i][0] != ns[j][0]);
        }
    }
    lemma_record_round_trip(ns, seq![version, namespace, kind, name]);
}

/// A request for the resources that match filters reads back from its
/// record as the texts it was written from.
pub proof fn lemma_many_resources_round_trip(
    version: Seq<char>,
    namespaces: Seq<char>,
    kinds: Seq<char>,
    names: Seq<char>,
    bql: Seq<char>,
)
    ensures
        record_of(record_json(many_resources_names(), seq![version, namespaces, kinds, names, bql]), many_resources_names())
            == Some(seq![version, namespaces, kinds, names, bql]),
{
    reveal_strlit("version");
    reveal_strlit("namespaces");
    reveal_strlit("kinds");
    reveal_strlit("names");
    reveal_strlit("bql");
    let ns = many_resources_names();
    assert(ns.no_duplicates()) by {
        assert forall|i: int, j: int| 0 <= i < ns.len() && 0 <= j < ns.len() && i != j implies ns[i] != ns[j] by {
            assert(ns[i].len() != ns[j].len() || ns[i][0] != ns[j][0]);
        }
    }
    lemma_record_round_trip(ns, seq![version, namespaces, kinds, names, bql]);
}

/// Only a record with no members is a record of no names.
pub proof fn lemma_empty_record(j: JsonV)
    ensures
        record_of(j, Seq::empty()) is Some <==> j == JsonV::Object(Seq::empty()),
{
    if let JsonV::Object(ms) = j {
        if ms.len() > 0 {
            lemma_name_index(Seq::<Seq<char>>::empty(), ms.last().0);
        } else {
            assert(ms =~= Seq::<(Seq<char>, JsonV)>::empty());
        }
    }
}

impl GetKindsRequest {
    /// The request a record describes: only a record with no members is
    /// one.
    pub fn from_json(j: &Json) -> (r: Result<GetKindsRequest, String>)
        ensures
            r is Ok <==> j@ == JsonV::Object(Seq::empty()),
    {
        proof {
            lemma_empty_record(j@);
        }
        let names: Vec<&str> = Vec::new();
        assert(name_views(names@) =~= Seq::<Seq<char>>::empty());
        match read_record(j, &names) {
            Ok(_) => Ok(GetKindsRequest {}),
            Err(e) => Err(e),
        }
    }

    /// The record of the request: no members.
    pub fn to_json(&self) -> (r: Json)
        ensures
            r@ == JsonV::Object(Seq::empty()),
    {
        let names: Vec<&str> = Vec::new();
        let vals: Vec<String> = Vec::new();
        assert(name_views(names@) =~= Seq::<Seq<char>>::empty());
        assert(string_views(vals@) =~= Seq::<Seq<char>>::empty());
        write_record(&names, &vals)
    }
}

impl GetNamespacesRequest {
    /// The request a record describes: only a record with no members is
    /// one.
    pub fn from_json(j: &Json) -> (r: Result<GetNamespacesRequest, String>)
        ensures
            r is Ok <==> j@ == JsonV::Object(Seq::empty()),
    {
        proof {
            lemma_empty_record(j@);
        }
        let names: Vec<&str> = Vec::new();
        assert(name_views(names@) =~= Seq::<Seq<char>>::empty());
        match read_record(j, &names) {
            Ok(_) => Ok(GetNamespacesRequest {}),
            Err(e) => Err(e),
        }
    }

    /// The record of the request: no members.
    pub fn to_json(&self) -> (r: Json)
        ensures
            r@ == JsonV::Object(Seq::empty()),
    {
        let names: Vec<&str> = Vec::new();
        let vals: Vec<String> = Vec::new();
        assert(name_views(names@) =~= Seq::<Seq<char>>::empty());
        assert(string_views(vals@) =~= Seq::<Seq<char>>::empty());
        write_record(&names, &vals)
    }
}

impl GetVersionsRequest {
    /// The request a record describes: only a record with no members is
    /// one.
    pub fn from_json(j: &Json) -> (r: Result<GetVersionsRequest, String>)
        ensures
            r is Ok <==> j@ == JsonV::Object(Seq::empty()),
    {
        proof {
            lemma_empty_record(j@);
        }
        let names: Vec<&str> = Vec::new();
        assert(name_views(names@) =~= Seq::<Seq<char>>::empty());
        match read_record(j, &names) {
            Ok(_) => Ok(GetVersionsRequest {}),
            Err(e) => Err(e),
        }
    }

    /// The record of the request: no members.
    pub fn to_json(&self) -> (r: Json)
        ensures
            r@ == JsonV::Object(Seq::empty()),
    {
        let names: Vec<&str> = Vec::new();
        let vals: Vec<String> = Vec::new();
        assert(name_views(names@) =~= Seq::<Seq<char>>::empty());
        assert(string_views(vals@) =~= Seq::<Seq<char>>::empty());
        write_record(&names, &vals)
    }
}

} // verus!
