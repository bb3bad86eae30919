//! Responses, and the request that carries a resource, as JSON records of
//! one member: the member may appear once, any other member is an error,
//! and a missing one is empty; written out, an empty member is left out.

use vstd::prelude::*;
use crate::decode::{
    duplicate_key, first_failure, fold_members, invalid_type, lemma_first_failure, resource_error, json_texts, lemma_fold_next, lemma_fold_stuck, lemma_resource_round_trip, read_texts, resource_of, unknown_field,
};
use crate::json::{json_views, lemma_json_views, lemma_member_views, member_views, string_views, Json, JsonV};
use crate::resource::{
    kind_error, resource_json, DelResourceResponse, GetKindsResponse, GetNamespacesResponse, GetResourcesResponse, GetRevisionsResponse,
    PutResourceRequest, PutResourceResponse, Resource, ResourceV,
};
use crate::number::{all_digits, char_digits, digit_ints, digits_value, int_decimal, is_digit_char, nat_digits, small_digits_value, whole_value, Rational};
use crate::text::{chars_eq_str, chars_of};

verus! {

/// One member of a record of one member `name`: it may come only once.
pub open spec fn single_step(name: Seq<char>) -> spec_fn(Option<JsonV>, Seq<char>, JsonV) -> Option<Option<JsonV>> {
    |st: Option<JsonV>, k: Seq<char>, v: JsonV|
        if k == name && st is None {
            Some(Some(v))
        } else {
            None
        }
}

/// The value of the one member `name` of a record (none inside where it
/// is missing), or none where the document is not such a record.
pub open spec fn single_member(j: JsonV, name: Seq<char>) -> Option<Option<JsonV>> {
    match j {
        JsonV::Object(ms) => fold_members(ms, None, single_step(name)),
        _ => None,
    }
}

/// The view of an optional document.
pub open spec fn opt_json(o: Option<&Json>) -> Option<JsonV> {
    match o {
        Some(x) => Some(x@),
        None => None,
    }
}

/// The error reading a record of one member gives: for a document that is
/// not a map, that it is of the wrong type; for a map, at the member where
/// the reading stops, an unknown name or the member repeated.
pub open spec fn single_error(j: JsonV, name: Seq<char>, e: Seq<char>) -> bool {
    match j {
        JsonV::Object(ms) => match first_failure(ms, None, single_step(name)) {
            Some(i) => if ms[i].0 != name {
                e == "unknown field `"@ + ms[i].0 + "`"@
            } else {
                e == "duplicate field `"@ + ms[i].0 + "`"@
            },
            None => false,
        },
        _ => e == "invalid type: expected "@ + "a map"@,
    }
}

/// Reads the one member `name` of a record (see [`single_member`]).
fn read_single<'a>(j: &'a Json, name: &str) -> (r: Result<Option<&'a Json>, String>)
    ensures
        match r {
            Ok(o) => single_member(j@, name@) == Some(opt_json(o)),
            Err(e) => single_member(j@, name@) is None && single_error(j@, name@, e@),
        },
{
    let ms = match j {
        Json::Object(ms) => ms,
        _ => return Err(invalid_type("a map")),
    };
    proof {
        lemma_member_views(ms@);
    }
    let ghost mv = member_views(ms@);
    let ghost step = single_step(name@);
    let mut found: Option<&'a Json> = None;
    let n = ms.len();
    assert(mv.take(0) =~= Seq::<(Seq<char>, JsonV)>::empty());
    for i in 0..n
        invariant
            n == ms@.len(),
            mv == member_views(ms@),
            j@ == JsonV::Object(mv),
            mv.len() == n,
            step == single_step(name@),
            forall|q: int| 0 <= q < n ==> #[trigger] mv[q] == (ms@[q].0@, ms@[q].1@),
            fold_members(mv.take(i as int), None, step) == Some(opt_json(found)),
    {
        proof {
            lemma_fold_next(mv, None, step, i as int);
        }
        let key = &ms[i].0;
        if !chars_eq_str(&chars_of(key.as_str()), name) {
            proof {
                lemma_fold_stuck(mv, None, step, i as int);
                lemma_first_failure(mv, None, step, i as int);
            }
            return Err(unknown_field(key));
        }
        if found.is_some() {
            proof {
                lemma_fold_stuck(mv, None, step, i as int);
                lemma_first_failure(mv, None, step, i as int);
            }
            return Err(duplicate_key(key));
        }
        found = Some(&ms[i].1);
    }
    assert(mv.take(n as int) =~= mv);
    Ok(found)
}

/// The texts of a record whose one member is a list of texts; empty where
/// the member is missing.
pub open spec fn texts_record_of(j: JsonV, name: Seq<char>) -> Option<Seq<Seq<char>>> {
    match single_member(j, name) {
        Some(None) => Some(Seq::empty()),
        Some(Some(v)) => json_texts(v),
        None => None,
    }
}

/// The error reading a record of a list of texts gives: that of the
/// record, or that its member is not a list of texts.
pub open spec fn texts_record_error(j: JsonV, name: Seq<char>, e: Seq<char>) -> bool {
    match single_member(j, name) {
        None => single_error(j, name, e),
        Some(Some(_)) => e == "invalid type: expected "@ + "a sequence of strings"@,
        Some(None) => false,
    }
}

/// The record of a list of texts under `name`; the member is left out
/// where the list is empty.
pub open spec fn texts_record_json(name: Seq<char>, ts: Seq<Seq<char>>) -> JsonV {
    if ts.len() == 0 {
        JsonV::Object(Seq::empty())
    } else {
        JsonV::Object(seq![(name, JsonV::Array(ts.map_values(|t: Seq<char>| JsonV::String(t))))])
    }
}

/// Reads a list of texts under `name` (see [`texts_record_of`]).
fn read_texts_record(j: &Json, name: &str) -> (r: Result<Vec<String>, String>)
    ensures
        match r {
            Ok(v) => texts_record_of(j@, name@) == Some(string_views(v@)),
            Err(e) => texts_record_of(j@, name@) is None && texts_record_error(j@, name@, e@),
        },
{
    match read_single(j, name) {
        Ok(None) => {
            let v: Vec<String> = Vec::new();
            assert(string_views(v@) =~= Seq::<Seq<char>>::empty());
            Ok(v)
        },
        Ok(Some(x)) => match read_texts(x) {
            Some(v) => Ok(v),
            None => Err(invalid_type("a sequence of strings")),
        },
        Err(e) => Err(e),
    }
}

/// Writes a list of texts under `name` (see [`texts_record_json`]).
fn write_texts_record(name: &str, ts: &Vec<String>) -> (r: Json)
    ensures
        r@ == texts_record_json(name@, string_views(ts@)),
{
    if ts.len() == 0 {
        let ms: Vec<(String, Json)> = Vec::new();
        proof {
            lemma_member_views(ms@);
        }
        assert(member_views(ms@) =~= Seq::<(Seq<char>, JsonV)>::empty());
        return Json::Object(ms);
    }
    let ghost sv = string_views(ts@);
    let mut items: Vec<Json> = Vec::new();
    let n = ts.len();
    for i in 0..n
        invariant
            n == ts@.len(),
            sv == string_views(ts@),
            json_views(items@) == sv.take(i as int).map_values(|t: Seq<char>| JsonV::String(t)),
    {
        proof {
            lemma_json_views(items@);
        }
        let ghost before = items@;
        items.push(Json::String(ts[i].clone()));
        proof {
            lemma_json_views(items@);
            let want = sv.take(i + 1).map_values(|t: Seq<char>| JsonV::String(t));
            assert forall|k: int| 0 <= k < items@.len() implies #[trigger] json_views(items@)[k] == want[k] by {
                if k < i {
                    assert(items@[k] == before[k]);
                    assert(json_views(before)[k] == before[k]@);
                }
            }
            assert(json_views(items@) =~= want);
        }
    }
    assert(sv.take(n as int) =~= sv);
    let mut ms: Vec<(String, Json)> = Vec::new();
    ms.push((name.to_owned(), Json::Array(items)));
    proof {
        lemma_member_views(ms@);
        assert(member_views(ms@) =~= seq![(name@, JsonV::Array(sv.map_values(|t: Seq<char>| JsonV::String(t))))]);
    }
    Json::Object(ms)
}

/// A list of texts reads back from the record it is written as.
pub proof fn lemma_texts_record_round_trip(name: Seq<char>, ts: Seq<Seq<char>>)
    ensures
        texts_record_of(texts_record_json(name, ts), name) == Some(ts),
{
    if ts.len() == 0 {
        assert(fold_members(Seq::<(Seq<char>, JsonV)>::empty(), None, single_step(name)) == Some(None::<JsonV>));
        assert(ts =~= Seq::<Seq<char>>::empty());
    } else {
        let a = JsonV::Array(ts.map_values(|t: Seq<char>| JsonV::String(t)));
        let ms = seq![(name, a)];
        assert(ms.drop_last() =~= Seq::<(Seq<char>, JsonV)>::empty());
        assert(fold_members(ms, None, single_step(name)) == Some(Some(a)));
        let items = ts.map_values(|t: Seq<char>| JsonV::String(t));
        assert(items.map_values(|x: JsonV| crate::decode::json_text(x)->0) =~= ts);
    }
}

impl GetKindsResponse {
    /// The response a record describes: the texts under `kinds`.
    pub fn from_json(j: &Json) -> (r: Result<GetKindsResponse, String>)
        ensures
            match r {
                Ok(x) => texts_record_of(j@, "kinds"@) == Some(string_views(x.kinds@)),
                Err(e) => texts_record_of(j@, "kinds"@) is None && texts_record_error(j@, "kinds"@, e@),
            },
    {
        match read_texts_record(j, "kinds") {
            Ok(kinds) => Ok(GetKindsResponse { kinds }),
            Err(e) => Err(e),
        }
    }

    /// The record of the response.
    pub fn to_json(&self) -> (r: Json)
        ensures
            r@ == texts_record_json("kinds"@, string_views(self.kinds@)),
    {
        write_texts_record("kinds", &self.kinds)
    }
}

impl GetNamespacesResponse {
    /// The response a record describes: the texts under `namespaces`.
    pub fn from_json(j: &Json) -> (r: Result<GetNamespacesResponse, String>)
        ensures
            match r {
                Ok(x) => texts_record_of(j@, "namespaces"@) == Some(string_views(x.namespaces@)),
                Err(e) => texts_record_of(j@, "namespaces"@) is None && texts_record_error(j@, "namespaces"@, e@),
            },
    {
        match read_texts_record(j, "namespaces") {
            Ok(namespaces) => Ok(GetNamespacesResponse { namespaces }),
            Err(e) => Err(e),
        }
    }

    /// The record of the response.
    pub fn to_json(&self) -> (r: Json)
        ensures
            r@ == texts_record_json("namespaces"@, string_views(self.namespaces@)),
    {
        write_texts_record("namespaces", &self.namespaces)
    }
}

impl GetRevisionsResponse {
    /// The response a record describes: the texts under `versions`.
    pub fn from_json(j: &Json) -> (r: Result<GetRevisionsResponse, String>)
        ensures
            match r {
                Ok(x) => texts_record_of(j@, "versions"@) == Some(string_views(x.revisions@)),
                Err(e) => texts_record_of(j@, "versions"@) is None && texts_record_error(j@, "versions"@, e@),
            },
    {
        match read_texts_record(j, "versions") {
            Ok(revisions) => Ok(GetRevisionsResponse { revisions }),
            Err(e) => Err(e),
        }
    }

    /// The record of the response.
    pub fn to_json(&self) -> (r: Json)
        ensures
            r@ == texts_record_json("versions"@, string_views(self.revisions@)),
    {
        write_texts_record("versions", &self.revisions)
    }
}

/// The resources of a record whose one member `resources` is a list of
/// resources; empty where the member is missing.
pub open spec fn resources_record_of(j: JsonV) -> Option<Seq<ResourceV>> {
    match single_member(j, "resources"@) {
        Some(None) => Some(Seq::empty()),
        Some(Some(JsonV::Array(items))) => if forall|i: int| 0 <= i < items.len() ==> (#[trigger] resource_of(items[i])) is Some {
            Some(items.map_values(|x: JsonV| resource_of(x)->0))
        } else {
            None
        },
        _ => None,
    }
}

/// The error reading a record of resources gives: that of the record; that
/// its member is not a list; or the error of the first resource in the
/// list that does not read.
pub open spec fn resources_record_error(j: JsonV, e: Seq<char>) -> bool {
    match single_member(j, "resources"@) {
        None => single_error(j, "resources"@, e),
        Some(Some(JsonV::Array(items))) => exists|i: int|
            0 <= i < items.len() && (#[trigger] resource_of(items[i])) is None && (forall|q: int|
                0 <= q < i ==> (#[trigger] resource_of(items[q])) is Some) && resource_error(items[i], e),
        Some(Some(_)) => e == "invalid type: expected "@ + "a sequence"@,
        Some(None) => false,
    }
}

/// The record of a list of resources, or none where one of them has no
/// JSON form; the member is left out where the list is empty.
pub open spec fn resources_record_json(rs: Seq<ResourceV>) -> Option<JsonV> {
    if exists|i: int| 0 <= i < rs.len() && (#[trigger] resource_json(rs[i])) is None {
        None
    } else if rs.len() == 0 {
        Some(JsonV::Object(Seq::empty()))
    } else {
        Some(JsonV::Object(seq![("resources"@, JsonV::Array(rs.map_values(|r: ResourceV| resource_json(r)->0)))]))
    }
}

/// The values of resources.
pub open spec fn resource_list_views(rs: Seq<Resource>) -> Seq<ResourceV> {
    rs.map_values(|r: Resource| r@)
}

impl GetResourcesResponse {
    /// The response a record describes (see [`resources_record_of`]).
    pub fn from_json(j: &Json) -> (r: Result<GetResourcesResponse, String>)
        ensures
            match r {
                Ok(x) => resources_record_of(j@) == Some(resource_list_views(x.resources@)),
                Err(e) => resources_record_of(j@) is None && resources_record_error(j@, e@),
            },
    {
        let items = match read_single(j, "resources") {
            Ok(None) => {
                let resources: Vec<Resource> = Vec::new();
                assert(resource_list_views(resources@) =~= Seq::<ResourceV>::empty());
                return Ok(GetResourcesResponse { resources });
            },
            Ok(Some(Json::Array(items))) => items,
            Ok(Some(_)) => return Err(invalid_type("a sequence")),
            Err(e) => return Err(e),
        };
        proof {
            lemma_json_views(items@);
        }
        let ghost iv = json_views(items@);
        assert(single_member(j@, "resources"@) == Some(Some(JsonV::Array(iv))));
        let mut resources: Vec<Resource> = Vec::new();
        let n = items.len();
        for i in 0..n
            invariant
                single_member(j@, "resources"@) == Some(Some(JsonV::Array(iv))),
                n == items@.len(),
                iv == json_views(items@),
                iv.len() == n,
                forall|q: int| 0 <= q < n ==> #[trigger] iv[q] == items@[q]@,
                resources@.len() == i,
                forall|q: int| 0 <= q < i ==> resource_of(#[trigger] iv[q]) == Some(resources@[q]@),
        {
            match Resource::from_json(&items[i]) {
                Ok(x) => {
                    resources.push(x);
                },
                Err(e) => {
                    assert(resource_of(iv[i as int]) is None);
                    assert(!(forall|q: int| 0 <= q < iv.len() ==> (#[trigger] resource_of(iv[q])) is Some));
                    assert(forall|q: int| 0 <= q < i ==> (#[trigger] resource_of(iv[q])) is Some);
                    return Err(e);
                },
            }
        }
        assert(resource_list_views(resources@) =~= iv.map_values(|x: JsonV| resource_of(x)->0));
        Ok(GetResourcesResponse { resources })
    }

    /// The record of the response (see [`resources_record_json`]); an
    /// error where a resource has no JSON form.
    pub fn to_json(&self) -> (r: Result<Json, String>)
        ensures
            match r {
                Ok(j) => resources_record_json(resource_list_views(self.resources@)) == Some(j@),
                Err(e) => resources_record_json(resource_list_views(self.resources@)) is None && kind_error(e@),
            },
    {
        let ghost rv = resource_list_views(self.resources@);
        let n = self.resources.len();
        let mut items: Vec<Json> = Vec::new();
        for i in 0..n
            invariant
                n == self.resources@.len(),
                rv == resource_list_views(self.resources@),
                json_views(items@) == rv.take(i as int).map_values(|r: ResourceV| resource_json(r)->0),
                forall|q: int| 0 <= q < i ==> (#[trigger] resource_json(rv[q])) is Some,
        {
            proof {
                lemma_json_views(items@);
            }
            let ghost before = items@;
            match self.resources[i].to_json() {
                Ok(j) => {
                    items.push(j);
                    proof {
                        lemma_json_views(items@);
                        let want = rv.take(i + 1).map_values(|r: ResourceV| resource_json(r)->0);
                        assert forall|k: int| 0 <= k < items@.len() implies #[trigger] json_views(items@)[k] == want[k] by {
                            if k < i {
                                assert(items@[k] == before[k]);
                                assert(json_views(before)[k] == before[k]@);
                            }
                        }
                        assert(json_views(items@) =~= want);
                    }
                },
                Err(e) => {
                    assert(resource_json(rv[i as int]) is None);
                    return Err(e);
                },
            }
        }
        assert(rv.take(n as int) =~= rv);
        let mut ms: Vec<(String, Json)> = Vec::new();
        if n > 0 {
            ms.push(("resources".to_owned(), Json::Array(items)));
        }
        proof {
            lemma_member_views(ms@);
            if n > 0 {
                assert(member_views(ms@) =~= seq![("resources"@, JsonV::Array(rv.map_values(|r: ResourceV| resource_json(r)->0)))]);
            } else {
                assert(member_views(ms@) =~= Seq::<(Seq<char>, JsonV)>::empty());
            }
        }
        Ok(Json::Object(ms))
    }
}

/// The resource of a request record: none where the member `resource` is
/// missing or null; none outside where the document is not such a record.
pub open spec fn put_request_of(j: JsonV) -> Option<Option<ResourceV>> {
    match single_member(j, "resource"@) {
        Some(None) => Some(None),
        Some(Some(JsonV::Null)) => Some(None),
        Some(Some(v)) => match resource_of(v) {
            Some(r) => Some(Some(r)),
            None => None,
        },
        None => None,
    }
}

/// The error reading a request record gives: that of the record, or that
/// of its resource.
pub open spec fn put_request_error(j: JsonV, e: Seq<char>) -> bool {
    match single_member(j, "resource"@) {
        None => single_error(j, "resource"@, e),
        Some(Some(v)) => resource_error(v, e),
        Some(None) => false,
    }
}

/// The record of a request: the resource under `resource` where there is
/// one; none where it has no JSON form.
pub open spec fn put_request_json(o: Option<ResourceV>) -> Option<JsonV> {
    match o {
        None => Some(JsonV::Object(Seq::empty())),
        Some(r) => match resource_json(r) {
            Some(j) => Some(JsonV::Object(seq![("resource"@, j)])),
            None => None,
        },
    }
}

/// The view of an optional resource.
pub open spec fn opt_resource(o: Option<Resource>) -> Option<ResourceV> {
    match o {
        Some(r) => Some(r@),
        None => None,
    }
}

impl PutResourceRequest {
    /// The request a record describes (see [`put_request_of`]).
    pub fn from_json(j: &Json) -> (r: Result<PutResourceRequest, String>)
        ensures
            match r {
                Ok(x) => put_request_of(j@) == Some(opt_resource(x.resource)),
                Err(e) => put_request_of(j@) is None && put_request_error(j@, e@),
            },
    {
        match read_single(j, "resource") {
            Ok(None) => Ok(PutResourceRequest { resource: None }),
            Ok(Some(Json::Null)) => Ok(PutResourceRequest { resource: None }),
            Ok(Some(v)) => match Resource::from_json(v) {
                Ok(x) => Ok(PutResourceRequest { resource: Some(x) }),
                Err(e) => Err(e),
            },
            Err(e) => Err(e),
        }
    }

    /// The record of the request (see [`put_request_json`]); an error where
    /// the resource has no JSON form.
    pub fn to_json(&self) -> (r: Result<Json, String>)
        ensures
            match r {
                Ok(j) => put_request_json(opt_resource(self.resource)) == Some(j@),
                Err(e) => put_request_json(opt_resource(self.resource)) is None && kind_error(e@),
            },
    {
        let mut ms: Vec<(String, Json)> = Vec::new();
        match &self.resource {
            None => {},
            Some(x) => match x.to_json() {
                Ok(j) => {
                    ms.push(("resource".to_owned(), j));
                },
                Err(e) => return Err(e),
            },
        }
        proof {
            lemma_member_views(ms@);
            if self.resource is None {
                assert(member_views(ms@) =~= Seq::<(Seq<char>, JsonV)>::empty());
            } else {
                assert(member_views(ms@) =~= seq![(ms@[0].0@, ms@[0].1@)]);
            }
        }
        Ok(Json::Object(ms))
    }
}

/// A request with a resource reads back from its record.
pub proof fn lemma_put_request_round_trip(o: Option<ResourceV>)
    requires
        put_request_json(o) is Some,
    ensures
        put_request_of(put_request_json(o)->0) == Some(o),
{
    match o {
        None => {
            assert(fold_members(Seq::<(Seq<char>, JsonV)>::empty(), None, single_step("resource"@)) == Some(None::<JsonV>));
        },
        Some(r) => {
            let j = resource_json(r)->0;
            let ms = seq![("resource"@, j)];
            assert(ms.drop_last() =~= Seq::<(Seq<char>, JsonV)>::empty());
            assert(fold_members(ms, None, single_step("resource"@)) == Some(Some(j)));
            lemma_resource_round_trip(r);
            assert(j is Object);
        },
    }
}

/// A list of resources reads back from its record.
pub proof fn lemma_resources_record_round_trip(rs: Seq<ResourceV>)
    requires
        resources_record_json(rs) is Some,
    ensures
        resources_record_of(resources_record_json(rs)->0) == Some(rs),
{
    if rs.len() == 0 {
        assert(fold_members(Seq::<(Seq<char>, JsonV)>::empty(), None, single_step("resources"@)) == Some(None::<JsonV>));
        assert(rs =~= Seq::<ResourceV>::empty());
    } else {
        let items = rs.map_values(|r: ResourceV| resource_json(r)->0);
        let a = JsonV::Array(items);
        let ms = seq![("resources"@, a)];
        assert(ms.drop_last() =~= Seq::<(Seq<char>, JsonV)>::empty());
        assert(fold_members(ms, None, single_step("resources"@)) == Some(Some(a)));
        assert forall|i: int| 0 <= i < items.len() implies (#[trigger] resource_of(items[i])) == Some(rs[i]) by {
            assert(resource_json(rs[i]) is Some);
            lemma_resource_round_trip(rs[i]);
        }
        assert(items.map_values(|x: JsonV| resource_of(x)->0) =~= rs);
    }
}

/// The sign and the digits of an integer text: a leading `-` or `+` is the
/// sign.
pub open spec fn sign_body(s: Seq<char>) -> (bool, Seq<char>) {
    if s.len() > 0 && s[0] == '-' {
        (true, s.drop_first())
    } else if s.len() > 0 && s[0] == '+' {
        (false, s.drop_first())
    } else {
        (false, s)
    }
}

/// The `i32` an integer text writes: an optional sign and at least one
/// digit; none where it writes none or the value does not fit.
pub open spec fn i32_text(s: Seq<char>) -> Option<int> {
    let (neg, b) = sign_body(s);
    if b.len() == 0 || exists|i: int| 0 <= i < b.len() && !is_digit_char(#[trigger] b[i]) {
        None
    } else {
        let v = digits_value(char_digits(b));
        let n = if neg { -v } else { v };
        if i32::MIN <= n <= i32::MAX {
            Some(n)
        } else {
            None
        }
    }
}

/// The count a value writes: a number written as an integer, or a text of
/// one, that fits in an `i32`.
pub open spec fn count_of(v: JsonV) -> Option<int> {
    match v {
        JsonV::Number(d, whole) => match whole_value(d) {
            Some(n) => if whole && i32::MIN <= n <= i32::MAX {
                Some(n)
            } else {
                None
            },
            None => None,
        },
        JsonV::String(s) => i32_text(s),
        _ => None,
    }
}

/// The count of a record whose one member is `updates`; zero where it is
/// missing.
pub open spec fn updates_record_of(j: JsonV) -> Option<int> {
    match single_member(j, "updates"@) {
        Some(None) => Some(0),
        Some(Some(v)) => count_of(v),
        None => None,
    }
}

/// The error reading a record of a count gives: that of the record, or that
/// its member is not a count.
pub open spec fn updates_record_error(j: JsonV, e: Seq<char>) -> bool {
    match single_member(j, "updates"@) {
        None => single_error(j, "updates"@, e),
        Some(Some(_)) => e == "invalid type: expected "@ + "an i32"@,
        Some(None) => false,
    }
}

/// The record of a count; the member is left out for zero.
pub open spec fn updates_record_json(n: int) -> JsonV {
    if n == 0 {
        JsonV::Object(Seq::empty())
    } else {
        JsonV::Object(seq![("updates"@, JsonV::Number(int_decimal(n), true))])
    }
}

/// The view of an optional `i32`.
pub open spec fn opt_int(o: Option<i32>) -> Option<int> {
    match o {
        Some(n) => Some(n as int),
        None => None,
    }
}

/// Reads an integer text (see [`i32_text`]).
fn text_i32(s: &String) -> (r: Option<i32>)
    ensures
        opt_int(r) == i32_text(s@),
{
    let cs = chars_of(s.as_str());
    let n = cs.len();
    let mut start: usize = 0;
    let mut neg = false;
    if n > 0 && cs[0] == '-' {
        start = 1;
        neg = true;
    } else if n > 0 && cs[0] == '+' {
        start = 1;
    }
    let ghost b = sign_body(s@).1;
    assert(b =~= cs@.skip(start as int));
    if start == n {
        return None;
    }
    let mut ds: Vec<u8> = Vec::new();
    let mut i = start;
    while i < n
        invariant
            start <= i <= n,
            n == cs@.len(),
            cs@ == s@,
            b == sign_body(s@).1,
            b == cs@.skip(start as int),
            ds@.len() == i - start,
            forall|k: int| 0 <= k < i - start ==> is_digit_char(#[trigger] b[k]),
            digit_ints(ds@) == char_digits(b.take(i - start)),
            all_digits(digit_ints(ds@)),
        decreases n - i,
    {
        let c = cs[i];
        if !('0' <= c && c <= '9') {
            assert(b[i - start] == c);
            assert(!is_digit_char(b[i - start]));
            assert(exists|k: int| 0 <= k < b.len() && !is_digit_char(#[trigger] b[k]));
            return None;
        }
        let ghost before = ds@;
        let d = (c as u32 - '0' as u32) as u8;
        assert(b[i - start] == c);
        assert(d as int == c as int - '0' as int);
        ds.push(d);
        assert(digit_ints(ds@) =~= char_digits(b.take(i - start + 1))) by {
            assert(digit_ints(before) =~= char_digits(b.take(i - start)));
            assert forall|k: int| 0 <= k < ds@.len() implies digit_ints(ds@)[k] == char_digits(b.take(i - start + 1))[k] by {
                if k < before.len() {
                    assert(ds@[k] == before[k]);
                    assert(digit_ints(before)[k] == char_digits(b.take(i - start))[k]);
                }
            }
        }
        i = i + 1;
    }
    assert(b.take(n - start) =~= b);
    match small_digits_value(&ds) {
        None => None,
        Some(m) => {
            if neg {
                if m == 0x8000_0000 {
                    Some(i32::MIN)
                } else {
                    Some(-(m as i32))
                }
            } else if m == 0x8000_0000 {
                None
            } else {
                Some(m as i32)
            }
        },
    }
}

/// Reads a count (see [`count_of`]).
fn read_count(v: &Json) -> (r: Option<i32>)
    ensures
        opt_int(r) == count_of(v@),
{
    match v {
        Json::Number(d, whole) => if *whole {
            d.to_i32()
        } else {
            None
        },
        Json::String(s) => text_i32(s),
        _ => None,
    }
}

/// Reads the count of a record (see [`updates_record_of`]).
fn read_updates_record(j: &Json) -> (r: Result<i32, String>)
    ensures
        match r {
            Ok(n) => updates_record_of(j@) == Some(n as int),
            Err(e) => updates_record_of(j@) is None && updates_record_error(j@, e@),
        },
{
    match read_single(j, "updates") {
        Ok(None) => Ok(0),
        Ok(Some(v)) => match read_count(v) {
            Some(n) => Ok(n),
            None => Err(invalid_type("an i32")),
        },
        Err(e) => Err(e),
    }
}

/// Writes the record of a count (see [`updates_record_json`]).
fn write_updates_record(n: i32) -> (r: Json)
    ensures
        r@ == updates_record_json(n as int),
{
    let mut ms: Vec<(String, Json)> = Vec::new();
    if n != 0 {
        ms.push(("updates".to_owned(), Json::Number(Rational::from_i64(n as i64), true)));
    }
    proof {
        lemma_member_views(ms@);
        if n == 0 {
            assert(member_views(ms@) =~= Seq::<(Seq<char>, JsonV)>::empty());
        } else {
            assert(member_views(ms@) =~= seq![("updates"@, JsonV::Number(int_decimal(n as int), true))]);
        }
    }
    Json::Object(ms)
}

/// The digits of a number are worth the number.
pub proof fn lemma_nat_digits_value(m: nat)
    ensures
        digits_value(nat_digits(m)) == m,
    decreases m,
{
    if m > 0 {
        lemma_nat_digits_value(m / 10);
        assert(nat_digits(m).drop_last() =~= nat_digits(m / 10));
    }
}

/// A count reads back from its record.
pub proof fn lemma_updates_round_trip(n: i32)
    ensures
        updates_record_of(updates_record_json(n as int)) == Some(n as int),
{
    if n == 0 {
        assert(fold_members(Seq::<(Seq<char>, JsonV)>::empty(), None, single_step("updates"@)) == Some(None::<JsonV>));
    } else {
        let v = JsonV::Number(int_decimal(n as int), true);
        let ms = seq![("updates"@, v)];
        assert(ms.drop_last() =~= Seq::<(Seq<char>, JsonV)>::empty());
        assert(fold_members(ms, None, single_step("updates"@)) == Some(Some(v)));
        let m: nat = if n < 0 { (-n) as nat } else { n as nat };
        lemma_nat_digits_value(m);
    }
}

impl PutResourceResponse {
    /// The response a record describes (see [`updates_record_of`]).
    pub fn from_json(j: &Json) -> (r: Result<PutResourceResponse, String>)
        ensures
            match r {
                Ok(x) => updates_record_of(j@) == Some(x.updates as int),
                Err(e) => updates_record_of(j@) is None && updates_record_error(j@, e@),
            },
    {
        match read_updates_record(j) {
            Ok(updates) => Ok(PutResourceResponse { updates }),
            Err(e) => Err(e),
        }
    }

    /// The record of the response (see [`updates_record_json`]).
    pub fn to_json(&self) -> (r: Json)
        ensures
            r@ == updates_record_json(self.updates as int),
    {
        write_updates_record(self.updates)
    }
}

impl DelResourceResponse {
    /// The response a record describes (see [`updates_record_of`]).
    pub fn from_json(j: &Json) -> (r: Result<DelResourceResponse, String>)
        ensures
            match r {
                Ok(x) => updates_record_of(j@) == Some(x.updates as int),
                Err(e) => updates_record_of(j@) is None && updates_record_error(j@, e@),
            },
    {
        match read_updates_record(j) {
            Ok(updates) => Ok(DelResourceResponse { updates }),
            Err(e) => Err(e),
        }
    }

    /// The record of the response (see [`updates_record_json`]).
    pub fn to_json(&self) -> (r: Json)
        ensures
            r@ == updates_record_json(self.updates as int),
    {
        write_updates_record(self.updates)
    }
}

} // verus!
