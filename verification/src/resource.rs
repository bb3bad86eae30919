//! Resources and the requests that name them, with their JSON form: members
//! in camel case, and empty texts, empty lists and absent parts left out.

use vstd::prelude::*;
use crate::json::{json_views, lemma_json_views, lemma_member_views, member_views, string_views, Json, JsonV};
use crate::number::{decimal_text, int_decimal, Rational};
use crate::text::{chars_of, push_all, push_str, string_from_chars};

verus! {

/// How a runtime provides its environment: a container built from a
/// Dockerfile.
#[derive(Debug, Clone, PartialEq)]
pub struct Container {
    pub dockerfile: String,
}

/// The kind of a runtime.
#[derive(Debug, Clone, PartialEq)]
pub enum RuntimeKind {
    Container(Container),
}

/// An environment where procedures can be executed.
#[derive(Debug, Clone, PartialEq)]
pub struct Runtime {
    pub capabilities: Vec<String>,
    pub runtime_kind: Option<RuntimeKind>,
}

/// The kinds of parameters, by number.
#[derive(Debug, Clone, Copy, PartialEq, Eq, Structural)]
pub enum ParameterKind {
    Generic,
    Number,
    Boolean,
    Text,
    Json,
    Url,
    Path,
}

/// A parameter of a function.
#[derive(Debug, PartialEq)]
pub struct Parameter {
    pub name: String,
    pub description: String,
    pub parameter_kind: i32,
    pub default_value: Option<Json>,
}

/// A procedure with parameters, executed to apply a transformation.
#[derive(Debug, PartialEq)]
pub struct Function {
    pub inputs: Vec<Parameter>,
    pub outputs: Vec<Parameter>,
    pub base_command: Vec<String>,
    pub runtime_capabilities: Vec<String>,
}

/// The kind of a resource.
#[derive(Debug, PartialEq)]
pub enum ResourceKind {
    Function(Function),
    Runtime(Runtime),
}

/// A resource: its identifying texts, tags, free attributes and kind.
#[derive(Debug, PartialEq)]
pub struct Resource {
    pub revision: String,
    pub namespace: String,
    pub name: String,
    pub description: String,
    pub tags: Vec<String>,
    pub attributes: Option<Vec<(String, Json)>>,
    pub resource_kind: Option<ResourceKind>,
}

/// A request for one resource by its parts.
#[derive(Debug, Clone, PartialEq)]
pub struct GetResourceRequest {
    pub version: String,
    pub namespace: String,
    pub kind: String,
    pub name: String,
}

/// A request to delete one resource by its parts.
#[derive(Debug, Clone, PartialEq)]
pub struct DelResourceRequest {
    pub version: String,
    pub namespace: String,
    pub kind: String,
    pub name: String,
}

/// A request for the resources that match filters: comma separated lists
/// of namespaces, kinds and names, a version and a query text.
#[derive(Debug, Clone, PartialEq)]
pub struct GetResourcesRequest {
    pub version: String,
    pub namespaces: String,
    pub kinds: String,
    pub names: String,
    pub bql: String,
}

/// A request to delete the resources that match filters (as in
/// [`GetResourcesRequest`]).
#[derive(Debug, Clone, PartialEq)]
pub struct DelResourcesRequest {
    pub version: String,
    pub namespaces: String,
    pub kinds: String,
    pub names: String,
    pub bql: String,
}

/// A request for the kind names of resources.
#[derive(Debug, Clone, Copy, PartialEq, Eq, Structural)]
pub struct GetKindsRequest {}

/// A request for the namespaces resources are in.
#[derive(Debug, Clone, Copy, PartialEq, Eq, Structural)]
pub struct GetNamespacesRequest {}

/// A request for the versions resources have.
#[derive(Debug, Clone, Copy, PartialEq, Eq, Structural)]
pub struct GetVersionsRequest {}

/// The versions that resources have.
#[derive(Debug, Clone, PartialEq)]
pub struct GetRevisionsResponse {
    pub revisions: Vec<String>,
}

/// The namespaces that resources are in.
#[derive(Debug, Clone, PartialEq)]
pub struct GetNamespacesResponse {
    pub namespaces: Vec<String>,
}

/// The kind names of resources.
#[derive(Debug, Clone, PartialEq)]
pub struct GetKindsResponse {
    pub kinds: Vec<String>,
}

/// The resources a request selects.
#[derive(Debug, PartialEq)]
pub struct GetResourcesResponse {
    pub resources: Vec<Resource>,
}

/// A request to write a resource.
#[derive(Debug, PartialEq)]
pub struct PutResourceRequest {
    pub resource: Option<Resource>,
}

/// How many resources a write changed.
#[derive(Debug, Clone, PartialEq)]
pub struct PutResourceResponse {
    pub updates: i32,
}

/// How many resources a deletion removed.
#[derive(Debug, Clone, PartialEq)]
pub struct DelResourceResponse {
    pub updates: i32,
}

pub struct ContainerV {
    pub dockerfile: Seq<char>,
}

pub enum RuntimeKindV {
    Container(ContainerV),
}

pub struct RuntimeV {
    pub capabilities: Seq<Seq<char>>,
    pub runtime_kind: Option<RuntimeKindV>,
}

pub struct ParameterV {
    pub name: Seq<char>,
    pub description: Seq<char>,
    pub parameter_kind: int,
    pub default_value: Option<JsonV>,
}

pub struct FunctionV {
    pub inputs: Seq<ParameterV>,
    pub outputs: Seq<ParameterV>,
    pub base_command: Seq<Seq<char>>,
    pub runtime_capabilities: Seq<Seq<char>>,
}

pub enum ResourceKindV {
    Function(FunctionV),
    Runtime(RuntimeV),
}

/// The mathematical value of a [`Resource`].
pub struct ResourceV {
    pub revision: Seq<char>,
    pub namespace: Seq<char>,
    pub name: Seq<char>,
    pub description: Seq<char>,
    pub tags: Seq<Seq<char>>,
    pub attributes: Option<Seq<(Seq<char>, JsonV)>>,
    pub resource_kind: Option<ResourceKindV>,
}

impl View for Container {
    type V = ContainerV;

    open spec fn view(&self) -> ContainerV {
        ContainerV { dockerfile: self.dockerfile@ }
    }
}

impl View for Runtime {
    type V = RuntimeV;

    open spec fn view(&self) -> RuntimeV {
        RuntimeV {
            capabilities: string_views(self.capabilities@),
            runtime_kind: match self.runtime_kind {
                Some(RuntimeKind::Container(c)) => Some(RuntimeKindV::Container(c@)),
                None => None,
            },
        }
    }
}

/// The value of an optional document.
pub open spec fn opt_json(o: Option<Json>) -> Option<JsonV> {
    match o {
        Some(j) => Some(j@),
        None => None,
    }
}

impl View for Parameter {
    type V = ParameterV;

    open spec fn view(&self) -> ParameterV {
        ParameterV {
            name: self.name@,
            description: self.description@,
            parameter_kind: self.parameter_kind as int,
            default_value: opt_json(self.default_value),
        }
    }
}

/// The values of parameters.
pub open spec fn parameter_views(ps: Seq<Parameter>) -> Seq<ParameterV> {
    ps.map_values(|p: Parameter| p@)
}

impl View for Function {
    type V = FunctionV;

    open spec fn view(&self) -> FunctionV {
        FunctionV {
            inputs: parameter_views(self.inputs@),
            outputs: parameter_views(self.outputs@),
            base_command: string_views(self.base_command@),
            runtime_capabilities: string_views(self.runtime_capabilities@),
        }
    }
}

impl View for ResourceKind {
    type V = ResourceKindV;

    open spec fn view(&self) -> ResourceKindV {
        match self {
            ResourceKind::Function(f) => ResourceKindV::Function(f@),
            ResourceKind::Runtime(r) => ResourceKindV::Runtime(r@),
        }
    }
}

impl View for Resource {
    type V = ResourceV;

    open spec fn view(&self) -> ResourceV {
        ResourceV {
            revision: self.revision@,
            namespace: self.namespace@,
            name: self.name@,
            description: self.description@,
            tags: string_views(self.tags@),
            attributes: match self.attributes {
                Some(ms) => Some(member_views(ms@)),
                None => None,
            },
            resource_kind: match self.resource_kind {
                Some(k) => Some(k@),
                None => None,
            },
        }
    }
}

// ---------------------------------------------------------------------
// Copies and equality.

/// A copy of a list of texts.
pub fn copy_strings(v: &Vec<String>) -> (r: Vec<String>)
    ensures
        string_views(r@) == string_views(v@),
{
    let mut r: Vec<String> = Vec::new();
    let n = v.len();
    for i in 0..n
        invariant
            n == v@.len(),
            string_views(r@) == string_views(v@).take(i as int),
    {
        let ghost before = string_views(r@);
        r.push(v[i].clone());
        assert(string_views(r@) =~= before.push(v@[i as int]@));
        assert(string_views(v@).take(i + 1) =~= string_views(v@).take(i as int).push(v@[i as int]@));
    }
    assert(string_views(v@).take(n as int) =~= string_views(v@));
    r
}

/// Whether two lists of texts are equal.
pub fn strings_same(a: &Vec<String>, b: &Vec<String>) -> (r: bool)
    ensures
        r == (string_views(a@) == string_views(b@)),
{
    if a.len() != b.len() {
        assert(string_views(a@).len() != string_views(b@).len());
        return false;
    }
    let n = a.len();
    for i in 0..n
        invariant
            n == a@.len(),
            n == b@.len(),
            forall|k: int| 0 <= k < i ==> #[trigger] a@[k]@ == b@[k]@,
    {
        if a[i] != b[i] {
            assert(string_views(a@)[i as int] != string_views(b@)[i as int]);
            return false;
        }
    }
    assert(string_views(a@) =~= string_views(b@));
    true
}

/// A copy of an optional document.
pub fn copy_opt_json(o: &Option<Json>) -> (r: Option<Json>)
    ensures
        opt_json(r) == opt_json(*o),
{
    match o {
        Some(j) => Some(j.duplicate()),
        None => None,
    }
}

/// A copy of object members.
pub fn copy_members(ms: &Vec<(String, Json)>) -> (r: Vec<(String, Json)>)
    ensures
        member_views(r@) == member_views(ms@),
{
    let j = Json::Object(copy_members_shallow(ms));
    let c = j.duplicate();
    match c {
        Json::Object(out) => out,
        _ => {
            assert(false);
            Vec::new()
        },
    }
}

/// Moves members into a new vector, cloning the names and copying the
/// values.
fn copy_members_shallow(ms: &Vec<(String, Json)>) -> (r: Vec<(String, Json)>)
    ensures
        member_views(r@) == member_views(ms@),
{
    proof {
        lemma_member_views(ms@);
    }
    let mut out: Vec<(String, Json)> = Vec::new();
    let n = ms.len();
    for i in 0..n
        invariant
            n == ms@.len(),
            out@.len() == i,
            forall|k: int| 0 <= k < i ==> #[trigger] out@[k].0@ == ms@[k].0@,
            forall|k: int| 0 <= k < i ==> #[trigger] out@[k].1@ == ms@[k].1@,
    {
        let v = ms[i].1.duplicate();
        out.push((ms[i].0.clone(), v));
    }
    proof {
        lemma_member_views(out@);
        lemma_member_views(ms@);
    }
    assert(member_views(out@) =~= member_views(ms@));
    out
}

/// Whether two optional documents are equal.
pub fn opt_json_same(a: &Option<Json>, b: &Option<Json>) -> (r: bool)
    ensures
        r == (opt_json(*a) == opt_json(*b)),
{
    match (a, b) {
        (Some(x), Some(y)) => x.same(y),
        (None, None) => true,
        _ => false,
    }
}

impl Parameter {
    /// A copy with the same value.
    pub fn duplicate(&self) -> (r: Parameter)
        ensures
            r@ == self@,
    {
        Parameter {
            name: self.name.clone(),
            description: self.description.clone(),
            parameter_kind: self.parameter_kind,
            default_value: copy_opt_json(&self.default_value),
        }
    }

    /// Whether two parameters are equal.
    pub fn same(&self, other: &Parameter) -> (r: bool)
        ensures
            r == (self@ == other@),
    {
        self.name == other.name && self.description == other.description && self.parameter_kind
            == other.parameter_kind && opt_json_same(&self.default_value, &other.default_value)
    }
}

/// A copy of a list of parameters.
pub fn copy_parameters(v: &Vec<Parameter>) -> (r: Vec<Parameter>)
    ensures
        parameter_views(r@) == parameter_views(v@),
{
    let mut r: Vec<Parameter> = Vec::new();
    let n = v.len();
    for i in 0..n
        invariant
            n == v@.len(),
            parameter_views(r@) == parameter_views(v@).take(i as int),
    {
        let ghost before = parameter_views(r@);
        r.push(v[i].duplicate());
        assert(parameter_views(r@) =~= before.push(v@[i as int]@));
        assert(parameter_views(v@).take(i + 1) =~= parameter_views(v@).take(i as int).push(v@[i as int]@));
    }
    assert(parameter_views(v@).take(n as int) =~= parameter_views(v@));
    r
}

/// Whether two lists of parameters are equal.
pub fn parameters_same(a: &Vec<Parameter>, b: &Vec<Parameter>) -> (r: bool)
    ensures
        r == (parameter_views(a@) == parameter_views(b@)),
{
    if a.len() != b.len() {
        assert(parameter_views(a@).len() != parameter_views(b@).len());
        return false;
    }
    let n = a.len();
    for i in 0..n
        invariant
            n == a@.len(),
            n == b@.len(),
            forall|k: int| 0 <= k < i ==> #[trigger] a@[k]@ == b@[k]@,
    {
        if !a[i].same(&b[i]) {
            assert(parameter_views(a@)[i as int] != parameter_views(b@)[i as int]);
            return false;
        }
    }
    assert(parameter_views(a@) =~= parameter_views(b@));
    true
}

impl Function {
    /// A copy with the same value.
    pub fn duplicate(&self) -> (r: Function)
        ensures
            r@ == self@,
    {
        Function {
            inputs: copy_parameters(&self.inputs),
            outputs: copy_parameters(&self.outputs),
            base_command: copy_strings(&self.base_command),
            runtime_capabilities: copy_strings(&self.runtime_capabilities),
        }
    }

    /// Whether two functions are equal.
    pub fn same(&self, other: &Function) -> (r: bool)
        ensures
            r == (self@ == other@),
    {
        parameters_same(&self.inputs, &other.inputs) && parameters_same(&self.outputs, &other.outputs)
            && strings_same(&self.base_command, &other.base_command) && strings_same(
            &self.runtime_capabilities,
            &other.runtime_capabilities,
        )
    }
}

impl Runtime {
    /// A copy with the same value.
    pub fn duplicate(&self) -> (r: Runtime)
        ensures
            r@ == self@,
    {
        Runtime {
            capabilities: copy_strings(&self.capabilities),
            runtime_kind: match &self.runtime_kind {
                Some(RuntimeKind::Container(c)) => Some(
                    RuntimeKind::Container(Container { dockerfile: c.dockerfile.clone() }),
                ),
                None => None,
            },
        }
    }

    /// Whether two runtimes are equal.
    pub fn same(&self, other: &Runtime) -> (r: bool)
        ensures
            r == (self@ == other@),
    {
        let kinds = match (&self.runtime_kind, &other.runtime_kind) {
            (Some(RuntimeKind::Container(a)), Some(RuntimeKind::Container(b))) => a.dockerfile
                == b.dockerfile,
            (None, None) => true,
            _ => false,
        };
        strings_same(&self.capabilities, &other.capabilities) && kinds
    }
}

impl ResourceKind {
    /// A copy with the same value.
    pub fn duplicate(&self) -> (r: ResourceKind)
        ensures
            r@ == self@,
    {
        match self {
            ResourceKind::Function(f) => ResourceKind::Function(f.duplicate()),
            ResourceKind::Runtime(r) => ResourceKind::Runtime(r.duplicate()),
        }
    }

    /// Whether two kinds are equal.
    pub fn same(&self, other: &ResourceKind) -> (r: bool)
        ensures
            r == (self@ == other@),
    {
        match (self, other) {
            (ResourceKind::Function(a), ResourceKind::Function(b)) => a.same(b),
            (ResourceKind::Runtime(a), ResourceKind::Runtime(b)) => a.same(b),
            _ => false,
        }
    }
}

impl Resource {
    /// A copy with the same value.
    pub fn duplicate(&self) -> (r: Resource)
        ensures
            r@ == self@,
    {
        Resource {
            revision: self.revision.clone(),
            namespace: self.namespace.clone(),
            name: self.name.clone(),
            description: self.description.clone(),
            tags: copy_strings(&self.tags),
            attributes: match &self.attributes {
                Some(ms) => Some(copy_members(ms)),
                None => None,
            },
            resource_kind: match &self.resource_kind {
                Some(k) => Some(k.duplicate()),
                None => None,
            },
        }
    }

    /// Whether two resources are equal.
    pub fn same(&self, other: &Resource) -> (r: bool)
        ensures
            r == (self@ == other@),
    {
        let attributes = match (&self.attributes, &other.attributes) {
            (Some(a), Some(b)) => Json::Object(copy_members_shallow(a)).same(
                &Json::Object(copy_members_shallow(b)),
            ),
            (None, None) => true,
            _ => false,
        };
        let kinds = match (&self.resource_kind, &other.resource_kind) {
            (Some(a), Some(b)) => a.same(b),
            (None, None) => true,
            _ => false,
        };
        self.revision == other.revision && self.namespace == other.namespace && self.name
            == other.name && self.description == other.description && strings_same(
            &self.tags,
            &other.tags,
        ) && attributes && kinds
    }
}

// ---------------------------------------------------------------------
// The JSON form.

/// A member if `present`, else nothing.
pub open spec fn opt_member(present: bool, name: Seq<char>, v: JsonV) -> Seq<(Seq<char>, JsonV)> {
    if present {
        seq![(name, v)]
    } else {
        Seq::empty()
    }
}

/// A list of texts as a JSON array of strings.
pub open spec fn strings_json(s: Seq<Seq<char>>) -> JsonV {
    JsonV::Array(s.map_values(|x: Seq<char>| JsonV::String(x)))
}

/// The name of a parameter kind by its number; none for another number.
pub open spec fn parameter_kind_name(k: int) -> Option<Seq<char>> {
    if k == 0 {
        Some("GENERIC"@)
    } else if k == 1 {
        Some("NUMBER"@)
    } else if k == 2 {
        Some("BOOLEAN"@)
    } else if k == 3 {
        Some("TEXT"@)
    } else if k == 4 {
        Some("JSON"@)
    } else if k == 5 {
        Some("URL"@)
    } else if k == 6 {
        Some("PATH"@)
    } else {
        None
    }
}

/// The JSON form of a container.
pub open spec fn container_json(c: ContainerV) -> JsonV {
    JsonV::Object(opt_member(c.dockerfile.len() > 0, "dockerfile"@, JsonV::String(c.dockerfile)))
}

/// The JSON form of a runtime.
pub open spec fn runtime_json(r: RuntimeV) -> JsonV {
    JsonV::Object(
        opt_member(r.capabilities.len() > 0, "capabilities"@, strings_json(r.capabilities)) + match r.runtime_kind {
            Some(RuntimeKindV::Container(c)) => seq![("container"@, container_json(c))],
            None => Seq::empty(),
        },
    )
}

/// The JSON form of a parameter; none when its kind has no name.
pub open spec fn parameter_json(p: ParameterV) -> Option<JsonV> {
    if p.parameter_kind != 0 && parameter_kind_name(p.parameter_kind) is None {
        None
    } else {
        Some(
            JsonV::Object(
                opt_member(p.name.len() > 0, "name"@, JsonV::String(p.name)) + opt_member(
                    p.description.len() > 0,
                    "description"@,
                    JsonV::String(p.description),
                ) + opt_member(
                    p.parameter_kind != 0,
                    "parameterKind"@,
                    JsonV::String(parameter_kind_name(p.parameter_kind)->0),
                ) + match p.default_value {
                    Some(v) => seq![("defaultValue"@, v)],
                    None => Seq::empty(),
                },
            ),
        )
    }
}

/// The JSON forms of parameters; none when one of them has none.
pub open spec fn parameters_json(ps: Seq<ParameterV>) -> Option<Seq<JsonV>>
    decreases ps.len(),
{
    if ps.len() == 0 {
        Some(Seq::empty())
    } else {
        match parameters_json(ps.drop_last()) {
            Some(js) => match parameter_json(ps.last()) {
                Some(j) => Some(js.push(j)),
                None => None,
            },
            None => None,
        }
    }
}

/// The JSON form of a function; none when a parameter has none.
pub open spec fn function_json(f: FunctionV) -> Option<JsonV> {
    match (parameters_json(f.inputs), parameters_json(f.outputs)) {
        (Some(ins), Some(outs)) => Some(
            JsonV::Object(
                opt_member(f.inputs.len() > 0, "inputs"@, JsonV::Array(ins)) + opt_member(
                    f.outputs.len() > 0,
                    "outputs"@,
                    JsonV::Array(outs),
                ) + opt_member(f.base_command.len() > 0, "baseCommand"@, strings_json(f.base_command))
                    + opt_member(
                    f.runtime_capabilities.len() > 0,
                    "runtimeCapabilities"@,
                    strings_json(f.runtime_capabilities),
                ),
            ),
        ),
        _ => None,
    }
}

/// The member that holds the kind of a resource.
pub open spec fn kind_members(k: Option<ResourceKindV>) -> Option<Seq<(Seq<char>, JsonV)>> {
    match k {
        None => Some(Seq::empty()),
        Some(ResourceKindV::Function(f)) => match function_json(f) {
            Some(j) => Some(seq![("function"@, j)]),
            None => None,
        },
        Some(ResourceKindV::Runtime(r)) => Some(seq![("runtime"@, runtime_json(r))]),
    }
}

/// The JSON form of a resource; none when a parameter kind has no name.
/// The revision is written under `version`, the field the queries of
/// versions (`.version==...`) and the listing of versions read.
pub open spec fn resource_json(r: ResourceV) -> Option<JsonV> {
    match kind_members(r.resource_kind) {
        Some(km) => Some(
            JsonV::Object(
                opt_member(r.revision.len() > 0, "version"@, JsonV::String(r.revision)) + opt_member(
                    r.namespace.len() > 0,
                    "namespace"@,
                    JsonV::String(r.namespace),
                ) + opt_member(r.name.len() > 0, "name"@, JsonV::String(r.name)) + opt_member(
                    r.description.len() > 0,
                    "description"@,
                    JsonV::String(r.description),
                ) + opt_member(r.tags.len() > 0, "tags"@, strings_json(r.tags)) + match r.attributes {
                    Some(ms) => seq![("attributes"@, JsonV::Object(ms))],
                    None => Seq::empty(),
                } + km,
            ),
        ),
        None => None,
    }
}

/// Appends a member.
fn push_member(out: &mut Vec<(String, Json)>, name: &str, v: Json)
    ensures
        member_views(final(out)@) == member_views(old(out)@).push((name@, v@)),
{
    proof {
        lemma_member_views(out@);
    }
    let ghost before = out@;
    out.push((name.to_owned(), v));
    proof {
        lemma_member_views(out@);
    }
    assert(member_views(out@) =~= member_views(before).push((name@, v@)));
}

/// Appends a member if `present`.
fn push_member_if(out: &mut Vec<(String, Json)>, present: bool, name: &str, v: Json)
    ensures
        member_views(final(out)@) == member_views(old(out)@) + opt_member(present, name@, v@),
{
    if present {
        push_member(out, name, v);
        assert(member_views(out@) =~= member_views(old(out)@) + opt_member(present, name@, v@));
    } else {
        assert(member_views(out@) =~= member_views(old(out)@) + opt_member(present, name@, v@));
    }
}

/// A list of texts as a JSON array of strings.
fn strings_to_json(v: &Vec<String>) -> (r: Json)
    ensures
        r@ == strings_json(string_views(v@)),
{
    let mut items: Vec<Json> = Vec::new();
    let n = v.len();
    for i in 0..n
        invariant
            n == v@.len(),
            items@.len() == i,
            forall|k: int| 0 <= k < i ==> #[trigger] items@[k]@ == JsonV::String(v@[k]@),
    {
        items.push(Json::String(v[i].clone()));
    }
    proof {
        lemma_json_views(items@);
    }
    assert(json_views(items@) =~= string_views(v@).map_values(|x: Seq<char>| JsonV::String(x)));
    Json::Array(items)
}

/// The text of a parameter kind's name.
fn parameter_kind_text(k: i32) -> (r: Option<String>)
    ensures
        match r {
            Some(t) => parameter_kind_name(k as int) == Some(t@),
            None => parameter_kind_name(k as int) is None,
        },
{
    if k == 0 {
        Some("GENERIC".to_owned())
    } else if k == 1 {
        Some("NUMBER".to_owned())
    } else if k == 2 {
        Some("BOOLEAN".to_owned())
    } else if k == 3 {
        Some("TEXT".to_owned())
    } else if k == 4 {
        Some("JSON".to_owned())
    } else if k == 5 {
        Some("URL".to_owned())
    } else if k == 6 {
        Some("PATH".to_owned())
    } else {
        None
    }
}

/// The message for a parameter kind without a name: `Invalid variant`
/// and the number.
pub open spec fn invalid_variant_text(k: int) -> Seq<char> {
    "Invalid variant "@ + decimal_text(int_decimal(k))
}

/// The error of writing a parameter kind that has no name.
pub open spec fn kind_error(e: Seq<char>) -> bool {
    exists|k: int| k != 0 && parameter_kind_name(k) is None && #[trigger] invalid_variant_text(k) == e
}

/// The message for a parameter kind without a name.
fn invalid_variant(k: i32) -> (r: String)
    ensures
        r@ == invalid_variant_text(k as int),
{
    let mut m: Vec<char> = Vec::new();
    push_str(&mut m, "Invalid variant ");
    let n = Rational::from_i64(k as i64);
    push_all(&mut m, &chars_of(n.to_text().as_str()));
    string_from_chars(&m)
}

impl Container {
    /// The JSON form (see [`container_json`]).
    pub fn to_json(&self) -> (r: Json)
        ensures
            r@ == container_json(self@),
    {
        let mut out: Vec<(String, Json)> = Vec::new();
        assert(member_views(out@) =~= Seq::<(Seq<char>, JsonV)>::empty());
        push_member_if(&mut out, !self.dockerfile.as_str().is_empty(), "dockerfile", Json::String(self.dockerfile.clone()));
        proof {
            reveal_strlit("dockerfile");
        }
        assert(member_views(out@) =~= opt_member(self.dockerfile@.len() > 0, "dockerfile"@, JsonV::String(self.dockerfile@)));
        Json::Object(out)
    }
}

impl Runtime {
    /// The JSON form (see [`runtime_json`]).
    pub fn to_json(&self) -> (r: Json)
        ensures
            r@ == runtime_json(self@),
    {
        let mut out: Vec<(String, Json)> = Vec::new();
        assert(member_views(out@) =~= Seq::<(Seq<char>, JsonV)>::empty());
        push_member_if(&mut out, self.capabilities.len() > 0, "capabilities", strings_to_json(&self.capabilities));
        let ghost first = member_views(out@);
        match &self.runtime_kind {
            Some(RuntimeKind::Container(c)) => {
                push_member(&mut out, "container", c.to_json());
            },
            None => {},
        }
        assert(member_views(out@) =~= opt_member(self@.capabilities.len() > 0, "capabilities"@, strings_json(self@.capabilities)) + match self@.runtime_kind {
            Some(RuntimeKindV::Container(c)) => seq![("container"@, container_json(c))],
            None => Seq::empty(),
        });
        Json::Object(out)
    }
}

impl Parameter {
    /// The JSON form (see [`parameter_json`]); an error when the kind has
    /// no name.
    pub fn to_json(&self) -> (r: Result<Json, String>)
        ensures
            match r {
                Ok(j) => parameter_json(self@) == Some(j@),
                Err(e) => parameter_json(self@) is None && e@ == invalid_variant_text(self@.parameter_kind),
            },
    {
        let kind_name = parameter_kind_text(self.parameter_kind);
        if self.parameter_kind != 0 && kind_name.is_none() {
            return Err(invalid_variant(self.parameter_kind));
        }
        let mut out: Vec<(String, Json)> = Vec::new();
        assert(member_views(out@) =~= Seq::<(Seq<char>, JsonV)>::empty());
        push_member_if(&mut out, !self.name.as_str().is_empty(), "name", Json::String(self.name.clone()));
        push_member_if(&mut out, !self.description.as_str().is_empty(), "description", Json::String(self.description.clone()));
        let ghost before_kind = member_views(out@);
        if self.parameter_kind != 0 {
            match kind_name {
                Some(t) => push_member(&mut out, "parameterKind", Json::String(t)),
                None => {},
            }
        }
        assert(member_views(out@) == before_kind + opt_member(
            self@.parameter_kind != 0,
            "parameterKind"@,
            JsonV::String(parameter_kind_name(self@.parameter_kind)->0),
        ));
        let ghost before_default = member_views(out@);
        match &self.default_value {
            Some(v) => push_member(&mut out, "defaultValue", v.duplicate()),
            None => {},
        }
        assert(member_views(out@) =~= before_default + match self@.default_value {
            Some(v) => seq![("defaultValue"@, v)],
            None => Seq::<(Seq<char>, JsonV)>::empty(),
        });
        assert(member_views(out@) =~= opt_member(self@.name.len() > 0, "name"@, JsonV::String(self@.name)) + opt_member(
            self@.description.len() > 0,
            "description"@,
            JsonV::String(self@.description),
        ) + opt_member(
            self@.parameter_kind != 0,
            "parameterKind"@,
            JsonV::String(parameter_kind_name(self@.parameter_kind)->0),
        ) + match self@.default_value {
            Some(v) => seq![("defaultValue"@, v)],
            None => Seq::empty(),
        });
        Ok(Json::Object(out))
    }
}

/// The JSON forms of parameters (see [`parameters_json`]).
fn parameters_to_json(ps: &Vec<Parameter>) -> (r: Result<Vec<Json>, String>)
    ensures
        match r {
            Ok(js) => parameters_json(parameter_views(ps@)) == Some(json_views(js@)),
            Err(e) => parameters_json(parameter_views(ps@)) is None && kind_error(e@),
        },
{
    let mut out: Vec<Json> = Vec::new();
    let n = ps.len();
    let ghost pv = parameter_views(ps@);
    assert(pv.take(0) =~= Seq::<ParameterV>::empty());
    proof {
        lemma_json_views(out@);
    }
    for i in 0..n
        invariant
            n == ps@.len(),
            pv == parameter_views(ps@),
            parameters_json(pv.take(i as int)) == Some(json_views(out@)),
    {
        assert(pv.take(i + 1).drop_last() =~= pv.take(i as int));
        assert(pv.take(i + 1).last() == ps@[i as int]@);
        match ps[i].to_json() {
            Ok(j) => {
                let ghost before = out@;
                proof {
                    lemma_json_views(before);
                }
                out.push(j);
                proof {
                    lemma_json_views(out@);
                }
                assert(json_views(out@) =~= json_views(before).push(j@));
            },
            Err(e) => {
                proof {
                    lemma_parameters_json_none(pv, i as int);
                    assert(invalid_variant_text(pv[i as int].parameter_kind) == e@);
                }
                return Err(e);
            },
        }
    }
    assert(pv.take(n as int) =~= pv);
    Ok(out)
}

/// A parameter without a JSON form leaves the whole list without one.
proof fn lemma_parameters_json_none(ps: Seq<ParameterV>, i: int)
    requires
        0 <= i < ps.len(),
        parameter_json(ps[i]) is None,
    ensures
        parameters_json(ps) is None,
    decreases ps.len(),
{
    if i < ps.len() - 1 {
        lemma_parameters_json_none(ps.drop_last(), i);
    }
}

impl Function {
    /// The JSON form (see [`function_json`]); an error when a parameter's
    /// kind has no name.
    pub fn to_json(&self) -> (r: Result<Json, String>)
        ensures
            match r {
                Ok(j) => function_json(self@) == Some(j@),
                Err(e) => function_json(self@) is None && kind_error(e@),
            },
    {
        let ins = parameters_to_json(&self.inputs);
        let ins = match ins {
            Ok(x) => x,
            Err(e) => return Err(e),
        };
        let outs = parameters_to_json(&self.outputs);
        let outs = match outs {
            Ok(x) => x,
            Err(e) => return Err(e),
        };
        let mut out: Vec<(String, Json)> = Vec::new();
        assert(member_views(out@) =~= Seq::<(Seq<char>, JsonV)>::empty());
        push_member_if(&mut out, self.inputs.len() > 0, "inputs", Json::Array(ins));
        push_member_if(&mut out, self.outputs.len() > 0, "outputs", Json::Array(outs));
        push_member_if(&mut out, self.base_command.len() > 0, "baseCommand", strings_to_json(&self.base_command));
        push_member_if(&mut out, self.runtime_capabilities.len() > 0, "runtimeCapabilities", strings_to_json(&self.runtime_capabilities));
        Ok(Json::Object(out))
    }
}

impl Resource {
    /// The JSON form (see [`resource_json`]); an error when a parameter's
    /// kind has no name.
    pub fn to_json(&self) -> (r: Result<Json, String>)
        ensures
            match r {
                Ok(j) => resource_json(self@) == Some(j@),
                Err(e) => resource_json(self@) is None && kind_error(e@),
            },
    {
        let mut out: Vec<(String, Json)> = Vec::new();
        assert(member_views(out@) =~= Seq::<(Seq<char>, JsonV)>::empty());
        push_member_if(&mut out, !self.revision.as_str().is_empty(), "version", Json::String(self.revision.clone()));
        push_member_if(&mut out, !self.namespace.as_str().is_empty(), "namespace", Json::String(self.namespace.clone()));
        push_member_if(&mut out, !self.name.as_str().is_empty(), "name", Json::String(self.name.clone()));
        push_member_if(&mut out, !self.description.as_str().is_empty(), "description", Json::String(self.description.clone()));
        push_member_if(&mut out, self.tags.len() > 0, "tags", strings_to_json(&self.tags));
        let ghost before_attributes = member_views(out@);
        match &self.attributes {
            Some(ms) => push_member(&mut out, "attributes", Json::Object(copy_members(ms))),
            None => {},
        }
        assert(member_views(out@) =~= before_attributes + match self@.attributes {
            Some(ms) => seq![("attributes"@, JsonV::Object(ms))],
            None => Seq::<(Seq<char>, JsonV)>::empty(),
        });
        let ghost before_kind = member_views(out@);
        match &self.resource_kind {
            Some(ResourceKind::Function(f)) => {
                match f.to_json() {
                    Ok(j) => push_member(&mut out, "function", j),
                    Err(e) => return Err(e),
                }
            },
            Some(ResourceKind::Runtime(rt)) => push_member(&mut out, "runtime", rt.to_json()),
            None => {},
        }
        assert(member_views(out@) =~= before_kind + kind_members(self@.resource_kind)->0);
        Ok(Json::Object(out))
    }
}

} // verus!
