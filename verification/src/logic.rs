//! The rules of resources: defaults, kinds and identifiers.

use vstd::prelude::*;
use crate::resource::{
    Container, DelResourceRequest, Function, GetResourceRequest, Resource, ResourceKind,
    ResourceKindV, ResourceV, Runtime, RuntimeKind, RuntimeKindV,
};
use crate::text::{chars_of, push_all, push_str, string_from_chars};

verus! {

/// The kind name of functions.
pub const FUNCTION_KIND: &'static str = "function";

/// The kind name of container runtimes.
pub const RUNTIME_CONTAINER_KIND: &'static str = "runtime.container";

/// The namespace of a resource that names none.
pub const DEFAULT_NAMESPACE: &'static str = "default";

/// The version of a resource that names none.
pub const DEFAULT_REVISION: &'static str = "latest";

/// The Dockerfile of a container that names none.
pub const DEFAULT_DOCKERFILE: &'static str = "Dockerfile";

/// `d` where `v` is empty, else `v`.
pub open spec fn default_if_empty(v: Seq<char>, d: Seq<char>) -> Seq<char> {
    if v.len() == 0 {
        d
    } else {
        v
    }
}

/// A resource with its defaults filled in: the namespace, the version and,
/// for a container runtime, the Dockerfile, wherever they are empty.
pub open spec fn with_defaults(r: ResourceV) -> ResourceV {
    ResourceV {
        namespace: default_if_empty(r.namespace, DEFAULT_NAMESPACE@),
        revision: default_if_empty(r.revision, DEFAULT_REVISION@),
        resource_kind: match r.resource_kind {
            Some(ResourceKindV::Runtime(rt)) => match rt.runtime_kind {
                Some(RuntimeKindV::Container(c)) => Some(
                    ResourceKindV::Runtime(
                        crate::resource::RuntimeV {
                            runtime_kind: Some(
                                RuntimeKindV::Container(
                                    crate::resource::ContainerV {
                                        dockerfile: default_if_empty(c.dockerfile, DEFAULT_DOCKERFILE@),
                                    },
                                ),
                            ),
                            ..rt
                        },
                    ),
                ),
                None => r.resource_kind,
            },
            _ => r.resource_kind,
        },
        ..r
    }
}

/// The kind name of a resource: none when it has no kind, or is a runtime
/// of no kind.
pub open spec fn kind_name(k: Option<ResourceKindV>) -> Option<Seq<char>> {
    match k {
        Some(ResourceKindV::Function(_)) => Some(FUNCTION_KIND@),
        Some(ResourceKindV::Runtime(rt)) => match rt.runtime_kind {
            Some(RuntimeKindV::Container(_)) => Some(RUNTIME_CONTAINER_KIND@),
            None => None,
        },
        None => None,
    }
}

/// The identifier built from the parts of a resource:
/// `/version/namespace/kind/name`.
pub open spec fn resource_id_of(version: Seq<char>, namespace: Seq<char>, kind: Seq<char>, name: Seq<char>) -> Seq<char> {
    "/"@ + version + "/"@ + namespace + "/"@ + kind + "/"@ + name
}

/// Replaces `v` by `d` when `v` is empty.
pub fn default_string_if_empty(v: &mut String, d: &str)
    ensures
        final(v)@ == default_if_empty(old(v)@, d@),
{
    if v.as_str().is_empty() {
        *v = d.to_owned();
    }
}

/// Fills in the defaults of a resource (see [`with_defaults`]).
pub fn defaults(r: &mut Resource)
    ensures
        final(r)@ == with_defaults(old(r)@),
{
    default_string_if_empty(&mut r.namespace, DEFAULT_NAMESPACE);
    default_string_if_empty(&mut r.revision, DEFAULT_REVISION);
    let ghost mid = r@;
    let kind = r.resource_kind.take();
    r.resource_kind = match kind {
        Some(ResourceKind::Runtime(rt)) => {
            let Runtime { capabilities, runtime_kind } = rt;
            let runtime_kind = match runtime_kind {
                Some(RuntimeKind::Container(c)) => {
                    let mut dockerfile = c.dockerfile;
                    default_string_if_empty(&mut dockerfile, DEFAULT_DOCKERFILE);
                    Some(RuntimeKind::Container(Container { dockerfile }))
                },
                None => None,
            };
            Some(ResourceKind::Runtime(Runtime { capabilities, runtime_kind }))
        },
        other => other,
    };
    assert(r@ == with_defaults(old(r)@));
}

fn new_container() -> (c: Container)
    ensures
        c@.dockerfile.len() == 0,
{
    Container { dockerfile: String::new() }
}

fn new_runtime(runtime_kind: Option<RuntimeKind>) -> (r: Runtime)
    ensures
        r.capabilities@.len() == 0,
        r.runtime_kind == runtime_kind,
{
    Runtime { capabilities: Vec::new(), runtime_kind }
}

fn new_function() -> (f: Function)
    ensures
        f.inputs@.len() == 0,
        f.outputs@.len() == 0,
        f.base_command@.len() == 0,
        f.runtime_capabilities@.len() == 0,
{
    Function {
        inputs: Vec::new(),
        outputs: Vec::new(),
        base_command: Vec::new(),
        runtime_capabilities: Vec::new(),
    }
}

/// A resource with the given name and kind and its defaults filled in.
fn new_resource(name: &str, kind: Option<ResourceKind>) -> (r: Resource)
    ensures
        r@ == with_defaults(
            ResourceV {
                revision: Seq::empty(),
                namespace: Seq::empty(),
                name: name@,
                description: Seq::empty(),
                tags: Seq::empty(),
                attributes: None,
                resource_kind: match kind {
                    Some(k) => Some(k@),
                    None => None,
                },
            },
        ),
{
    let mut r = Resource {
        revision: String::new(),
        namespace: String::new(),
        name: name.to_owned(),
        description: String::new(),
        tags: Vec::new(),
        attributes: None,
        resource_kind: kind,
    };
    assert(r@.tags =~= Seq::<Seq<char>>::empty());
    defaults(&mut r);
    r
}

/// The empty function named `name`, in the default namespace and version.
pub fn new_resource_function(name: &str) -> (r: Resource)
    ensures
        r@.name == name@,
        r@.namespace == DEFAULT_NAMESPACE@,
        r@.revision == DEFAULT_REVISION@,
        r@.description.len() == 0,
        r@.tags.len() == 0,
        r@.attributes is None,
        r@.resource_kind matches Some(ResourceKindV::Function(f)) && f.inputs.len() == 0
            && f.outputs.len() == 0 && f.base_command.len() == 0 && f.runtime_capabilities.len() == 0,
{
    proof {
        reveal_strlit("default");
        reveal_strlit("latest");
    }
    new_resource(name, Some(ResourceKind::Function(new_function())))
}

/// The container runtime named `name`, with no capabilities, in the
/// default namespace and version, built from the default Dockerfile.
pub fn new_resource_runtime_container(name: &str) -> (r: Resource)
    ensures
        r@.name == name@,
        r@.namespace == DEFAULT_NAMESPACE@,
        r@.revision == DEFAULT_REVISION@,
        r@.description.len() == 0,
        r@.tags.len() == 0,
        r@.attributes is None,
        r@.resource_kind matches Some(ResourceKindV::Runtime(rt)) && rt.capabilities.len() == 0
            && rt.runtime_kind == Some(RuntimeKindV::Container(crate::resource::ContainerV { dockerfile: DEFAULT_DOCKERFILE@ })),
{
    proof {
        reveal_strlit("default");
        reveal_strlit("latest");
        reveal_strlit("Dockerfile");
    }
    new_resource(
        name,
        Some(ResourceKind::Runtime(new_runtime(Some(RuntimeKind::Container(new_container()))))),
    )
}

/// The kind names of resources, in order.
pub fn resource_kinds_iter() -> (r: Vec<String>)
    ensures
        r@.len() == 2,
        r@[0]@ == FUNCTION_KIND@,
        r@[1]@ == RUNTIME_CONTAINER_KIND@,
{
    let mut r: Vec<String> = Vec::new();
    r.push(FUNCTION_KIND.to_owned());
    r.push(RUNTIME_CONTAINER_KIND.to_owned());
    r
}

/// The kind name of a resource (see [`kind_name`]).
pub fn resource_kind_to_string(r: &Resource) -> (s: Option<String>)
    ensures
        match s {
            Some(t) => kind_name(r@.resource_kind) == Some(t@),
            None => kind_name(r@.resource_kind) is None,
        },
{
    match &r.resource_kind {
        Some(ResourceKind::Function(_)) => Some(FUNCTION_KIND.to_owned()),
        Some(ResourceKind::Runtime(rt)) => match &rt.runtime_kind {
            Some(RuntimeKind::Container(_)) => Some(RUNTIME_CONTAINER_KIND.to_owned()),
            None => None,
        },
        None => None,
    }
}

/// The identifier `/version/namespace/kind/name`; it is always built.
pub fn resource_id_builder(version: &str, namespace: &str, kind: &str, name: &str) -> (r: Result<String, String>)
    ensures
        r matches Ok(s) && s@ == resource_id_of(version@, namespace@, kind@, name@),
{
    let mut out: Vec<char> = Vec::new();
    push_str(&mut out, "/");
    push_all(&mut out, &chars_of(version));
    push_str(&mut out, "/");
    push_all(&mut out, &chars_of(namespace));
    push_str(&mut out, "/");
    push_all(&mut out, &chars_of(kind));
    push_str(&mut out, "/");
    push_all(&mut out, &chars_of(name));
    assert(out@ =~= resource_id_of(version@, namespace@, kind@, name@));
    Ok(string_from_chars(&out))
}

/// The identifier of the resource a request names.
pub fn resource_id_from_get_request(r: &GetResourceRequest) -> (s: Result<String, String>)
    ensures
        s matches Ok(t) && t@ == resource_id_of(r.version@, r.namespace@, r.kind@, r.name@),
{
    resource_id_builder(r.version.as_str(), r.namespace.as_str(), r.kind.as_str(), r.name.as_str())
}

/// The identifier of the resource a request names.
pub fn resource_id_from_del_request(r: &DelResourceRequest) -> (s: Result<String, String>)
    ensures
        s matches Ok(t) && t@ == resource_id_of(r.version@, r.namespace@, r.kind@, r.name@),
{
    resource_id_builder(r.version.as_str(), r.namespace.as_str(), r.kind.as_str(), r.name.as_str())
}

/// The identifier of a resource; an error when it has no kind name.
pub fn resource_id(r: &Resource) -> (s: Result<String, String>)
    ensures
        match s {
            Ok(t) => kind_name(r@.resource_kind) matches Some(k) && t@ == resource_id_of(
                r@.revision,
                r@.namespace,
                k,
                r@.name,
            ),
            Err(e) => kind_name(r@.resource_kind) is None && e@ == "resource kind not specified"@,
        },
{
    match resource_kind_to_string(r) {
        Some(k) => resource_id_builder(r.revision.as_str(), r.namespace.as_str(), k.as_str(), r.name.as_str()),
        None => Err("resource kind not specified".to_owned()),
    }
}

/// Filling in the defaults of a resource a second time changes nothing.
pub proof fn lemma_defaults_idempotent(r: ResourceV)
    ensures
        with_defaults(with_defaults(r)) == with_defaults(r),
{
    reveal_strlit("default");
    reveal_strlit("latest");
    reveal_strlit("Dockerfile");
}

/// After its defaults are filled in, a resource has a namespace and a
/// version, and a container runtime has a Dockerfile.
pub proof fn lemma_defaults_fill(r: ResourceV)
    ensures
        with_defaults(r).namespace.len() > 0,
        with_defaults(r).revision.len() > 0,
        with_defaults(r).name == r.name,
        kind_name(with_defaults(r).resource_kind) == kind_name(r.resource_kind),
        with_defaults(r).resource_kind matches Some(ResourceKindV::Runtime(rt)) ==> (rt.runtime_kind matches Some(
            RuntimeKindV::Container(c),
        ) ==> c.dockerfile.len() > 0),
{
    reveal_strlit("default");
    reveal_strlit("latest");
    reveal_strlit("Dockerfile");
}

} // verus!
