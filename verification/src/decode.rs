//! Reading resources from their JSON form: each member is read by its name,
//! a member may appear only once, an unknown member is an error, and a
//! missing one takes its default.

use vstd::prelude::*;
use crate::json::{json_views, lemma_json_views, lemma_member_views, member_views, string_views, Json, JsonV};
use crate::number::digit_value;
use crate::resource::{
    container_json, function_json, kind_members, opt_member, parameter_json, parameters_json, resource_json, runtime_json, strings_json,
    parameter_kind_name, parameter_views, Container, ContainerV, Function, FunctionV, Parameter, ParameterV, Resource,
    ResourceKind, ResourceKindV, ResourceV, Runtime, RuntimeKind, RuntimeKindV, RuntimeV,
};
use crate::text::{chars_eq_str, chars_of, push_all, push_str, string_from_chars};

verus! {

/// Reads members one after the other with `step` from `init`; none as soon
/// as a step fails.
pub open spec fn fold_members<S>(
    ms: Seq<(Seq<char>, JsonV)>,
    init: S,
    step: spec_fn(S, Seq<char>, JsonV) -> Option<S>,
) -> Option<S>
    decreases ms.len(),
{
    if ms.len() == 0 {
        Some(init)
    } else {
        match fold_members(ms.drop_last(), init, step) {
            Some(st) => step(st, ms.last().0, ms.last().1),
            None => None,
        }
    }
}

/// A failed step fails the whole reading.
pub proof fn lemma_fold_stuck<S>(
    ms: Seq<(Seq<char>, JsonV)>,
    init: S,
    step: spec_fn(S, Seq<char>, JsonV) -> Option<S>,
    i: int,
)
    requires
        0 <= i < ms.len(),
        fold_members(ms.take(i), init, step) is Some,
        step(fold_members(ms.take(i), init, step)->0, ms[i].0, ms[i].1) is None,
    ensures
        fold_members(ms, init, step) is None,
    decreases ms.len(),
{
    if i == ms.len() - 1 {
        assert(ms.drop_last() =~= ms.take(i));
    } else {
        assert(ms.drop_last().take(i) =~= ms.take(i));
        lemma_fold_stuck(ms.drop_last(), init, step, i);
    }
}

/// One step of the reading loop: the fold of the first `i + 1` members
/// continues the fold of the first `i` with member `i`.
pub proof fn lemma_fold_next<S>(
    ms: Seq<(Seq<char>, JsonV)>,
    init: S,
    step: spec_fn(S, Seq<char>, JsonV) -> Option<S>,
    i: int,
)
    requires
        0 <= i < ms.len(),
    ensures
        fold_members(ms.take(i + 1), init, step) == match fold_members(ms.take(i), init, step) {
            Some(st) => step(st, ms[i].0, ms[i].1),
            None => None,
        },
{
    assert(ms.take(i + 1).drop_last() =~= ms.take(i));
}

/// The position of the member where reading with `step` stops, if it
/// stops: the first member whose step fails.
pub open spec fn first_failure<S>(
    ms: Seq<(Seq<char>, JsonV)>,
    init: S,
    step: spec_fn(S, Seq<char>, JsonV) -> Option<S>,
) -> Option<int>
    decreases ms.len(),
{
    if ms.len() == 0 {
        None
    } else if fold_members(ms.drop_last(), init, step) is None {
        first_failure(ms.drop_last(), init, step)
    } else if step(fold_members(ms.drop_last(), init, step)->0, ms.last().0, ms.last().1) is None {
        Some(ms.len() - 1)
    } else {
        None
    }
}

/// A step that fails after the first `i` members succeed is where the
/// reading stops.
pub proof fn lemma_first_failure<S>(
    ms: Seq<(Seq<char>, JsonV)>,
    init: S,
    step: spec_fn(S, Seq<char>, JsonV) -> Option<S>,
    i: int,
)
    requires
        0 <= i < ms.len(),
        fold_members(ms.take(i), init, step) is Some,
        step(fold_members(ms.take(i), init, step)->0, ms[i].0, ms[i].1) is None,
    ensures
        first_failure(ms, init, step) == Some(i),
    decreases ms.len(),
{
    if i == ms.len() - 1 {
        assert(ms.drop_last() =~= ms.take(i));
    } else {
        assert(ms.drop_last().take(i) =~= ms.take(i));
        lemma_fold_stuck(ms.drop_last(), init, step, i);
        lemma_first_failure(ms.drop_last(), init, step, i);
    }
}

/// The error a reading of members gives at the member where it stops: an
/// unknown name (`known`); a member that sets what was set already
/// (`taken`, given what was read before); or, for a value of the wrong
/// kind, the message `value_msg` gives for the name, or where it gives
/// none, the error `nested` says reading the value itself gives.
pub open spec fn member_error<S>(
    ms: Seq<(Seq<char>, JsonV)>,
    init: S,
    step: spec_fn(S, Seq<char>, JsonV) -> Option<S>,
    known: spec_fn(Seq<char>) -> bool,
    taken: spec_fn(S, Seq<char>) -> bool,
    value_msg: spec_fn(Seq<char>) -> Option<Seq<char>>,
    nested: spec_fn(Seq<char>, JsonV, Seq<char>) -> bool,
    e: Seq<char>,
) -> bool {
    match first_failure(ms, init, step) {
        Some(i) => {
            let k = ms[i].0;
            if !known(k) {
                e == "unknown field `"@ + k + "`"@
            } else if taken(fold_members(ms.take(i), init, step)->0, k) {
                e == "duplicate field `"@ + k + "`"@
            } else {
                match value_msg(k) {
                    Some(m) => e == "invalid type: expected "@ + m,
                    None => nested(k, ms[i].1, e),
                }
            }
        },
        None => false,
    }
}

/// The error reading a document with members gives: for a document that is
/// not a map, that it is not the `kind_text`; for a map, see
/// [`member_error`].
pub open spec fn reading_error<S>(
    j: JsonV,
    init: S,
    step: spec_fn(S, Seq<char>, JsonV) -> Option<S>,
    known: spec_fn(Seq<char>) -> bool,
    taken: spec_fn(S, Seq<char>) -> bool,
    value_msg: spec_fn(Seq<char>) -> Option<Seq<char>>,
    nested: spec_fn(Seq<char>, JsonV, Seq<char>) -> bool,
    kind_text: Seq<char>,
    e: Seq<char>,
) -> bool {
    match j {
        JsonV::Object(ms) => member_error(ms, init, step, known, taken, value_msg, nested, e),
        _ => e == "invalid type: expected "@ + kind_text,
    }
}

/// A string's text.
pub open spec fn json_text(j: JsonV) -> Option<Seq<char>> {
    match j {
        JsonV::String(s) => Some(s),
        _ => None,
    }
}

/// The texts of an array of strings.
pub open spec fn json_texts(j: JsonV) -> Option<Seq<Seq<char>>> {
    match j {
        JsonV::Array(items) => if forall|i: int| 0 <= i < items.len() ==> (#[trigger] items[i]) is String {
            Some(items.map_values(|x: JsonV| json_text(x)->0))
        } else {
            None
        },
        _ => None,
    }
}

/// A parameter kind by name, or by the number of a kind written as an
/// integer.
pub open spec fn parameter_kind_of(j: JsonV) -> Option<int> {
    match j {
        JsonV::String(s) => if s == "GENERIC"@ {
            Some(0)
        } else if s == "NUMBER"@ {
            Some(1)
        } else if s == "BOOLEAN"@ {
            Some(2)
        } else if s == "TEXT"@ {
            Some(3)
        } else if s == "JSON"@ {
            Some(4)
        } else if s == "URL"@ {
            Some(5)
        } else if s == "PATH"@ {
            Some(6)
        } else {
            None
        },
        JsonV::Number(d, whole) => match digit_value(d) {
            Some(k) => if whole && k <= 6 {
                Some(k)
            } else {
                None
            },
            None => None,
        },
        _ => None,
    }
}

/// A text member that was not read yet.
pub open spec fn set_text(slot: Option<Seq<char>>, v: JsonV) -> Option<Option<Seq<char>>> {
    if slot is Some {
        None
    } else {
        match json_text(v) {
            Some(s) => Some(Some(s)),
            None => None,
        }
    }
}

/// A list of texts member that was not read yet.
pub open spec fn set_texts(slot: Option<Seq<Seq<char>>>, v: JsonV) -> Option<Option<Seq<Seq<char>>>> {
    if slot is Some {
        None
    } else {
        match json_texts(v) {
            Some(s) => Some(Some(s)),
            None => None,
        }
    }
}

/// The default of a text.
pub open spec fn text_or_empty(o: Option<Seq<char>>) -> Seq<char> {
    match o {
        Some(s) => s,
        None => Seq::empty(),
    }
}

/// The default of a list of texts.
pub open spec fn texts_or_empty(o: Option<Seq<Seq<char>>>) -> Seq<Seq<char>> {
    match o {
        Some(s) => s,
        None => Seq::empty(),
    }
}

// ---------------------------------------------------------------------
// Containers.

pub struct ContainerFields {
    pub dockerfile: Option<Seq<char>>,
}

pub open spec fn container_step(st: ContainerFields, key: Seq<char>, v: JsonV) -> Option<ContainerFields> {
    if key == "dockerfile"@ {
        match set_text(st.dockerfile, v) {
            Some(d) => Some(ContainerFields { dockerfile: d }),
            None => None,
        }
    } else {
        None
    }
}

/// The reading of the members of a container.
pub open spec fn container_fields(ms: Seq<(Seq<char>, JsonV)>) -> Option<ContainerFields> {
    fold_members(ms, ContainerFields { dockerfile: None }, container_stepper())
}

/// The step of [`container_fields`].
pub open spec fn container_stepper() -> spec_fn(ContainerFields, Seq<char>, JsonV) -> Option<ContainerFields> {
    |st: ContainerFields, k: Seq<char>, v: JsonV| container_step(st, k, v)
}

/// The container a document describes; none where it is not one.
pub open spec fn container_of(j: JsonV) -> Option<ContainerV> {
    match j {
        JsonV::Object(ms) => match container_fields(ms) {
            Some(st) => Some(ContainerV { dockerfile: text_or_empty(st.dockerfile) }),
            None => None,
        },
        _ => None,
    }
}

// ---------------------------------------------------------------------
// Runtimes.

pub struct RuntimeFields {
    pub capabilities: Option<Seq<Seq<char>>>,
    pub runtime_kind: Option<RuntimeKindV>,
}

pub open spec fn runtime_step(st: RuntimeFields, key: Seq<char>, v: JsonV) -> Option<RuntimeFields> {
    if key == "capabilities"@ {
        match set_texts(st.capabilities, v) {
            Some(c) => Some(RuntimeFields { capabilities: c, ..st }),
            None => None,
        }
    } else if key == "container"@ {
        if st.runtime_kind is Some {
            None
        } else {
            match container_of(v) {
                Some(c) => Some(RuntimeFields { runtime_kind: Some(RuntimeKindV::Container(c)), ..st }),
                None => None,
            }
        }
    } else {
        None
    }
}

/// The reading of the members of a runtime.
pub open spec fn runtime_fields(ms: Seq<(Seq<char>, JsonV)>) -> Option<RuntimeFields> {
    fold_members(ms, RuntimeFields { capabilities: None, runtime_kind: None }, runtime_stepper())
}

/// The step of [`runtime_fields`].
pub open spec fn runtime_stepper() -> spec_fn(RuntimeFields, Seq<char>, JsonV) -> Option<RuntimeFields> {
    |st: RuntimeFields, k: Seq<char>, v: JsonV| runtime_step(st, k, v)
}

/// The runtime a document describes; none where it is not one.
pub open spec fn runtime_of(j: JsonV) -> Option<RuntimeV> {
    match j {
        JsonV::Object(ms) => match runtime_fields(ms) {
            Some(st) => Some(RuntimeV { capabilities: texts_or_empty(st.capabilities), runtime_kind: st.runtime_kind }),
            None => None,
        },
        _ => None,
    }
}

// ---------------------------------------------------------------------
// Parameters.

pub struct ParameterFields {
    pub name: Option<Seq<char>>,
    pub description: Option<Seq<char>>,
    pub parameter_kind: Option<int>,
    pub default_value: Option<JsonV>,
}

pub open spec fn parameter_step(st: ParameterFields, key: Seq<char>, v: JsonV) -> Option<ParameterFields> {
    if key == "name"@ {
        match set_text(st.name, v) {
            Some(x) => Some(ParameterFields { name: x, ..st }),
            None => None,
        }
    } else if key == "description"@ {
        match set_text(st.description, v) {
            Some(x) => Some(ParameterFields { description: x, ..st }),
            None => None,
        }
    } else if key == "parameterKind"@ {
        if st.parameter_kind is Some {
            None
        } else {
            match parameter_kind_of(v) {
                Some(k) => Some(ParameterFields { parameter_kind: Some(k), ..st }),
                None => None,
            }
        }
    } else if key == "defaultValue"@ {
        if st.default_value is Some {
            None
        } else {
            Some(ParameterFields { default_value: Some(v), ..st })
        }
    } else {
        None
    }
}

/// The reading of the members of a parameter.
pub open spec fn parameter_fields(ms: Seq<(Seq<char>, JsonV)>) -> Option<ParameterFields> {
    fold_members(ms, ParameterFields { name: None, description: None, parameter_kind: None, default_value: None }, parameter_stepper())
}

/// The step of [`parameter_fields`].
pub open spec fn parameter_stepper() -> spec_fn(ParameterFields, Seq<char>, JsonV) -> Option<ParameterFields> {
    |st: ParameterFields, k: Seq<char>, v: JsonV| parameter_step(st, k, v)
}

/// The parameter a document describes; none where it is not one.
pub open spec fn parameter_of(j: JsonV) -> Option<ParameterV> {
    match j {
        JsonV::Object(ms) => match parameter_fields(ms) {
            Some(st) => Some(
                ParameterV {
                    name: text_or_empty(st.name),
                    description: text_or_empty(st.description),
                    parameter_kind: match st.parameter_kind {
                        Some(k) => k,
                        None => 0,
                    },
                    default_value: st.default_value,
                },
            ),
            None => None,
        },
        _ => None,
    }
}

/// The parameters an array of documents describes; none where one is not
/// a parameter.
pub open spec fn parameters_in(items: Seq<JsonV>) -> Option<Seq<ParameterV>>
    decreases items.len(),
{
    if items.len() == 0 {
        Some(Seq::empty())
    } else {
        match parameters_in(items.drop_last()) {
            Some(ps) => match parameter_of(items.last()) {
                Some(p) => Some(ps.push(p)),
                None => None,
            },
            None => None,
        }
    }
}

/// The parameters an array describes; none where it is not one.
pub open spec fn parameters_of(j: JsonV) -> Option<Seq<ParameterV>> {
    match j {
        JsonV::Array(items) => parameters_in(items),
        _ => None,
    }
}

// ---------------------------------------------------------------------
// Functions.

pub struct FunctionFields {
    pub inputs: Option<Seq<ParameterV>>,
    pub outputs: Option<Seq<ParameterV>>,
    pub base_command: Option<Seq<Seq<char>>>,
    pub runtime_capabilities: Option<Seq<Seq<char>>>,
}

pub open spec fn function_step(st: FunctionFields, key: Seq<char>, v: JsonV) -> Option<FunctionFields> {
    if key == "inputs"@ {
        if st.inputs is Some {
            None
        } else {
            match parameters_of(v) {
                Some(ps) => Some(FunctionFields { inputs: Some(ps), ..st }),
                None => None,
            }
        }
    } else if key == "outputs"@ {
        if st.outputs is Some {
            None
        } else {
            match parameters_of(v) {
                Some(ps) => Some(FunctionFields { outputs: Some(ps), ..st }),
                None => None,
            }
        }
    } else if key == "baseCommand"@ {
        match set_texts(st.base_command, v) {
            Some(x) => Some(FunctionFields { base_command: x, ..st }),
            None => None,
        }
    } else if key == "runtimeCapabilities"@ {
        match set_texts(st.runtime_capabilities, v) {
            Some(x) => Some(FunctionFields { runtime_capabilities: x, ..st }),
            None => None,
        }
    } else {
        None
    }
}

/// The reading of the members of a function.
pub open spec fn function_fields(ms: Seq<(Seq<char>, JsonV)>) -> Option<FunctionFields> {
    fold_members(ms, FunctionFields { inputs: None, outputs: None, base_command: None, runtime_capabilities: None }, function_stepper())
}

/// The step of [`function_fields`].
pub open spec fn function_stepper() -> spec_fn(FunctionFields, Seq<char>, JsonV) -> Option<FunctionFields> {
    |st: FunctionFields, k: Seq<char>, v: JsonV| function_step(st, k, v)
}

/// The function a document describes; none where it is not one.
pub open spec fn function_of(j: JsonV) -> Option<FunctionV> {
    match j {
        JsonV::Object(ms) => match function_fields(ms) {
            Some(st) => Some(
                FunctionV {
                    inputs: match st.inputs {
                        Some(ps) => ps,
                        None => Seq::empty(),
                    },
                    outputs: match st.outputs {
                        Some(ps) => ps,
                        None => Seq::empty(),
                    },
                    base_command: texts_or_empty(st.base_command),
                    runtime_capabilities: texts_or_empty(st.runtime_capabilities),
                },
            ),
            None => None,
        },
        _ => None,
    }
}

// ---------------------------------------------------------------------
// Resources.

pub struct ResourceFields {
    pub version: Option<Seq<char>>,
    pub namespace: Option<Seq<char>>,
    pub name: Option<Seq<char>>,
    pub description: Option<Seq<char>>,
    pub tags: Option<Seq<Seq<char>>>,
    pub attributes: Option<Seq<(Seq<char>, JsonV)>>,
    pub resource_kind: Option<ResourceKindV>,
}

/// One member of a resource. The revision is read under `revision` or
/// under `version` (the name its JSON form is written under, which the
/// queries of versions read), once.
pub open spec fn resource_step(st: ResourceFields, key: Seq<char>, v: JsonV) -> Option<ResourceFields> {
    if key == "version"@ || key == "revision"@ {
        match set_text(st.version, v) {
            Some(x) => Some(ResourceFields { version: x, ..st }),
            None => None,
        }
    } else if key == "namespace"@ {
        match set_text(st.namespace, v) {
            Some(x) => Some(ResourceFields { namespace: x, ..st }),
            None => None,
        }
    } else if key == "name"@ {
        match set_text(st.name, v) {
            Some(x) => Some(ResourceFields { name: x, ..st }),
            None => None,
        }
    } else if key == "description"@ {
        match set_text(st.description, v) {
            Some(x) => Some(ResourceFields { description: x, ..st }),
            None => None,
        }
    } else if key == "tags"@ {
        match set_texts(st.tags, v) {
            Some(x) => Some(ResourceFields { tags: x, ..st }),
            None => None,
        }
    } else if key == "attributes"@ {
        if st.attributes is Some {
            None
        } else {
            match v {
                JsonV::Object(ms) => Some(ResourceFields { attributes: Some(ms), ..st }),
                _ => None,
            }
        }
    } else if key == "function"@ {
        if st.resource_kind is Some {
            None
        } else {
            match function_of(v) {
                Some(f) => Some(ResourceFields { resource_kind: Some(ResourceKindV::Function(f)), ..st }),
                None => None,
            }
        }
    } else if key == "runtime"@ {
        if st.resource_kind is Some {
            None
        } else {
            match runtime_of(v) {
                Some(r) => Some(ResourceFields { resource_kind: Some(ResourceKindV::Runtime(r)), ..st }),
                None => None,
            }
        }
    } else {
        None
    }
}

/// The reading of the members of a resource.
pub open spec fn resource_fields(ms: Seq<(Seq<char>, JsonV)>) -> Option<ResourceFields> {
    fold_members(
        ms,
        ResourceFields {
            version: None,
            namespace: None,
            name: None,
            description: None,
            tags: None,
            attributes: None,
            resource_kind: None,
        },
        resource_stepper(),
    )
}

/// The step of [`resource_fields`].
pub open spec fn resource_stepper() -> spec_fn(ResourceFields, Seq<char>, JsonV) -> Option<ResourceFields> {
    |st: ResourceFields, k: Seq<char>, v: JsonV| resource_step(st, k, v)
}

/// The member names of a container.
pub open spec fn container_known() -> spec_fn(Seq<char>) -> bool {
    |k: Seq<char>| k == "dockerfile"@
}

/// Whether a container member was read already.
pub open spec fn container_taken() -> spec_fn(ContainerFields, Seq<char>) -> bool {
    |st: ContainerFields, k: Seq<char>| st.dockerfile is Some
}

/// What a container member's value must be.
pub open spec fn container_value_msg() -> spec_fn(Seq<char>) -> Option<Seq<char>> {
    |k: Seq<char>| Some("a string"@)
}

/// The member names of a runtime.
pub open spec fn runtime_known() -> spec_fn(Seq<char>) -> bool {
    |k: Seq<char>| k == "capabilities"@ || k == "container"@
}

/// Whether what a runtime member sets was set already.
pub open spec fn runtime_taken() -> spec_fn(RuntimeFields, Seq<char>) -> bool {
    |st: RuntimeFields, k: Seq<char>| if k == "capabilities"@ { st.capabilities is Some } else { st.runtime_kind is Some }
}

/// What a runtime member's value must be (the container's own error
/// where it does not read).
pub open spec fn runtime_value_msg() -> spec_fn(Seq<char>) -> Option<Seq<char>> {
    |k: Seq<char>| if k == "capabilities"@ { Some("a sequence of strings"@) } else { None }
}

/// The member names of a parameter.
pub open spec fn parameter_known() -> spec_fn(Seq<char>) -> bool {
    |k: Seq<char>| k == "name"@ || k == "description"@ || k == "parameterKind"@ || k == "defaultValue"@
}

/// Whether a parameter member was read already.
pub open spec fn parameter_taken() -> spec_fn(ParameterFields, Seq<char>) -> bool {
    |st: ParameterFields, k: Seq<char>|
        if k == "name"@ {
            st.name is Some
        } else if k == "description"@ {
            st.description is Some
        } else if k == "parameterKind"@ {
            st.parameter_kind is Some
        } else {
            st.default_value is Some
        }
}

/// What a parameter member's value must be.
pub open spec fn parameter_value_msg() -> spec_fn(Seq<char>) -> Option<Seq<char>> {
    |k: Seq<char>| if k == "parameterKind"@ { Some("a parameter kind"@) } else { Some("a string"@) }
}

/// The member names of a function.
pub open spec fn function_known() -> spec_fn(Seq<char>) -> bool {
    |k: Seq<char>| k == "inputs"@ || k == "outputs"@ || k == "baseCommand"@ || k == "runtimeCapabilities"@
}

/// Whether a function member was read already.
pub open spec fn function_taken() -> spec_fn(FunctionFields, Seq<char>) -> bool {
    |st: FunctionFields, k: Seq<char>|
        if k == "inputs"@ {
            st.inputs is Some
        } else if k == "outputs"@ {
            st.outputs is Some
        } else if k == "baseCommand"@ {
            st.base_command is Some
        } else {
            st.runtime_capabilities is Some
        }
}

/// What a function member's value must be (the parameters' own error
/// where they do not read).
pub open spec fn function_value_msg() -> spec_fn(Seq<char>) -> Option<Seq<char>> {
    |k: Seq<char>| if k == "inputs"@ || k == "outputs"@ { None } else { Some("a sequence of strings"@) }
}

/// No member of a container reads another document.
pub open spec fn container_nested() -> spec_fn(Seq<char>, JsonV, Seq<char>) -> bool {
    |k: Seq<char>, v: JsonV, e: Seq<char>| false
}

/// The error reading a container gives (see [`reading_error`]).
pub open spec fn container_error(j: JsonV, e: Seq<char>) -> bool {
    reading_error(
        j,
        ContainerFields { dockerfile: None },
        container_stepper(),
        container_known(),
        container_taken(),
        container_value_msg(),
        container_nested(),
        "struct bda.Container"@,
        e,
    )
}

/// A runtime's `container` gives the error of reading the container.
pub open spec fn runtime_nested() -> spec_fn(Seq<char>, JsonV, Seq<char>) -> bool {
    |k: Seq<char>, v: JsonV, e: Seq<char>| container_error(v, e)
}

/// The error reading a runtime gives (see [`reading_error`]).
pub open spec fn runtime_error(j: JsonV, e: Seq<char>) -> bool {
    reading_error(
        j,
        RuntimeFields { capabilities: None, runtime_kind: None },
        runtime_stepper(),
        runtime_known(),
        runtime_taken(),
        runtime_value_msg(),
        runtime_nested(),
        "struct bda.Runtime"@,
        e,
    )
}

/// No member of a parameter reads another document.
pub open spec fn parameter_nested() -> spec_fn(Seq<char>, JsonV, Seq<char>) -> bool {
    |k: Seq<char>, v: JsonV, e: Seq<char>| false
}

/// The error reading a parameter gives (see [`reading_error`]).
pub open spec fn parameter_error(j: JsonV, e: Seq<char>) -> bool {
    reading_error(
        j,
        ParameterFields { name: None, description: None, parameter_kind: None, default_value: None },
        parameter_stepper(),
        parameter_known(),
        parameter_taken(),
        parameter_value_msg(),
        parameter_nested(),
        "struct bda.Parameter"@,
        e,
    )
}

/// The error reading a list of parameters gives: that it is not a list, or
/// the error of its first member that is not a parameter.
pub open spec fn parameters_error(j: JsonV, e: Seq<char>) -> bool {
    match j {
        JsonV::Array(items) => exists|i: int|
            0 <= i < items.len() && (#[trigger] parameter_of(items[i])) is None && (forall|q: int|
                0 <= q < i ==> (#[trigger] parameter_of(items[q])) is Some) && parameter_error(items[i], e),
        _ => e == "invalid type: expected "@ + "a sequence"@,
    }
}

/// A function's `inputs` and `outputs` give the error of reading the
/// parameters.
pub open spec fn function_nested() -> spec_fn(Seq<char>, JsonV, Seq<char>) -> bool {
    |k: Seq<char>, v: JsonV, e: Seq<char>| parameters_error(v, e)
}

/// The error reading a function gives (see [`reading_error`]).
pub open spec fn function_error(j: JsonV, e: Seq<char>) -> bool {
    reading_error(
        j,
        FunctionFields { inputs: None, outputs: None, base_command: None, runtime_capabilities: None },
        function_stepper(),
        function_known(),
        function_taken(),
        function_value_msg(),
        function_nested(),
        "struct bda.Function"@,
        e,
    )
}

/// Nothing read yet of a resource.
pub open spec fn resource_init() -> ResourceFields {
    ResourceFields {
        version: None,
        namespace: None,
        name: None,
        description: None,
        tags: None,
        attributes: None,
        resource_kind: None,
    }
}

/// The member names of a resource whose value is a text.
pub open spec fn resource_text_key(k: Seq<char>) -> bool {
    k == "version"@ || k == "revision"@ || k == "namespace"@ || k == "name"@ || k == "description"@
}

/// The member names a resource has.
pub open spec fn resource_key(k: Seq<char>) -> bool {
    resource_text_key(k) || k == "tags"@ || k == "attributes"@ || k == "function"@ || k == "runtime"@
}

/// Whether what the member `k` sets was set already (`function` and
/// `runtime` set the same kind).
pub open spec fn resource_slot_taken(st: ResourceFields, k: Seq<char>) -> bool {
    if k == "version"@ || k == "revision"@ {
        st.version is Some
    } else if k == "namespace"@ {
        st.namespace is Some
    } else if k == "name"@ {
        st.name is Some
    } else if k == "description"@ {
        st.description is Some
    } else if k == "tags"@ {
        st.tags is Some
    } else if k == "attributes"@ {
        st.attributes is Some
    } else {
        st.resource_kind is Some
    }
}

/// The error of a member where the reading stops, given what was read
/// before it: an unknown name; a repeated member (or both `function` and
/// `runtime`); a text, list of texts or map of the wrong kind; or the
/// error of reading the function or runtime.
pub open spec fn resource_member_error(st: ResourceFields, k: Seq<char>, v: JsonV, e: Seq<char>) -> bool {
    if !resource_key(k) {
        e == "unknown field `"@ + k + "`"@
    } else if resource_slot_taken(st, k) {
        e == "duplicate field `"@ + k + "`"@
    } else if resource_text_key(k) {
        e == "invalid type: expected "@ + "a string"@
    } else if k == "tags"@ {
        e == "invalid type: expected "@ + "a sequence of strings"@
    } else if k == "attributes"@ {
        e == "invalid type: expected "@ + "a map"@
    } else if k == "function"@ {
        function_error(v, e)
    } else {
        runtime_error(v, e)
    }
}

/// The error reading a resource gives: for a document that is not a map,
/// that it is of the wrong type; for a map, the error of the member where
/// the reading stops (see [`resource_member_error`]).
pub open spec fn resource_error(j: JsonV, e: Seq<char>) -> bool {
    match j {
        JsonV::Object(ms) => match first_failure(ms, resource_init(), resource_stepper()) {
            Some(i) => resource_member_error(fold_members(ms.take(i), resource_init(), resource_stepper())->0, ms[i].0, ms[i].1, e),
            None => false,
        },
        _ => e == "invalid type: expected "@ + "struct bda.Resource"@,
    }
}

/// The resource a document describes; none where it is not one.
pub open spec fn resource_of(j: JsonV) -> Option<ResourceV> {
    match j {
        JsonV::Object(ms) => match resource_fields(ms) {
            Some(st) => Some(
                ResourceV {
                    revision: text_or_empty(st.version),
                    namespace: text_or_empty(st.namespace),
                    name: text_or_empty(st.name),
                    description: text_or_empty(st.description),
                    tags: texts_or_empty(st.tags),
                    attributes: st.attributes,
                    resource_kind: st.resource_kind,
                },
            ),
            None => None,
        },
        _ => None,
    }
}

// ---------------------------------------------------------------------
// Reading.

/// The view of an optional text.
pub open spec fn opt_text(o: Option<String>) -> Option<Seq<char>> {
    match o {
        Some(s) => Some(s@),
        None => None,
    }
}

/// The view of an optional list of texts.
pub open spec fn opt_texts(o: Option<Vec<String>>) -> Option<Seq<Seq<char>>> {
    match o {
        Some(v) => Some(string_views(v@)),
        None => None,
    }
}

/// Whether a member name is `lit`.
fn key_is(k: &String, lit: &str) -> (r: bool)
    ensures
        r == (k@ == lit@),
{
    chars_eq_str(&chars_of(k.as_str()), lit)
}

/// The message for a member that appears twice.
fn duplicate_field(name: &str) -> (r: String)
    ensures
        r@ == "duplicate field `"@ + name@ + "`"@,
{
    let mut m: Vec<char> = Vec::new();
    push_str(&mut m, "duplicate field `");
    push_str(&mut m, name);
    push_str(&mut m, "`");
    string_from_chars(&m)
}

/// The message for a member that appears twice, by its name.
pub(crate) fn duplicate_key(name: &String) -> (r: String)
    ensures
        r@ == "duplicate field `"@ + name@ + "`"@,
{
    let mut m: Vec<char> = Vec::new();
    push_str(&mut m, "duplicate field `");
    push_all(&mut m, &chars_of(name.as_str()));
    push_str(&mut m, "`");
    string_from_chars(&m)
}

/// The message for a member of an unknown name.
pub(crate) fn unknown_field(name: &String) -> (r: String)
    ensures
        r@ == "unknown field `"@ + name@ + "`"@,
{
    let mut m: Vec<char> = Vec::new();
    push_str(&mut m, "unknown field `");
    push_all(&mut m, &chars_of(name.as_str()));
    push_str(&mut m, "`");
    string_from_chars(&m)
}

/// The message for a document of the wrong kind.
pub(crate) fn invalid_type(expected: &str) -> (r: String)
    ensures
        r@ == "invalid type: expected "@ + expected@,
{
    let mut m: Vec<char> = Vec::new();
    push_str(&mut m, "invalid type: expected ");
    push_str(&mut m, expected);
    string_from_chars(&m)
}

/// A string's text.
pub(crate) fn read_text(v: &Json) -> (r: Option<String>)
    ensures
        opt_text(r) == json_text(v@),
{
    match v {
        Json::String(s) => Some(s.clone()),
        _ => None,
    }
}

/// The texts of an array of strings.
pub(crate) fn read_texts(v: &Json) -> (r: Option<Vec<String>>)
    ensures
        opt_texts(r) == json_texts(v@),
{
    match v {
        Json::Array(items) => {
            proof {
                lemma_json_views(items@);
            }
            let ghost iv = json_views(items@);
            let mut out: Vec<String> = Vec::new();
            let n = items.len();
            for i in 0..n
                invariant
                    n == items@.len(),
                    iv == json_views(items@),
                    v@ == JsonV::Array(iv),
                    iv.len() == n,
                    forall|k: int| 0 <= k < n ==> #[trigger] iv[k] == items@[k]@,
                    out@.len() == i,
                    forall|k: int| 0 <= k < i ==> #[trigger] iv[k] is String && out@[k]@ == json_text(iv[k])->0,
            {
                match &items[i] {
                    Json::String(s) => {
                        out.push(s.clone());
                    },
                    _ => {
                        assert(!(iv[i as int] is String));
                        return None;
                    },
                }
            }
            assert(string_views(out@) =~= iv.map_values(|x: JsonV| json_text(x)->0));
            Some(out)
        },
        _ => None,
    }
}

/// A parameter kind by name or number (see [`parameter_kind_of`]).
fn read_parameter_kind(v: &Json) -> (r: Option<i32>)
    ensures
        match r {
            Some(k) => parameter_kind_of(v@) == Some(k as int),
            None => parameter_kind_of(v@) is None,
        },
{
    match v {
        Json::String(s) => {
            let cs = chars_of(s.as_str());
            if chars_eq_str(&cs, "GENERIC") {
                Some(0)
            } else if chars_eq_str(&cs, "NUMBER") {
                Some(1)
            } else if chars_eq_str(&cs, "BOOLEAN") {
                Some(2)
            } else if chars_eq_str(&cs, "TEXT") {
                Some(3)
            } else if chars_eq_str(&cs, "JSON") {
                Some(4)
            } else if chars_eq_str(&cs, "URL") {
                Some(5)
            } else if chars_eq_str(&cs, "PATH") {
                Some(6)
            } else {
                None
            }
        },
        Json::Number(d, whole) => match d.digit_value() {
            Some(k) => if *whole && k <= 6 {
                Some(k as i32)
            } else {
                None
            },
            None => None,
        },
        _ => None,
    }
}

impl Container {
    /// The container a document describes (see [`container_of`]); an error
    /// where it is not one.
    pub fn from_json(j: &Json) -> (r: Result<Container, String>)
        ensures
            match r {
                Ok(c) => container_of(j@) == Some(c@),
                Err(e) => container_of(j@) is None && container_error(j@, e@),
            },
    {
        let ms = match j {
            Json::Object(ms) => ms,
            _ => return Err(invalid_type("struct bda.Container")),
        };
        proof {
            lemma_member_views(ms@);
        }
        let ghost mv = member_views(ms@);
        let ghost init = ContainerFields { dockerfile: None };
        let mut dockerfile: Option<String> = None;
        let n = ms.len();
        assert(mv.take(0) =~= Seq::<(Seq<char>, JsonV)>::empty());
        for i in 0..n
            invariant
                n == ms@.len(),
                mv == member_views(ms@),
                j@ == JsonV::Object(mv),
                init == (ContainerFields { dockerfile: None }),
                mv.len() == n,
                forall|k: int| 0 <= k < n ==> #[trigger] mv[k] == (ms@[k].0@, ms@[k].1@),
                fold_members(mv.take(i as int), init, container_stepper()) == Some(ContainerFields { dockerfile: opt_text(dockerfile) }),
        {
            proof {
                lemma_fold_next(mv, init, container_stepper(), i as int);
            }
            let key = &ms[i].0;
            let v = &ms[i].1;
            if key_is(key, "dockerfile") {
                if dockerfile.is_some() {
                    proof {
                        lemma_fold_stuck(mv, init, container_stepper(), i as int);
                        lemma_first_failure(mv, init, container_stepper(), i as int);
                    }
                    return Err(duplicate_field("dockerfile"));
                }
                match read_text(v) {
                    Some(t) => {
                        dockerfile = Some(t);
                    },
                    None => {
                        proof {
                            lemma_fold_stuck(mv, init, container_stepper(), i as int);
                        lemma_first_failure(mv, init, container_stepper(), i as int);
                        }
                        return Err(invalid_type("a string"));
                    },
                }
            } else {
                proof {
                    lemma_fold_stuck(mv, init, container_stepper(), i as int);
                        lemma_first_failure(mv, init, container_stepper(), i as int);
                }
                return Err(unknown_field(key));
            }
        }
        assert(mv.take(n as int) =~= mv);
        Ok(Container {
            dockerfile: match dockerfile {
                Some(d) => d,
                None => String::new(),
            },
        })
    }
}

/// The view of an optional runtime kind.
pub open spec fn opt_runtime_kind(o: Option<RuntimeKind>) -> Option<RuntimeKindV> {
    match o {
        Some(RuntimeKind::Container(c)) => Some(RuntimeKindV::Container(c@)),
        None => None,
    }
}

impl Runtime {
    /// The runtime a document describes (see [`runtime_of`]); an error
    /// where it is not one.
    pub fn from_json(j: &Json) -> (r: Result<Runtime, String>)
        ensures
            match r {
                Ok(x) => runtime_of(j@) == Some(x@),
                Err(e) => runtime_of(j@) is None && runtime_error(j@, e@),
            },
    {
        let ms = match j {
            Json::Object(ms) => ms,
            _ => return Err(invalid_type("struct bda.Runtime")),
        };
        proof {
            lemma_member_views(ms@);
        }
        let ghost mv = member_views(ms@);
        let ghost init = RuntimeFields { capabilities: None, runtime_kind: None };
        let mut capabilities: Option<Vec<String>> = None;
        let mut runtime_kind: Option<RuntimeKind> = None;
        let n = ms.len();
        assert(mv.take(0) =~= Seq::<(Seq<char>, JsonV)>::empty());
        for i in 0..n
            invariant
                n == ms@.len(),
                mv == member_views(ms@),
                j@ == JsonV::Object(mv),
                init == (RuntimeFields { capabilities: None, runtime_kind: None }),
                mv.len() == n,
                forall|k: int| 0 <= k < n ==> #[trigger] mv[k] == (ms@[k].0@, ms@[k].1@),
                fold_members(mv.take(i as int), init, runtime_stepper()) == Some(
                    RuntimeFields { capabilities: opt_texts(capabilities), runtime_kind: opt_runtime_kind(runtime_kind) },
                ),
        {
            proof {
                lemma_fold_next(mv, init, runtime_stepper(), i as int);
            }
            let key = &ms[i].0;
            let v = &ms[i].1;
            if key_is(key, "capabilities") {
                if capabilities.is_some() {
                    proof {
                        lemma_fold_stuck(mv, init, runtime_stepper(), i as int);
                        lemma_first_failure(mv, init, runtime_stepper(), i as int);
                        lemma_runtime_keys();
                    }
                    return Err(duplicate_field("capabilities"));
                }
                match read_texts(v) {
                    Some(t) => {
                        capabilities = Some(t);
                    },
                    None => {
                        proof {
                            lemma_fold_stuck(mv, init, runtime_stepper(), i as int);
                        lemma_first_failure(mv, init, runtime_stepper(), i as int);
                        lemma_runtime_keys();
                        }
                        return Err(invalid_type("a sequence of strings"));
                    },
                }
            } else if key_is(key, "container") {
                if runtime_kind.is_some() {
                    proof {
                        lemma_fold_stuck(mv, init, runtime_stepper(), i as int);
                        lemma_first_failure(mv, init, runtime_stepper(), i as int);
                        lemma_runtime_keys();
                    }
                    return Err(duplicate_field("container"));
                }
                match Container::from_json(v) {
                    Ok(c) => {
                        runtime_kind = Some(RuntimeKind::Container(c));
                    },
                    Err(e) => {
                        proof {
                            lemma_fold_stuck(mv, init, runtime_stepper(), i as int);
                        lemma_first_failure(mv, init, runtime_stepper(), i as int);
                        lemma_runtime_keys();
                        }
                        return Err(e);
                    },
                }
            } else {
                proof {
                    lemma_fold_stuck(mv, init, runtime_stepper(), i as int);
                        lemma_first_failure(mv, init, runtime_stepper(), i as int);
                        lemma_runtime_keys();
                }
                return Err(unknown_field(key));
            }
        }
        assert(mv.take(n as int) =~= mv);
        proof {
            assert(string_views(Seq::<String>::empty()) =~= Seq::<Seq<char>>::empty());
        }
        let capabilities = match capabilities {
            Some(c) => c,
            None => Vec::new(),
        };
        Ok(Runtime { capabilities, runtime_kind })
    }
}

/// The view of an optional number of a parameter kind.
pub open spec fn opt_kind(o: Option<i32>) -> Option<int> {
    match o {
        Some(k) => Some(k as int),
        None => None,
    }
}

impl Parameter {
    /// The parameter a document describes (see [`parameter_of`]); an error
    /// where it is not one.
    pub fn from_json(j: &Json) -> (r: Result<Parameter, String>)
        ensures
            match r {
                Ok(x) => parameter_of(j@) == Some(x@),
                Err(e) => parameter_of(j@) is None && parameter_error(j@, e@),
            },
    {
        let ms = match j {
            Json::Object(ms) => ms,
            _ => return Err(invalid_type("struct bda.Parameter")),
        };
        proof {
            lemma_member_views(ms@);
        }
        let ghost mv = member_views(ms@);
        let ghost init = ParameterFields { name: None, description: None, parameter_kind: None, default_value: None };
        let mut name: Option<String> = None;
        let mut description: Option<String> = None;
        let mut parameter_kind: Option<i32> = None;
        let mut default_value: Option<Json> = None;
        let n = ms.len();
        assert(mv.take(0) =~= Seq::<(Seq<char>, JsonV)>::empty());
        for i in 0..n
            invariant
                n == ms@.len(),
                mv == member_views(ms@),
                j@ == JsonV::Object(mv),
                init == (ParameterFields { name: None, description: None, parameter_kind: None, default_value: None }),
                mv.len() == n,
                forall|k: int| 0 <= k < n ==> #[trigger] mv[k] == (ms@[k].0@, ms@[k].1@),
                fold_members(mv.take(i as int), init, parameter_stepper()) == Some(
                    ParameterFields {
                        name: opt_text(name),
                        description: opt_text(description),
                        parameter_kind: opt_kind(parameter_kind),
                        default_value: crate::resource::opt_json(default_value),
                    },
                ),
        {
            proof {
                lemma_fold_next(mv, init, parameter_stepper(), i as int);
            }
            let key = &ms[i].0;
            let v = &ms[i].1;
            if key_is(key, "name") {
                if name.is_some() {
                    proof {
                        lemma_fold_stuck(mv, init, parameter_stepper(), i as int);
                        lemma_first_failure(mv, init, parameter_stepper(), i as int);
                        lemma_parameter_keys();
                    }
                    return Err(duplicate_field("name"));
                }
                match read_text(v) {
                    Some(t) => {
                        name = Some(t);
                    },
                    None => {
                        proof {
                            lemma_fold_stuck(mv, init, parameter_stepper(), i as int);
                        lemma_first_failure(mv, init, parameter_stepper(), i as int);
                        lemma_parameter_keys();
                        }
                        return Err(invalid_type("a string"));
                    },
                }
            } else if key_is(key, "description") {
                if description.is_some() {
                    proof {
                        lemma_fold_stuck(mv, init, parameter_stepper(), i as int);
                        lemma_first_failure(mv, init, parameter_stepper(), i as int);
                        lemma_parameter_keys();
                    }
                    return Err(duplicate_field("description"));
                }
                match read_text(v) {
                    Some(t) => {
                        description = Some(t);
                    },
                    None => {
                        proof {
                            lemma_fold_stuck(mv, init, parameter_stepper(), i as int);
                        lemma_first_failure(mv, init, parameter_stepper(), i as int);
                        lemma_parameter_keys();
                        }
                        return Err(invalid_type("a string"));
                    },
                }
            } else if key_is(key, "parameterKind") {
                if parameter_kind.is_some() {
                    proof {
                        lemma_fold_stuck(mv, init, parameter_stepper(), i as int);
                        lemma_first_failure(mv, init, parameter_stepper(), i as int);
                        lemma_parameter_keys();
                    }
                    return Err(duplicate_field("parameterKind"));
                }
                match read_parameter_kind(v) {
                    Some(k) => {
                        parameter_kind = Some(k);
                    },
                    None => {
                        proof {
                            lemma_fold_stuck(mv, init, parameter_stepper(), i as int);
                        lemma_first_failure(mv, init, parameter_stepper(), i as int);
                        lemma_parameter_keys();
                        }
                        return Err(invalid_type("a parameter kind"));
                    },
                }
            } else if key_is(key, "defaultValue") {
                if default_value.is_some() {
                    proof {
                        lemma_fold_stuck(mv, init, parameter_stepper(), i as int);
                        lemma_first_failure(mv, init, parameter_stepper(), i as int);
                        lemma_parameter_keys();
                    }
                    return Err(duplicate_field("defaultValue"));
                }
                default_value = Some(v.duplicate());
            } else {
                proof {
                    lemma_fold_stuck(mv, init, parameter_stepper(), i as int);
                        lemma_first_failure(mv, init, parameter_stepper(), i as int);
                        lemma_parameter_keys();
                }
                return Err(unknown_field(key));
            }
        }
        assert(mv.take(n as int) =~= mv);
        Ok(Parameter {
            name: match name {
                Some(x) => x,
                None => String::new(),
            },
            description: match description {
                Some(x) => x,
                None => String::new(),
            },
            parameter_kind: match parameter_kind {
                Some(k) => k,
                None => 0,
            },
            default_value,
        })
    }
}

/// The parameters an array describes (see [`parameters_of`]); an error
/// where it is not one.
fn parameters_from_json(j: &Json) -> (r: Result<Vec<Parameter>, String>)
    ensures
        match r {
            Ok(ps) => parameters_of(j@) == Some(parameter_views(ps@)),
            Err(e) => parameters_of(j@) is None && parameters_error(j@, e@),
        },
{
    let items = match j {
        Json::Array(items) => items,
        _ => return Err(invalid_type("a sequence")),
    };
    proof {
        lemma_json_views(items@);
    }
    let ghost iv = json_views(items@);
    let mut out: Vec<Parameter> = Vec::new();
    let n = items.len();
    assert(iv.take(0) =~= Seq::<JsonV>::empty());
    assert(parameter_views(out@) =~= Seq::<ParameterV>::empty());
    for i in 0..n
        invariant
            n == items@.len(),
            iv == json_views(items@),
            j@ == JsonV::Array(iv),
            iv.len() == n,
            forall|k: int| 0 <= k < n ==> #[trigger] iv[k] == items@[k]@,
            parameters_in(iv.take(i as int)) == Some(parameter_views(out@)),
            forall|q: int| 0 <= q < i ==> (#[trigger] parameter_of(iv[q])) is Some,
    {
        assert(iv.take(i + 1).drop_last() =~= iv.take(i as int));
        assert(iv.take(i + 1).last() == iv[i as int]);
        match Parameter::from_json(&items[i]) {
            Ok(p) => {
                let ghost before = parameter_views(out@);
                out.push(p);
                assert(parameter_views(out@) =~= before.push(p@));
            },
            Err(e) => {
                proof {
                    lemma_parameters_stuck(iv, i as int);
                    assert(parameter_of(iv[i as int]) is None);
                }
                return Err(e);
            },
        }
    }
    assert(iv.take(n as int) =~= iv);
    Ok(out)
}

/// A document that is not a parameter fails the whole array.
proof fn lemma_parameters_stuck(items: Seq<JsonV>, i: int)
    requires
        0 <= i < items.len(),
        parameters_in(items.take(i)) is Some,
        parameter_of(items[i]) is None,
    ensures
        parameters_in(items) is None,
    decreases items.len(),
{
    if i == items.len() - 1 {
        assert(items.drop_last() =~= items.take(i));
    } else {
        assert(items.drop_last().take(i) =~= items.take(i));
        lemma_parameters_stuck(items.drop_last(), i);
    }
}

/// The view of an optional list of parameters.
pub open spec fn opt_parameters(o: Option<Vec<Parameter>>) -> Option<Seq<ParameterV>> {
    match o {
        Some(v) => Some(parameter_views(v@)),
        None => None,
    }
}

impl Function {
    /// The function a document describes (see [`function_of`]); an error
    /// where it is not one.
    pub fn from_json(j: &Json) -> (r: Result<Function, String>)
        ensures
            match r {
                Ok(x) => function_of(j@) == Some(x@),
                Err(e) => function_of(j@) is None && function_error(j@, e@),
            },
    {
        let ms = match j {
            Json::Object(ms) => ms,
            _ => return Err(invalid_type("struct bda.Function")),
        };
        proof {
            lemma_member_views(ms@);
        }
        let ghost mv = member_views(ms@);
        let ghost init = FunctionFields { inputs: None, outputs: None, base_command: None, runtime_capabilities: None };
        let mut inputs: Option<Vec<Parameter>> = None;
        let mut outputs: Option<Vec<Parameter>> = None;
        let mut base_command: Option<Vec<String>> = None;
        let mut runtime_capabilities: Option<Vec<String>> = None;
        let n = ms.len();
        assert(mv.take(0) =~= Seq::<(Seq<char>, JsonV)>::empty());
        for i in 0..n
            invariant
                n == ms@.len(),
                mv == member_views(ms@),
                j@ == JsonV::Object(mv),
                init == (FunctionFields { inputs: None, outputs: None, base_command: None, runtime_capabilities: None }),
                mv.len() == n,
                forall|k: int| 0 <= k < n ==> #[trigger] mv[k] == (ms@[k].0@, ms@[k].1@),
                fold_members(mv.take(i as int), init, function_stepper()) == Some(
                    FunctionFields {
                        inputs: opt_parameters(inputs),
                        outputs: opt_parameters(outputs),
                        base_command: opt_texts(base_command),
                        runtime_capabilities: opt_texts(runtime_capabilities),
                    },
                ),
        {
            proof {
                lemma_fold_next(mv, init, function_stepper(), i as int);
            }
            let key = &ms[i].0;
            let v = &ms[i].1;
            if key_is(key, "inputs") {
                if inputs.is_some() {
                    proof {
                        lemma_fold_stuck(mv, init, function_stepper(), i as int);
                        lemma_first_failure(mv, init, function_stepper(), i as int);
                        lemma_function_keys();
                    }
                    return Err(duplicate_field("inputs"));
                }
                match parameters_from_json(v) {
                    Ok(ps) => {
                        inputs = Some(ps);
                    },
                    Err(e) => {
                        proof {
                            lemma_fold_stuck(mv, init, function_stepper(), i as int);
                        lemma_first_failure(mv, init, function_stepper(), i as int);
                        lemma_function_keys();
                        }
                        return Err(e);
                    },
                }
            } else if key_is(key, "outputs") {
                if outputs.is_some() {
                    proof {
                        lemma_fold_stuck(mv, init, function_stepper(), i as int);
                        lemma_first_failure(mv, init, function_stepper(), i as int);
                        lemma_function_keys();
                    }
                    return Err(duplicate_field("outputs"));
                }
                match parameters_from_json(v) {
                    Ok(ps) => {
                        outputs = Some(ps);
                    },
                    Err(e) => {
                        proof {
                            lemma_fold_stuck(mv, init, function_stepper(), i as int);
                        lemma_first_failure(mv, init, function_stepper(), i as int);
                        lemma_function_keys();
                        }
                        return Err(e);
                    },
                }
            } else if key_is(key, "baseCommand") {
                if base_command.is_some() {
                    proof {
                        lemma_fold_stuck(mv, init, function_stepper(), i as int);
                        lemma_first_failure(mv, init, function_stepper(), i as int);
                        lemma_function_keys();
                    }
                    return Err(duplicate_field("baseCommand"));
                }
                match read_texts(v) {
                    Some(t) => {
                        base_command = Some(t);
                    },
                    None => {
                        proof {
                            lemma_fold_stuck(mv, init, function_stepper(), i as int);
                        lemma_first_failure(mv, init, function_stepper(), i as int);
                        lemma_function_keys();
                        }
                        return Err(invalid_type("a sequence of strings"));
                    },
                }
            } else if key_is(key, "runtimeCapabilities") {
                if runtime_capabilities.is_some() {
                    proof {
                        lemma_fold_stuck(mv, init, function_stepper(), i as int);
                        lemma_first_failure(mv, init, function_stepper(), i as int);
                        lemma_function_keys();
                    }
                    return Err(duplicate_field("runtimeCapabilities"));
                }
                match read_texts(v) {
                    Some(t) => {
                        runtime_capabilities = Some(t);
                    },
                    None => {
                        proof {
                            lemma_fold_stuck(mv, init, function_stepper(), i as int);
                        lemma_first_failure(mv, init, function_stepper(), i as int);
                        lemma_function_keys();
                        }
                        return Err(invalid_type("a sequence of strings"));
                    },
                }
            } else {
                proof {
                    lemma_fold_stuck(mv, init, function_stepper(), i as int);
                        lemma_first_failure(mv, init, function_stepper(), i as int);
                        lemma_function_keys();
                }
                return Err(unknown_field(key));
            }
        }
        assert(mv.take(n as int) =~= mv);
        proof {
            assert(string_views(Seq::<String>::empty()) =~= Seq::<Seq<char>>::empty());
            assert(parameter_views(Seq::<Parameter>::empty()) =~= Seq::<ParameterV>::empty());
        }
        Ok(Function {
            inputs: match inputs {
                Some(x) => x,
                None => Vec::new(),
            },
            outputs: match outputs {
                Some(x) => x,
                None => Vec::new(),
            },
            base_command: match base_command {
                Some(x) => x,
                None => Vec::new(),
            },
            runtime_capabilities: match runtime_capabilities {
                Some(x) => x,
                None => Vec::new(),
            },
        })
    }
}

/// The view of optional object members.
pub open spec fn opt_members(o: Option<Vec<(String, Json)>>) -> Option<Seq<(Seq<char>, JsonV)>> {
    match o {
        Some(ms) => Some(member_views(ms@)),
        None => None,
    }
}

/// The view of an optional resource kind.
pub open spec fn opt_resource_kind(o: Option<ResourceKind>) -> Option<ResourceKindV> {
    match o {
        Some(k) => Some(k@),
        None => None,
    }
}

impl Resource {
    /// The resource a document describes (see [`resource_of`]); an error
    /// where it is not one.
    pub fn from_json(j: &Json) -> (r: Result<Resource, String>)
        ensures
            match r {
                Ok(x) => resource_of(j@) == Some(x@),
                Err(e) => resource_of(j@) is None && resource_error(j@, e@),
            },
    {
        let ms = match j {
            Json::Object(ms) => ms,
            _ => return Err(invalid_type("struct bda.Resource")),
        };
        proof {
            lemma_member_views(ms@);
        }
        let ghost mv = member_views(ms@);
        let ghost init = ResourceFields {
            version: None,
            namespace: None,
            name: None,
            description: None,
            tags: None,
            attributes: None,
            resource_kind: None,
        };
        let mut version: Option<String> = None;
        let mut namespace: Option<String> = None;
        let mut name: Option<String> = None;
        let mut description: Option<String> = None;
        let mut tags: Option<Vec<String>> = None;
        let mut attributes: Option<Vec<(String, Json)>> = None;
        let mut resource_kind: Option<ResourceKind> = None;
        let n = ms.len();
        assert(mv.take(0) =~= Seq::<(Seq<char>, JsonV)>::empty());
        for i in 0..n
            invariant
                n == ms@.len(),
                mv == member_views(ms@),
                j@ == JsonV::Object(mv),
                init == (ResourceFields {
                    version: None,
                    namespace: None,
                    name: None,
                    description: None,
                    tags: None,
                    attributes: None,
                    resource_kind: None,
                }),
                mv.len() == n,
                forall|k: int| 0 <= k < n ==> #[trigger] mv[k] == (ms@[k].0@, ms@[k].1@),
                fold_members(mv.take(i as int), init, resource_stepper()) == Some(
                    ResourceFields {
                        version: opt_text(version),
                        namespace: opt_text(namespace),
                        name: opt_text(name),
                        description: opt_text(description),
                        tags: opt_texts(tags),
                        attributes: opt_members(attributes),
                        resource_kind: opt_resource_kind(resource_kind),
                    },
                ),
        {
            proof {
                lemma_fold_next(mv, init, resource_stepper(), i as int);
            }
            let key = &ms[i].0;
            let v = &ms[i].1;
            assert(init == resource_init());
            if key_is(key, "version") || key_is(key, "revision") || key_is(key, "namespace") || key_is(key, "name") || key_is(
                key,
                "description",
            ) {
                let is_version = key_is(key, "version") || key_is(key, "revision");
                let is_namespace = key_is(key, "namespace");
                let is_name = key_is(key, "name");
                let taken = if is_version {
                    version.is_some()
                } else if is_namespace {
                    namespace.is_some()
                } else if is_name {
                    name.is_some()
                } else {
                    description.is_some()
                };
                if taken {
                    proof {
                        lemma_fold_stuck(mv, init, resource_stepper(), i as int);
                        lemma_first_failure(mv, init, resource_stepper(), i as int);
                        lemma_resource_keys();
                    }
                    return Err(duplicate_key(key));
                }
                match read_text(v) {
                    Some(t) => {
                        if is_version {
                            version = Some(t);
                        } else if is_namespace {
                            namespace = Some(t);
                        } else if is_name {
                            name = Some(t);
                        } else {
                            description = Some(t);
                        }
                    },
                    None => {
                        proof {
                            lemma_fold_stuck(mv, init, resource_stepper(), i as int);
                        lemma_first_failure(mv, init, resource_stepper(), i as int);
                        lemma_resource_keys();
                        }
                        return Err(invalid_type("a string"));
                    },
                }
            } else if key_is(key, "tags") {
                if tags.is_some() {
                    proof {
                        lemma_fold_stuck(mv, init, resource_stepper(), i as int);
                        lemma_first_failure(mv, init, resource_stepper(), i as int);
                        lemma_resource_keys();
                    }
                    return Err(duplicate_field("tags"));
                }
                match read_texts(v) {
                    Some(t) => {
                        tags = Some(t);
                    },
                    None => {
                        proof {
                            lemma_fold_stuck(mv, init, resource_stepper(), i as int);
                        lemma_first_failure(mv, init, resource_stepper(), i as int);
                        lemma_resource_keys();
                        }
                        return Err(invalid_type("a sequence of strings"));
                    },
                }
            } else if key_is(key, "attributes") {
                if attributes.is_some() {
                    proof {
                        lemma_fold_stuck(mv, init, resource_stepper(), i as int);
                        lemma_first_failure(mv, init, resource_stepper(), i as int);
                        lemma_resource_keys();
                    }
                    return Err(duplicate_field("attributes"));
                }
                match v {
                    Json::Object(members) => {
                        attributes = Some(crate::resource::copy_members(members));
                    },
                    _ => {
                        proof {
                            lemma_fold_stuck(mv, init, resource_stepper(), i as int);
                        lemma_first_failure(mv, init, resource_stepper(), i as int);
                        lemma_resource_keys();
                        }
                        return Err(invalid_type("a map"));
                    },
                }
            } else if key_is(key, "function") || key_is(key, "runtime") {
                if resource_kind.is_some() {
                    proof {
                        lemma_fold_stuck(mv, init, resource_stepper(), i as int);
                        lemma_first_failure(mv, init, resource_stepper(), i as int);
                        lemma_resource_keys();
                    }
                    return Err(duplicate_key(key));
                }
                if key_is(key, "function") {
                    match Function::from_json(v) {
                        Ok(f) => {
                            resource_kind = Some(ResourceKind::Function(f));
                        },
                        Err(e) => {
                            proof {
                                lemma_fold_stuck(mv, init, resource_stepper(), i as int);
                        lemma_first_failure(mv, init, resource_stepper(), i as int);
                        lemma_resource_keys();
                            }
                            return Err(e);
                        },
                    }
                } else {
                    match Runtime::from_json(v) {
                        Ok(rt) => {
                            resource_kind = Some(ResourceKind::Runtime(rt));
                        },
                        Err(e) => {
                            proof {
                                lemma_fold_stuck(mv, init, resource_stepper(), i as int);
                        lemma_first_failure(mv, init, resource_stepper(), i as int);
                        lemma_resource_keys();
                            }
                            return Err(e);
                        },
                    }
                }
            } else {
                proof {
                    lemma_fold_stuck(mv, init, resource_stepper(), i as int);
                        lemma_first_failure(mv, init, resource_stepper(), i as int);
                        lemma_resource_keys();
                }
                return Err(unknown_field(key));
            }
        }
        assert(mv.take(n as int) =~= mv);
        proof {
            assert(string_views(Seq::<String>::empty()) =~= Seq::<Seq<char>>::empty());
        }
        Ok(Resource {
            revision: match version {
                Some(x) => x,
                None => String::new(),
            },
            namespace: match namespace {
                Some(x) => x,
                None => String::new(),
            },
            name: match name {
                Some(x) => x,
                None => String::new(),
            },
            description: match description {
                Some(x) => x,
                None => String::new(),
            },
            tags: match tags {
                Some(x) => x,
                None => Vec::new(),
            },
            attributes,
            resource_kind,
        })
    }
}

// ---------------------------------------------------------------------
// Reading back the JSON form.

proof fn lemma_fold_append_opt<S>(
    ms: Seq<(Seq<char>, JsonV)>,
    present: bool,
    k: Seq<char>,
    v: JsonV,
    init: S,
    step: spec_fn(S, Seq<char>, JsonV) -> Option<S>,
)
    ensures
        fold_members(ms + opt_member(present, k, v), init, step) == if present {
            match fold_members(ms, init, step) {
                Some(st) => step(st, k, v),
                None => None,
            }
        } else {
            fold_members(ms, init, step)
        },
{
    if present {
        assert((ms + opt_member(present, k, v)).drop_last() =~= ms);
    } else {
        assert(ms + opt_member(present, k, v) =~= ms);
    }
}

proof fn lemma_texts_round_trip(s: Seq<Seq<char>>)
    ensures
        json_texts(strings_json(s)) == Some(s),
{
    let items = s.map_values(|x: Seq<char>| JsonV::String(x));
    assert forall|i: int| 0 <= i < items.len() implies (#[trigger] items[i]) is String by {
    }
    assert(items.map_values(|x: JsonV| json_text(x)->0) =~= s);
}

proof fn lemma_empty_text(s: Seq<char>)
    requires
        !(s.len() > 0),
    ensures
        s == Seq::<char>::empty(),
{
    assert(s =~= Seq::<char>::empty());
}

proof fn lemma_empty_texts(s: Seq<Seq<char>>)
    requires
        !(s.len() > 0),
    ensures
        s == Seq::<Seq<char>>::empty(),
{
    assert(s =~= Seq::<Seq<char>>::empty());
}

/// The member names read here differ from one another.
proof fn lemma_runtime_keys()
    ensures
        "capabilities"@ != "container"@,
{
    reveal_strlit("capabilities");
    reveal_strlit("container");
    assert("capabilities"@.len() == 12);
    assert("container"@.len() == 9);
}

/// The member names read here differ from one another.
proof fn lemma_parameter_keys()
    ensures
        "name"@ != "description"@,
        "name"@ != "parameterKind"@,
        "name"@ != "defaultValue"@,
        "description"@ != "parameterKind"@,
        "description"@ != "defaultValue"@,
        "parameterKind"@ != "defaultValue"@,
{
    reveal_strlit("name");
    reveal_strlit("description");
    reveal_strlit("parameterKind");
    reveal_strlit("defaultValue");
    assert("name"@.len() == 4);
    assert("description"@.len() == 11);
    assert("parameterKind"@.len() == 13);
    assert("defaultValue"@.len() == 12);
}

/// The member names read here differ from one another.
proof fn lemma_function_keys()
    ensures
        "inputs"@ != "outputs"@,
        "inputs"@ != "baseCommand"@,
        "inputs"@ != "runtimeCapabilities"@,
        "outputs"@ != "baseCommand"@,
        "outputs"@ != "runtimeCapabilities"@,
        "baseCommand"@ != "runtimeCapabilities"@,
{
    reveal_strlit("inputs");
    reveal_strlit("outputs");
    reveal_strlit("baseCommand");
    reveal_strlit("runtimeCapabilities");
    assert("inputs"@.len() == 6);
    assert("outputs"@.len() == 7);
    assert("baseCommand"@.len() == 11);
    assert("runtimeCapabilities"@.len() == 19);
}

/// The member names read here differ from one another.
proof fn lemma_resource_keys()
    ensures
        "version"@ != "namespace"@,
        "version"@ != "name"@,
        "version"@ != "description"@,
        "version"@ != "tags"@,
        "version"@ != "attributes"@,
        "version"@ != "function"@,
        "version"@ != "runtime"@,
        "namespace"@ != "name"@,
        "namespace"@ != "description"@,
        "namespace"@ != "tags"@,
        "namespace"@ != "attributes"@,
        "namespace"@ != "function"@,
        "namespace"@ != "runtime"@,
        "name"@ != "description"@,
        "name"@ != "tags"@,
        "name"@ != "attributes"@,
        "name"@ != "function"@,
        "name"@ != "runtime"@,
        "description"@ != "tags"@,
        "description"@ != "attributes"@,
        "description"@ != "function"@,
        "description"@ != "runtime"@,
        "tags"@ != "attributes"@,
        "tags"@ != "function"@,
        "tags"@ != "runtime"@,
        "attributes"@ != "function"@,
        "attributes"@ != "runtime"@,
        "function"@ != "runtime"@,
        "revision"@ != "namespace"@,
        "revision"@ != "name"@,
        "revision"@ != "description"@,
        "revision"@ != "tags"@,
        "revision"@ != "attributes"@,
        "revision"@ != "function"@,
        "revision"@ != "runtime"@,
{
    reveal_strlit("revision");
    reveal_strlit("version");
    reveal_strlit("namespace");
    reveal_strlit("name");
    reveal_strlit("description");
    reveal_strlit("tags");
    reveal_strlit("attributes");
    reveal_strlit("function");
    reveal_strlit("runtime");
    assert("version"@.len() == 7);
    assert("namespace"@.len() == 9);
    assert("name"@.len() == 4);
    assert("description"@.len() == 11);
    assert("tags"@.len() == 4);
    assert("attributes"@.len() == 10);
    assert("function"@.len() == 8);
    assert("runtime"@.len() == 7);
    assert("version"@[0] == 'v' && "runtime"@[0] == 'r');
    assert("name"@[0] == 'n' && "tags"@[0] == 't');
    assert("revision"@.len() == 8);
    assert("revision"@[0] == 'r' && "function"@[0] == 'f');
}

/// The member names read here differ from one another.
proof fn lemma_kind_names()
    ensures
        "GENERIC"@ != "NUMBER"@,
        "GENERIC"@ != "BOOLEAN"@,
        "GENERIC"@ != "TEXT"@,
        "GENERIC"@ != "JSON"@,
        "GENERIC"@ != "URL"@,
        "GENERIC"@ != "PATH"@,
        "NUMBER"@ != "BOOLEAN"@,
        "NUMBER"@ != "TEXT"@,
        "NUMBER"@ != "JSON"@,
        "NUMBER"@ != "URL"@,
        "NUMBER"@ != "PATH"@,
        "BOOLEAN"@ != "TEXT"@,
        "BOOLEAN"@ != "JSON"@,
        "BOOLEAN"@ != "URL"@,
        "BOOLEAN"@ != "PATH"@,
        "TEXT"@ != "JSON"@,
        "TEXT"@ != "URL"@,
        "TEXT"@ != "PATH"@,
        "JSON"@ != "URL"@,
        "JSON"@ != "PATH"@,
        "URL"@ != "PATH"@,
{
    reveal_strlit("GENERIC");
    reveal_strlit("NUMBER");
    reveal_strlit("BOOLEAN");
    reveal_strlit("TEXT");
    reveal_strlit("JSON");
    reveal_strlit("URL");
    reveal_strlit("PATH");
    assert("GENERIC"@.len() == 7);
    assert("NUMBER"@.len() == 6);
    assert("BOOLEAN"@.len() == 7);
    assert("TEXT"@.len() == 4);
    assert("JSON"@.len() == 4);
    assert("URL"@.len() == 3);
    assert("PATH"@.len() == 4);
    assert("GENERIC"@[0] == 'G' && "BOOLEAN"@[0] == 'B');
    assert("TEXT"@[0] == 'T' && "JSON"@[0] == 'J');
    assert("TEXT"@[0] == 'T' && "PATH"@[0] == 'P');
    assert("JSON"@[0] == 'J' && "PATH"@[0] == 'P');
}

/// Reading the JSON form of a container gives it back.
pub proof fn lemma_container_round_trip(c: ContainerV)
    ensures
        container_of(container_json(c)) == Some(c),
{
    reveal_strlit("dockerfile");
    let e = Seq::<(Seq<char>, JsonV)>::empty();
    let init = ContainerFields { dockerfile: None };
    lemma_fold_append_opt(e, c.dockerfile.len() > 0, "dockerfile"@, JsonV::String(c.dockerfile), init, container_stepper());
    assert(e + opt_member(c.dockerfile.len() > 0, "dockerfile"@, JsonV::String(c.dockerfile)) =~= opt_member(
        c.dockerfile.len() > 0,
        "dockerfile"@,
        JsonV::String(c.dockerfile),
    ));
    if !(c.dockerfile.len() > 0) {
        lemma_empty_text(c.dockerfile);
    }
}

/// Reading the JSON form of a runtime gives it back.
pub proof fn lemma_runtime_round_trip(r: RuntimeV)
    ensures
        runtime_of(runtime_json(r)) == Some(r),
{
    lemma_runtime_keys();
    reveal_strlit("capabilities");
    reveal_strlit("container");
    let e = Seq::<(Seq<char>, JsonV)>::empty();
    let init = RuntimeFields { capabilities: None, runtime_kind: None };
    let m1 = opt_member(r.capabilities.len() > 0, "capabilities"@, strings_json(r.capabilities));
    lemma_fold_append_opt(e, r.capabilities.len() > 0, "capabilities"@, strings_json(r.capabilities), init, runtime_stepper());
    assert(e + m1 =~= m1);
    lemma_texts_round_trip(r.capabilities);
    if !(r.capabilities.len() > 0) {
        lemma_empty_texts(r.capabilities);
    }
    assert(fold_members(e, init, runtime_stepper()) == Some(init));
    assert(fold_members(m1, init, runtime_stepper()) == Some(RuntimeFields { capabilities: if r.capabilities.len() > 0 { Some(r.capabilities) } else { None }, runtime_kind: None }));
    match r.runtime_kind {
        Some(RuntimeKindV::Container(c)) => {
            lemma_container_round_trip(c);
            lemma_fold_append_opt(m1, true, "container"@, container_json(c), init, runtime_stepper());
            let all = m1 + seq![("container"@, container_json(c))];
            assert(m1 + opt_member(true, "container"@, container_json(c)) =~= all);
            assert(runtime_json(r) == JsonV::Object(all));
            assert(runtime_step(
                RuntimeFields { capabilities: if r.capabilities.len() > 0 { Some(r.capabilities) } else { None }, runtime_kind: None },
                "container"@,
                container_json(c),
            ) == Some(RuntimeFields { capabilities: if r.capabilities.len() > 0 { Some(r.capabilities) } else { None }, runtime_kind: Some(RuntimeKindV::Container(c)) }));
            assert(runtime_fields(all) == Some(RuntimeFields { capabilities: if r.capabilities.len() > 0 { Some(r.capabilities) } else { None }, runtime_kind: Some(RuntimeKindV::Container(c)) }));
        },
        None => {
            assert(m1 + Seq::<(Seq<char>, JsonV)>::empty() =~= m1);
            assert(runtime_json(r) == JsonV::Object(m1));
        },
    }
}

/// The kind named by a kind number's name is that number.
proof fn lemma_kind_name_round_trip(k: int)
    requires
        parameter_kind_name(k) is Some,
    ensures
        parameter_kind_of(JsonV::String(parameter_kind_name(k)->0)) == Some(k),
{
    lemma_kind_names();
    reveal_strlit("GENERIC");
    reveal_strlit("NUMBER");
    reveal_strlit("BOOLEAN");
    reveal_strlit("TEXT");
    reveal_strlit("JSON");
    reveal_strlit("URL");
    reveal_strlit("PATH");
}

/// Reading the JSON form of a parameter gives it back.
pub proof fn lemma_parameter_round_trip(p: ParameterV)
    requires
        parameter_json(p) is Some,
    ensures
        parameter_of(parameter_json(p)->0) == Some(p),
{
    lemma_parameter_keys();
    reveal_strlit("name");
    reveal_strlit("description");
    reveal_strlit("parameterKind");
    reveal_strlit("defaultValue");
    let e = Seq::<(Seq<char>, JsonV)>::empty();
    let init = ParameterFields { name: None, description: None, parameter_kind: None, default_value: None };
    let st = parameter_stepper();
    let m1 = opt_member(p.name.len() > 0, "name"@, JsonV::String(p.name));
    let m2 = opt_member(p.description.len() > 0, "description"@, JsonV::String(p.description));
    let kn = parameter_kind_name(p.parameter_kind);
    let m3 = opt_member(p.parameter_kind != 0, "parameterKind"@, JsonV::String(kn->0));
    lemma_fold_append_opt(e, p.name.len() > 0, "name"@, JsonV::String(p.name), init, st);
    assert(e + m1 =~= m1);
    lemma_fold_append_opt(m1, p.description.len() > 0, "description"@, JsonV::String(p.description), init, st);
    lemma_fold_append_opt(m1 + m2, p.parameter_kind != 0, "parameterKind"@, JsonV::String(kn->0), init, st);
    if p.parameter_kind != 0 {
        lemma_kind_name_round_trip(p.parameter_kind);
    }
    if !(p.name.len() > 0) {
        lemma_empty_text(p.name);
    }
    if !(p.description.len() > 0) {
        lemma_empty_text(p.description);
    }
    match p.default_value {
        Some(v) => {
            lemma_fold_append_opt(m1 + m2 + m3, true, "defaultValue"@, v, init, st);
            assert(m1 + m2 + m3 + opt_member(true, "defaultValue"@, v) =~= m1 + m2 + m3 + seq![("defaultValue"@, v)]);
        },
        None => {
            assert(m1 + m2 + m3 + Seq::<(Seq<char>, JsonV)>::empty() =~= m1 + m2 + m3);
        },
    }
}

/// Reading the JSON forms of parameters gives them back.
pub proof fn lemma_parameters_round_trip(ps: Seq<ParameterV>)
    requires
        parameters_json(ps) is Some,
    ensures
        parameters_in(parameters_json(ps)->0) == Some(ps),
    decreases ps.len(),
{
    if ps.len() > 0 {
        lemma_parameters_round_trip(ps.drop_last());
        lemma_parameter_round_trip(ps.last());
        let js = parameters_json(ps.drop_last())->0;
        let j = parameter_json(ps.last())->0;
        assert(js.push(j).drop_last() =~= js);
        assert(ps.drop_last().push(ps.last()) =~= ps);
    }
}

/// Reading the JSON form of a function gives it back.
pub proof fn lemma_function_round_trip(f: FunctionV)
    requires
        function_json(f) is Some,
    ensures
        function_of(function_json(f)->0) == Some(f),
{
    lemma_function_keys();
    reveal_strlit("inputs");
    reveal_strlit("outputs");
    reveal_strlit("baseCommand");
    reveal_strlit("runtimeCapabilities");
    let ins = parameters_json(f.inputs)->0;
    let outs = parameters_json(f.outputs)->0;
    lemma_parameters_round_trip(f.inputs);
    lemma_parameters_round_trip(f.outputs);
    lemma_texts_round_trip(f.base_command);
    lemma_texts_round_trip(f.runtime_capabilities);
    let e = Seq::<(Seq<char>, JsonV)>::empty();
    let init = FunctionFields { inputs: None, outputs: None, base_command: None, runtime_capabilities: None };
    let st = function_stepper();
    let m1 = opt_member(f.inputs.len() > 0, "inputs"@, JsonV::Array(ins));
    let m2 = opt_member(f.outputs.len() > 0, "outputs"@, JsonV::Array(outs));
    let m3 = opt_member(f.base_command.len() > 0, "baseCommand"@, strings_json(f.base_command));
    lemma_fold_append_opt(e, f.inputs.len() > 0, "inputs"@, JsonV::Array(ins), init, st);
    assert(e + m1 =~= m1);
    lemma_fold_append_opt(m1, f.outputs.len() > 0, "outputs"@, JsonV::Array(outs), init, st);
    lemma_fold_append_opt(m1 + m2, f.base_command.len() > 0, "baseCommand"@, strings_json(f.base_command), init, st);
    lemma_fold_append_opt(
        m1 + m2 + m3,
        f.runtime_capabilities.len() > 0,
        "runtimeCapabilities"@,
        strings_json(f.runtime_capabilities),
        init,
        st,
    );
    if !(f.inputs.len() > 0) {
        assert(f.inputs =~= Seq::<ParameterV>::empty());
    }
    if !(f.outputs.len() > 0) {
        assert(f.outputs =~= Seq::<ParameterV>::empty());
    }
    if !(f.base_command.len() > 0) {
        lemma_empty_texts(f.base_command);
    }
    if !(f.runtime_capabilities.len() > 0) {
        lemma_empty_texts(f.runtime_capabilities);
    }
}

/// Reading the JSON form of a resource gives it back: the two are inverse
/// wherever the JSON form exists.
pub proof fn lemma_resource_round_trip(r: ResourceV)
    requires
        resource_json(r) is Some,
    ensures
        resource_of(resource_json(r)->0) == Some(r),
{
    lemma_resource_keys();
    reveal_strlit("version");
    reveal_strlit("namespace");
    reveal_strlit("name");
    reveal_strlit("description");
    reveal_strlit("tags");
    reveal_strlit("attributes");
    reveal_strlit("function");
    reveal_strlit("runtime");
    lemma_texts_round_trip(r.tags);
    let e = Seq::<(Seq<char>, JsonV)>::empty();
    let init = ResourceFields {
        version: None,
        namespace: None,
        name: None,
        description: None,
        tags: None,
        attributes: None,
        resource_kind: None,
    };
    let st = resource_stepper();
    let m1 = opt_member(r.revision.len() > 0, "version"@, JsonV::String(r.revision));
    let m2 = opt_member(r.namespace.len() > 0, "namespace"@, JsonV::String(r.namespace));
    let m3 = opt_member(r.name.len() > 0, "name"@, JsonV::String(r.name));
    let m4 = opt_member(r.description.len() > 0, "description"@, JsonV::String(r.description));
    let m5 = opt_member(r.tags.len() > 0, "tags"@, strings_json(r.tags));
    lemma_fold_append_opt(e, r.revision.len() > 0, "version"@, JsonV::String(r.revision), init, st);
    assert(e + m1 =~= m1);
    lemma_fold_append_opt(m1, r.namespace.len() > 0, "namespace"@, JsonV::String(r.namespace), init, st);
    lemma_fold_append_opt(m1 + m2, r.name.len() > 0, "name"@, JsonV::String(r.name), init, st);
    lemma_fold_append_opt(m1 + m2 + m3, r.description.len() > 0, "description"@, JsonV::String(r.description), init, st);
    lemma_fold_append_opt(m1 + m2 + m3 + m4, r.tags.len() > 0, "tags"@, strings_json(r.tags), init, st);
    let b = m1 + m2 + m3 + m4 + m5;
    let m6 = match r.attributes {
        Some(ms) => seq![("attributes"@, JsonV::Object(ms))],
        None => Seq::<(Seq<char>, JsonV)>::empty(),
    };
    match r.attributes {
        Some(ms) => {
            lemma_fold_append_opt(b, true, "attributes"@, JsonV::Object(ms), init, st);
            assert(b + opt_member(true, "attributes"@, JsonV::Object(ms)) =~= b + m6);
        },
        None => {
            assert(b + m6 =~= b);
        },
    }
    let km = kind_members(r.resource_kind)->0;
    match r.resource_kind {
        Some(ResourceKindV::Function(f)) => {
            lemma_function_round_trip(f);
            lemma_fold_append_opt(b + m6, true, "function"@, function_json(f)->0, init, st);
            assert(b + m6 + opt_member(true, "function"@, function_json(f)->0) =~= b + m6 + km);
        },
        Some(ResourceKindV::Runtime(rt)) => {
            lemma_runtime_round_trip(rt);
            lemma_fold_append_opt(b + m6, true, "runtime"@, runtime_json(rt), init, st);
            assert(b + m6 + opt_member(true, "runtime"@, runtime_json(rt)) =~= b + m6 + km);
        },
        None => {
            assert(b + m6 + km =~= b + m6);
        },
    }
    if !(r.revision.len() > 0) {
        lemma_empty_text(r.revision);
    }
    if !(r.namespace.len() > 0) {
        lemma_empty_text(r.namespace);
    }
    if !(r.name.len() > 0) {
        lemma_empty_text(r.name);
    }
    if !(r.description.len() > 0) {
        lemma_empty_text(r.description);
    }
    if !(r.tags.len() > 0) {
        lemma_empty_texts(r.tags);
    }
}

} // verus!
