use bda::logic::{
    self, default_string_if_empty, defaults, new_resource_function, new_resource_runtime_container, resource_id,
    resource_id_builder, resource_kind_to_string, resource_kinds_iter, DEFAULT_DOCKERFILE, DEFAULT_NAMESPACE,
    DEFAULT_REVISION,
};
use bda::resource::{Resource, ResourceKind, RuntimeKind};

#[test]
fn lib_test_default_string_if_empty() {
    let mut s = String::new();
    default_string_if_empty(&mut s, "default");
    assert_eq!(s, "default")
}

#[test]
fn lib_test_defaults() {
    let expected = Resource {
        name: String::from(""),
        description: String::from(""),
        namespace: String::from("default"),
        revision: String::from("latest"),
        tags: Vec::new(),
        attributes: None,
        resource_kind: None,
    };
    let mut r = expected.duplicate();
    r.namespace = "".to_owned();
    r.revision = "".to_owned();
    assert_ne!(r, expected);
    defaults(&mut r);
    assert_eq!(r, expected);
}

#[test]
fn logic_test_default_string_if_empty() {
    let mut s = String::new();
    logic::default_string_if_empty(&mut s, "default");
    assert_eq!(s, "default")
}

#[test]
fn logic_test_defaults() {
    let a = new_resource_function("function");
    assert_eq!(a.namespace, DEFAULT_NAMESPACE);
    assert_eq!(a.revision, DEFAULT_REVISION);
    let a = new_resource_runtime_container("container");
    if let Some(ResourceKind::Runtime(r)) = a.resource_kind {
        if let Some(RuntimeKind::Container(c)) = r.runtime_kind {
            assert_eq!(c.dockerfile, DEFAULT_DOCKERFILE);
        }
    }
}

#[test]
fn default_keeps_nonempty() {
    let mut s = String::from("kept");
    default_string_if_empty(&mut s, "default");
    assert_eq!(s, "kept");
}

#[test]
fn defaults_twice_same_as_once() {
    let mut r = new_resource_function("f");
    r.namespace = String::new();
    defaults(&mut r);
    let once = r.duplicate();
    defaults(&mut r);
    assert_eq!(r, once);
}

#[test]
fn resource_kinds_listed() {
    assert_eq!(resource_kinds_iter(), vec!["function".to_owned(), "runtime.container".to_owned()]);
}

#[test]
fn kind_names() {
    assert_eq!(resource_kind_to_string(&new_resource_function("f")), Some("function".to_owned()));
    assert_eq!(
        resource_kind_to_string(&new_resource_runtime_container("c")),
        Some("runtime.container".to_owned())
    );
    let mut r = new_resource_function("f");
    r.resource_kind = None;
    assert_eq!(resource_kind_to_string(&r), None);
    assert!(resource_id(&r).is_err());
}

#[test]
fn id_of_function() {
    let r = new_resource_function("fn1");
    assert_eq!(resource_id(&r), resource_id_builder("latest", "default", "function", "fn1"));
}
