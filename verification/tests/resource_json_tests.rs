use bda::json::Json;
use bda::logic::{new_resource_function, new_resource_runtime_container};
use bda::number::Rational;
use bda::parser::parse;
use bda::resource::{Container, Function, Parameter, Resource, ResourceKind, Runtime, RuntimeKind};

fn json_of(v: &serde_json::Value) -> Json {
    match v {
        serde_json::Value::Null => Json::Null,
        serde_json::Value::Bool(b) => Json::Bool(*b),
        serde_json::Value::Number(n) => Json::Number(Rational::parse(&n.to_string()).unwrap(), n.is_i64() || n.is_u64()),
        serde_json::Value::String(s) => Json::String(s.clone()),
        serde_json::Value::Array(a) => Json::Array(a.iter().map(json_of).collect()),
        serde_json::Value::Object(m) => Json::Object(m.iter().map(|(k, v)| (k.clone(), json_of(v))).collect()),
    }
}

fn doc(text: &str) -> Json {
    json_of(&serde_json::from_str(text).unwrap())
}

#[test]
fn resource_reads_back_from_its_json() {
    let mut r = new_resource_function("f");
    r.tags = vec!["a".to_owned(), "b".to_owned()];
    r.attributes = Some(vec![("k".to_owned(), Json::String("v".to_owned()))]);
    if let Some(ResourceKind::Function(ref mut f)) = r.resource_kind {
        f.inputs.push(Parameter {
            name: "p".to_owned(),
            description: "d".to_owned(),
            parameter_kind: 1,
            default_value: Some(Json::Number(Rational::from_i64(6), true)),
        });
    }
    let j = r.to_json().unwrap();
    assert_eq!(Resource::from_json(&j).unwrap(), r);
    let c = new_resource_runtime_container("c");
    assert_eq!(Resource::from_json(&c.to_json().unwrap()).unwrap(), c);
}

#[test]
fn resource_from_text_with_kind_names() {
    let r = Resource::from_json(&doc(
        r#"{"name":"n","function":{"inputs":[{"name":"p","parameterKind":"PATH"}]}}"#,
    ))
    .unwrap();
    assert_eq!(r.name, "n");
    match r.resource_kind {
        Some(ResourceKind::Function(Function { inputs, .. })) => assert_eq!(inputs[0].parameter_kind, 6),
        _ => panic!("a function"),
    }
}

#[test]
fn parameter_kind_by_number_written_as_integer() {
    let p = Parameter::from_json(&doc(r#"{"name":"p","parameterKind":2}"#)).unwrap();
    assert_eq!(p.parameter_kind, 2);
    assert!(Parameter::from_json(&doc(r#"{"name":"p","parameterKind":2.0}"#)).is_err());
    assert!(Parameter::from_json(&doc(r#"{"name":"p","parameterKind":7}"#)).is_err());
}

#[test]
fn resource_errors() {
    assert_eq!(Resource::from_json(&doc(r#"{"nam":"n"}"#)), Err("unknown field `nam`".to_owned()));
    assert!(Resource::from_json(&doc(r#"{"tags":"a"}"#)).is_err());
    assert!(Resource::from_json(&doc(r#""text""#)).is_err());
}

#[test]
fn parameter_kind_without_name_cannot_be_written() {
    let mut r = new_resource_function("f");
    if let Some(ResourceKind::Function(ref mut f)) = r.resource_kind {
        f.inputs.push(Parameter {
            name: "p".to_owned(),
            description: String::new(),
            parameter_kind: 9,
            default_value: None,
        });
    }
    assert_eq!(r.to_json(), Err("Invalid variant 9".to_owned()));
}

#[test]
fn parse_error_names_what_was_expected() {
    let e = parse("field ==").unwrap_err();
    assert!(e.starts_with("expected "), "{}", e);
    assert!(e.ends_with(" but got Eof"), "{}", e);
    let e = parse("field == 'a' ]").unwrap_err();
    assert_eq!(e, "expected OR|AND|EOF|LTParentheses|RTParenthese but got RtBracket");
}

fn json_of_yaml(v: &serde_yaml::Value) -> Json {
    match v {
        serde_yaml::Value::Null => Json::Null,
        serde_yaml::Value::Bool(b) => Json::Bool(*b),
        serde_yaml::Value::Number(n) => Json::Number(Rational::parse(&n.to_string()).unwrap(), n.is_i64() || n.is_u64()),
        serde_yaml::Value::String(s) => Json::String(s.clone()),
        serde_yaml::Value::Sequence(a) => Json::Array(a.iter().map(json_of_yaml).collect()),
        serde_yaml::Value::Mapping(m) => Json::Object(
            m.iter()
                .map(|(k, v)| (k.as_str().unwrap().to_owned(), json_of_yaml(v)))
                .collect(),
        ),
        serde_yaml::Value::Tagged(t) => json_of_yaml(&t.value),
    }
}

#[test]
fn test_serde() {
    let r = Resource {
        name: String::from("John Doe"),
        description: String::from("This is a description"),
        namespace: String::from("default"),
        revision: String::from("latest"),
        tags: vec![String::from("tag1"), String::from("tag2")],
        attributes: None,
        resource_kind: Some(ResourceKind::Runtime(Runtime {
            capabilities: vec!["git".to_owned(), "linux".to_owned()],
            runtime_kind: Some(RuntimeKind::Container(Container { dockerfile: "Dockerfile".to_owned() })),
        })),
    };
    let j: Resource = Resource::from_json(&doc(
        r#"{
        "name": "John Doe",
        "description": "This is a description",
        "namespace": "default",
        "revision": "latest",
        "tags": [ "tag1", "tag2"],
        "runtime": {
            "capabilities": [ "git", "linux" ],
            "container": {
                "dockerfile": "Dockerfile"
            }
        }
    }"#,
    ))
    .unwrap();

    let yaml: serde_yaml::Value = serde_yaml::from_str(
        r#"---
            name: John Doe
            description: This is a description
            namespace: default
            revision: latest
            tags:
            - tag1
            - tag2
            runtime:
              capabilities:
              - git
              - linux
              container:
                dockerfile: Dockerfile
            "#,
    )
    .unwrap();
    let y: Resource = Resource::from_json(&json_of_yaml(&yaml)).unwrap();

    assert_eq!(r, j);
    println!("Hello from struct : {:?}", r);
    println!("Hello from json   : {:?}", j);
    assert_eq!(r, y);
    println!("Hello from yaml   : {:?}", y);
}

#[test]
fn resource_error_kinds() {
    assert_eq!(
        Resource::from_json(&doc(r#"{"revision":"a","version":"b"}"#)),
        Err("duplicate field `version`".to_owned())
    );
    assert_eq!(
        Resource::from_json(&doc(r#"{"function":{},"runtime":{}}"#)),
        Err("duplicate field `runtime`".to_owned())
    );
    assert_eq!(Resource::from_json(&doc(r#"{"name":1}"#)), Err("invalid type: expected a string".to_owned()));
    assert_eq!(
        Resource::from_json(&doc(r#"{"runtime":{"container":{"dockerfile":"a"},"engine":1}}"#)),
        Err("unknown field `engine`".to_owned())
    );
    assert_eq!(Resource::from_json(&doc(r#"[]"#)), Err("invalid type: expected struct bda.Resource".to_owned()));
    assert_eq!(
        Resource::from_json(&doc(r#"{"function":{"inputs":[{"name":"p"},{"nam":"q"}]}}"#)),
        Err("unknown field `nam`".to_owned())
    );
    assert_eq!(
        Resource::from_json(&doc(r#"{"function":{"inputs":{}}}"#)),
        Err("invalid type: expected a sequence".to_owned())
    );
    assert_eq!(
        Resource::from_json(&doc(r#"{"runtime":{"container":{"dockerfile":1}}}"#)),
        Err("invalid type: expected a string".to_owned())
    );
}
