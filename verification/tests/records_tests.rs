use bda::json::Json;
use bda::logic::new_resource_function;
use bda::number::Rational;
use bda::resource::{
    DelResourceRequest, DelResourceResponse, GetKindsResponse, GetNamespacesResponse, GetResourceRequest,
    GetResourcesRequest, GetResourcesResponse, PutResourceRequest, PutResourceResponse,
};

fn json_of(v: &serde_json::Value) -> Json {
    match v {
        serde_json::Value::Null => Json::Null,
        serde_json::Value::Bool(b) => Json::Bool(*b),
        serde_json::Value::Number(_) => Json::Null,
        serde_json::Value::String(s) => Json::String(s.clone()),
        serde_json::Value::Array(a) => Json::Array(a.iter().map(json_of).collect()),
        serde_json::Value::Object(m) => Json::Object(m.iter().map(|(k, v)| (k.clone(), json_of(v))).collect()),
    }
}

fn doc(text: &str) -> Json {
    json_of(&serde_json::from_str(text).unwrap())
}

#[test]
fn request_reads_named_texts() {
    let r = GetResourceRequest::from_json(&doc(r#"{"kind":"function","name":"f"}"#)).unwrap();
    assert_eq!(
        r,
        GetResourceRequest {
            version: String::new(),
            namespace: String::new(),
            kind: "function".to_owned(),
            name: "f".to_owned()
        }
    );
}

#[test]
fn request_errors() {
    assert_eq!(
        GetResourceRequest::from_json(&doc(r#"{"nome":"f"}"#)),
        Err("unknown field `nome`".to_owned())
    );
    assert!(DelResourceRequest::from_json(&doc(r#"{"name":1}"#)).is_err());
    assert!(DelResourceRequest::from_json(&doc(r#"[]"#)).is_err());
    let dup = Json::Object(vec![
        ("name".to_owned(), Json::String("a".to_owned())),
        ("name".to_owned(), Json::String("b".to_owned())),
    ]);
    assert_eq!(GetResourceRequest::from_json(&dup), Err("duplicate field `name`".to_owned()));
}

#[test]
fn request_written_without_empty_texts_and_read_back() {
    let r = GetResourcesRequest {
        version: "v1".to_owned(),
        namespaces: String::new(),
        kinds: "function".to_owned(),
        names: String::new(),
        bql: ".name".to_owned(),
    };
    let j = r.to_json();
    assert_eq!(
        j,
        Json::Object(vec![
            ("version".to_owned(), Json::String("v1".to_owned())),
            ("kinds".to_owned(), Json::String("function".to_owned())),
            ("bql".to_owned(), Json::String(".name".to_owned())),
        ])
    );
    assert_eq!(GetResourcesRequest::from_json(&j).unwrap(), r);
}

#[test]
fn text_list_responses_round_trip() {
    let r = GetKindsResponse { kinds: vec!["function".to_owned(), "runtime.container".to_owned()] };
    let j = r.to_json();
    assert_eq!(GetKindsResponse::from_json(&j).unwrap(), r);
    let empty = GetNamespacesResponse { namespaces: vec![] };
    assert_eq!(empty.to_json(), Json::Object(vec![]));
    assert_eq!(GetNamespacesResponse::from_json(&Json::Object(vec![])).unwrap(), empty);
    assert!(GetNamespacesResponse::from_json(&doc(r#"{"namespaces":[1]}"#)).is_err());
}

#[test]
fn updates_responses() {
    let n = |k: i64| Json::Object(vec![("updates".to_owned(), Json::Number(Rational::from_i64(k), true))]);
    let t = |s: &str| Json::Object(vec![("updates".to_owned(), Json::String(s.to_owned()))]);
    assert_eq!(PutResourceResponse::from_json(&n(3)).unwrap().updates, 3);
    assert_eq!(PutResourceResponse::from_json(&t("-12")).unwrap().updates, -12);
    assert_eq!(PutResourceResponse::from_json(&t("+7")).unwrap().updates, 7);
    assert_eq!(DelResourceResponse::from_json(&n(-2147483648)).unwrap().updates, i32::MIN);
    assert!(DelResourceResponse::from_json(&n(2147483648)).is_err());
    assert!(DelResourceResponse::from_json(&t("1x")).is_err());
    assert!(DelResourceResponse::from_json(&t("")).is_err());
    assert_eq!(DelResourceResponse::from_json(&Json::Object(vec![])).unwrap().updates, 0);
    let written_with_point = Json::Object(vec![("updates".to_owned(), Json::Number(Rational::from_i64(3), false))]);
    assert!(DelResourceResponse::from_json(&written_with_point).is_err());
    assert_eq!(PutResourceResponse { updates: 0 }.to_json(), Json::Object(vec![]));
    assert_eq!(PutResourceResponse { updates: 5 }.to_json(), n(5));
}

#[test]
fn put_request_and_resources_response() {
    let none = PutResourceRequest::from_json(&Json::Object(vec![("resource".to_owned(), Json::Null)])).unwrap();
    assert_eq!(none.resource, None);
    let req = PutResourceRequest { resource: Some(new_resource_function("f")) };
    assert_eq!(PutResourceRequest::from_json(&req.to_json().unwrap()).unwrap(), req);
    let resp = GetResourcesResponse { resources: vec![new_resource_function("a"), new_resource_function("b")] };
    assert_eq!(GetResourcesResponse::from_json(&resp.to_json().unwrap()).unwrap(), resp);
    assert!(GetResourcesResponse::from_json(&doc(r#"{"resources":[{"x":1}]}"#)).is_err());
}
