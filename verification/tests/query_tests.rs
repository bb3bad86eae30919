use bda::query::{
    bql_from_kinds, bql_from_names, bql_from_namespaces, bql_from_str, bql_from_version, bql_join, Query,
    DEFAULT_VERSION,
};
use bda::resource::{DelResourcesRequest, GetResourcesRequest};

#[test]
fn test_bdaql_and() {
    let namespaces = bql_from_namespaces("");
    assert_eq!(namespaces, None);
    let namespaces = bql_from_namespaces("all");
    assert_eq!(namespaces, None);
    let namespaces = bql_from_namespaces("anamespace,all");
    assert_eq!(namespaces, None);

    let version = bql_from_version("");
    assert_eq!(version, Some(format!(".version=='{}'", DEFAULT_VERSION.to_string())));

    let kinds = bql_from_kinds("");
    assert_eq!(kinds, None);
    let kinds = bql_from_kinds("function");
    assert_eq!(kinds, Some(".function".to_string()));
    let kinds = bql_from_kinds("function,runtime.container");
    assert_eq!(kinds, Some(".function||.runtime.container".to_string()));

    let names = bql_from_names("");
    assert_eq!(names, None);
    let names = bql_from_names("aname'");
    assert_eq!(names, Some(".name=='aname\''".to_string()));
    let names = bql_from_names("namea,nameb");
    assert_eq!(names, Some(".name=='namea'||.name=='nameb'".to_string()));

    let bdaql = bql_from_str("");
    assert_eq!(bdaql, None);
    let bdaql = bql_from_str(".name");
    assert_eq!(bdaql, Some(".name".to_string()));

    let namespaces = bql_from_namespaces("ns1,ns2");
    assert_eq!(namespaces, Some(".namespace@any['ns1','ns2']".to_string()));
    let version = bql_from_version("");
    assert_eq!(version, Some(format!(".version=='{}'", DEFAULT_VERSION.to_string())));
    let kinds = bql_from_kinds("function,runtime.container");
    assert_eq!(kinds, Some(".function||.runtime.container".to_string()));
    let bdaql = bql_from_str("");
    assert_eq!(bdaql, None);
    let and = bql_join(vec![namespaces, version, kinds, bdaql]);
    assert_eq!(
        and,
        Some(format!(
            "( {} )&&( {} )&&( {} )",
            ".namespace@any['ns1','ns2']".to_string(),
            format!(".version=='{}'", DEFAULT_VERSION.to_string()),
            ".function||.runtime.container".to_string()
        ))
    );
    let namespaces = bql_from_namespaces("ns1,ns2");
    assert_eq!(namespaces, Some(".namespace@any['ns1','ns2']".to_string()));
    let and = bql_join(vec![namespaces, None, None, None]);
    assert_eq!(and, Some(format!("( {} )", ".namespace@any['ns1','ns2']".to_string())));
    let and = bql_join(vec![None, None, None, None]);
    assert_eq!(and, None)
}

#[test]
fn namespaces_are_lowercased_and_quotes_escaped() {
    assert_eq!(bql_from_namespaces("NS'1"), Some(".namespace@any['ns\\'1']".to_string()));
}

#[test]
fn version_takes_first_piece_lowercased() {
    assert_eq!(bql_from_version("V1,v2"), Some(".version=='v1'".to_string()));
}

#[test]
fn query_from_get_request_parses_the_joined_filters() {
    let request = GetResourcesRequest {
        version: String::new(),
        namespaces: "ns1".to_string(),
        kinds: "function".to_string(),
        names: "f".to_string(),
        bql: String::new(),
    };
    let q = Query::from_get_resources_request(&request).unwrap();
    assert_eq!(q.kind, bda::data::EntityKind::Resource);
}

#[test]
fn query_from_del_request_reports_a_bad_query() {
    let request = DelResourcesRequest {
        version: String::new(),
        namespaces: String::new(),
        kinds: String::new(),
        names: String::new(),
        bql: "((".to_string(),
    };
    assert!(Query::from_del_resources_request(&request).is_err());
}
