use bda::data::Data;
use bda::datastore::MemDatastore;
use bda::logic::{new_resource_function, new_resource_runtime_container};
use bda::resource::{
    Resource, ResourceKind, DelResourceRequest, DelResourcesRequest, GetResourceRequest, GetResourcesRequest, PutResourceRequest,
};
use bda::server::DatastoreType;
use bda::service::BDADatastoreService;

/// A function with a command, so that its `.function` field is indexed.
fn func(name: &str) -> Resource {
    let mut r = new_resource_function(name);
    if let Some(ResourceKind::Function(ref mut f)) = r.resource_kind {
        f.base_command = vec!["echo".to_owned()];
    }
    r
}

fn service() -> BDADatastoreService {
    BDADatastoreService::new(Data::new(MemDatastore::new()))
}

fn get_request(kind: &str, name: &str) -> GetResourceRequest {
    GetResourceRequest {
        version: "latest".to_owned(),
        namespace: "default".to_owned(),
        kind: kind.to_owned(),
        name: name.to_owned(),
    }
}

#[test]
fn put_then_get_resource() {
    let mut s = service();
    let r = new_resource_function("f1");
    let resp = s.put_resource(&PutResourceRequest { resource: Some(r.duplicate()) }).unwrap();
    assert_eq!(resp.updates, 1);
    assert_eq!(s.get_resource(&get_request("function", "f1")).unwrap(), r);
    let again = s.put_resource(&PutResourceRequest { resource: Some(r.duplicate()) }).unwrap();
    assert_eq!(again.updates, 0);
}

#[test]
fn get_missing_resource_names_the_id() {
    let s = service();
    assert_eq!(
        s.get_resource(&get_request("function", "nope")),
        Err("entity not found: /latest/default/function/nope".to_owned())
    );
}

#[test]
fn put_without_resource_fails() {
    let mut s = service();
    assert_eq!(
        s.put_resource(&PutResourceRequest { resource: None }),
        Err("put request resource not defined".to_owned())
    );
}

#[test]
fn del_resource_counts() {
    let mut s = service();
    s.put_resource(&PutResourceRequest { resource: Some(new_resource_function("f1")) }).unwrap();
    let request = DelResourceRequest {
        version: "latest".to_owned(),
        namespace: "default".to_owned(),
        kind: "function".to_owned(),
        name: "f1".to_owned(),
    };
    assert_eq!(s.del_resource(&request).unwrap().updates, 1);
    assert_eq!(s.del_resource(&request).unwrap().updates, 0);
    assert!(s.get_resource(&get_request("function", "f1")).is_err());
}

#[test]
fn get_and_del_resources_by_filters() {
    let mut s = service();
    s.put_resource(&PutResourceRequest { resource: Some(func("f1")) }).unwrap();
    s.put_resource(&PutResourceRequest { resource: Some(func("f2")) }).unwrap();
    s.put_resource(&PutResourceRequest { resource: Some(new_resource_runtime_container("c1")) }).unwrap();
    let get = GetResourcesRequest {
        version: String::new(),
        namespaces: String::new(),
        kinds: "function".to_owned(),
        names: String::new(),
        bql: String::new(),
    };
    let found = s.get_resources(&get).unwrap().resources;
    // an empty function has no `.function` field to find it by
    s.put_resource(&PutResourceRequest { resource: Some(new_resource_function("f0")) }).unwrap();
    assert_eq!(s.get_resources(&get).unwrap().resources, found);
    assert_eq!(found, vec![func("f1"), func("f2")]);
    assert_eq!(s.stream_resources(&get).unwrap().len(), 2);
    let del = DelResourcesRequest {
        version: String::new(),
        namespaces: String::new(),
        kinds: "function".to_owned(),
        names: "f1".to_owned(),
        bql: String::new(),
    };
    assert_eq!(s.del_resources(&del).unwrap().updates, 1);
    assert_eq!(s.get_resources(&get).unwrap().resources, vec![func("f2")]);
}

#[test]
fn bad_query_is_an_error() {
    let s = service();
    let get = GetResourcesRequest {
        version: String::new(),
        namespaces: String::new(),
        kinds: String::new(),
        names: String::new(),
        bql: ".name ==".to_owned(),
    };
    assert!(s.get_resources(&get).is_err());
}

#[test]
fn listings() {
    let mut s = service();
    assert_eq!(s.get_kinds().unwrap().kinds, vec!["function".to_owned(), "runtime.container".to_owned()]);
    s.put_resource(&PutResourceRequest { resource: Some(new_resource_function("f1")) }).unwrap();
    assert_eq!(s.get_namespaces().unwrap().namespaces, vec!["default".to_owned()]);
    assert_eq!(s.get_revisions().unwrap().revisions, vec!["latest".to_owned()]);
}

#[test]
fn datastore_types() {
    assert_eq!(DatastoreType::from_str("MeM"), Ok(DatastoreType::Mem));
    assert_eq!(
        DatastoreType::from_str("disk"),
        Err("\"disk\" is not reconized as a datastore type. allowed values are: mem ".to_owned())
    );
}
