use bda::bql::{self, Value};
use bda::data::{Entity, EntityID};
use bda::idset::SetOperation;
use bda::index::{EntityIDSetOperationIter, Index};
use bda::json::Json;
use bda::number::Rational;
use bda::resource::Resource;

fn json_of(v: &serde_json::Value) -> Json {
    match v {
        serde_json::Value::Null => Json::Null,
        serde_json::Value::Bool(b) => Json::Bool(*b),
        serde_json::Value::Number(n) => Json::Number(Rational::parse(&n.to_string()).unwrap(), n.is_i64() || n.is_u64()),
        serde_json::Value::String(s) => Json::String(s.clone()),
        serde_json::Value::Array(a) => Json::Array(a.iter().map(json_of).collect()),
        serde_json::Value::Object(m) => Json::Object(m.iter().map(|(k, v)| (k.clone(), json_of(v))).collect()),
    }
}

fn resource_from_text(text: &str) -> Resource {
    let v: serde_json::Value = serde_json::from_str(text).unwrap();
    Resource::from_json(&json_of(&v)).unwrap()
}

fn create_entity_a() -> Entity {
    Entity::Resource(
        EntityID::ResourceID("a".to_owned()),
        resource_from_text(r#"{
            "name": "name",
            "description": "a description",
            "namespace": "namespace",
            "tags": ["a", "b", "c", "d"],
            "attributes": { "key1": "value1", "key2": "value2", "key3": ["val3a", "val3b", "val3c"], "key4": null },
            "function":{
                "inputs": [{
                    "name": "param1",
                    "description": "param1 description",
                    "parameterKind": "NUMBER",
                    "defaultValue": 6
                },{
                    "name": "param2",
                    "description": "param2 description",
                    "parameterKind": "TEXT",
                    "defaultValue": "a text"
                },{
                    "name": "param3",
                    "description": "param3 description",
                    "parameterKind": "PATH",
                    "defaultValue": "/path/to/dir"
                },{
                    "name": "param4",
                    "description": "param4 description",
                    "parameterKind": "GENERIC",
                    "defaultValue": "generic"
                }],
                "outputs": [],
                "baseCommand": ["echo", "hello", "world"],
                "runtimeCapabilities":["ls", "cmd"]
            }
        }"#),
    )
}
fn create_entity_b() -> Entity {
    Entity::Resource(
        EntityID::ResourceID("b".to_owned()), 
        resource_from_text(r#"{
            "name": "nameb", 
            "description": "another description", 
            "namespace": "namespace",
            "tags": ["a", "b", "c", "d", "e"], 
            "attributes": { "key1": "value1", "key2": "value2", "key3": ["val3a", "val3b", "val3c"] },
            "function":{ 
                "inputs": [{
                    "name": "param1",
                    "description": "param1 description",
                    "parameterKind": "NUMBER",
                    "defaultValue": 6
                },{
                    "name": "param2",
                    "description": "param2 description",
                    "parameterKind": "TEXT",
                    "defaultValue": "a text"
                },{
                    "name": "param3",
                    "description": "param3 description",
                    "parameterKind": "PATH",
                    "defaultValue": "/path/to/dir"
                },{
                    "name": "param4",
                    "description": "param4 description",
                    "parameterKind": "GENERIC",
                    "defaultValue": "generic"
                }],
                "outputs": [],
                "baseCommand": ["echo", "hello", "world"],
                "runtimeCapabilities":["ls", "cmd"]
            }
        }"#),
    )
}
fn create_entity_c() -> Entity {
    Entity::Resource(
        EntityID::ResourceID("c".to_owned()), 
        resource_from_text(r#"{
            "name": "namec", 
            "description": "another description", 
            "namespace": "namespace",
            "tags": ["a", "b", "c", "d", "e"], 
            "attributes": { "key1": "value1", "key2": "value2", "key3": ["val3a", "val3b", "val3c"] },
            "runtime":{ 
                "container": {
                    "dockerfile": "MyDockerfile"
                }
            }
        }"#),
    )
}
fn create_index(entities: Vec<&Entity>) -> Index {
    let mut index = Index::new();
    for entity in entities {
        index.index(entity).unwrap();
    }
    index
}

#[test]
fn test_remove() {
    let ref entity = create_entity_a();
    let mut index = create_index(vec![&entity]);
    assert_eq!(index.has_entity(entity), true);
    assert_eq!(index.has_field(entity, ".attributes.key3"), true);
    assert_eq!(
        index.has_value(
            entity,
            ".description",
            &Value::Text("a description".to_string())
        ),
        true
    );
    index.remove(entity).unwrap();
    assert_eq!(index.has_entity(entity), false);
    assert_eq!(index.has_field(entity, ".attributes.key3"), false);
    assert_eq!(
        index.has_value(
            entity,
            ".description",
            &Value::Text("a description".to_string())
        ),
        false
    );
}

#[test]
fn test_values() {
    let ref a = create_entity_a();
    let ref b = create_entity_b();
    let ref c = create_entity_c();
    let index = create_index(vec![a, b, c]);
    let mut iter = index.values(&a.to_kind(), ".tags").into_iter();
    assert_eq!(iter.next(), Some(Value::Text("a".to_string())));
    assert_eq!(iter.next(), Some(Value::Text("b".to_string())));
    assert_eq!(iter.next(), Some(Value::Text("c".to_string())));
    assert_eq!(iter.next(), Some(Value::Text("d".to_string())));
    assert_eq!(iter.next(), Some(Value::Text("e".to_string())));
    assert_eq!(iter.next(), None);
}

#[test]
fn test_search() {
    let ref a = create_entity_a();
    let ref b = create_entity_b();
    let ref c = create_entity_c();
    let index = create_index(vec![a, b, c]);
    let oka = &Some(a.id());
    let okb = &Some(b.id());
    let okc = &Some(c.id());
    let none = &None;
    let check =
        |q: &str, fst: &Option<EntityID>, snd: &Option<EntityID>, trd: &Option<EntityID>| {
            let kind = &a.to_kind();
            let ast = bql::from_str(q).unwrap();
            let mut iter = index.search(kind, &ast).into_iter();
            assert_eq!(iter.next(), *fst, "testing with query: {}", q);
            assert_eq!(iter.next(), *snd, "testing with query: {}", q);
            assert_eq!(iter.next(), *trd, "testing with query: {}", q);
            assert_eq!(iter.next(), None, "testing with query: {}", q);
        };
    check(".name is defined", oka, okb, okc);
    check(".name", oka, okb, okc);
    check(".name eq 'name'", oka, none, none);
    check(".name == 'nameb'", okb, none, none);
    check(".name=='namec'", okc, none, none);
    check(".name ne 'name'", okb, okc, none);
    check("!.name eq 'name'", okb, okc, none);
    check(".name!='name'", okb, okc, none);
    check(".name>'name'", okb, okc, none);
    check(".name gt 'name'", okb, okc, none);
    check(".name>='name'", oka, okb, okc);
    check(".name gte 'name'", oka, okb, okc);
    check(".name<'name'", none, none, none);
    check(".name lt 'name'", none, none, none);
    check(".name<='name'", oka, none, none);
    check(".name lte 'name'", oka, none, none);
    check(".name>'name' or .name=='name'", oka, okb, okc);
    check(".name>'name' and .name=='nameb'", okb, none, none);
    check(".tags@all['a','b','c','d']", oka, okb, okc);
    check(".tags@all['a','b','c','d','e']", okb, okc, none);
    check(".tags!@all['a','b','c','d','e']", oka, none, none);
    check(".tags@any['a','b','c','d','e']", oka, okb, okc);
    check(".tags!@any['a','b','c','d','e']", none, none, none);
    check(".attributes.key4 == null", oka, none, none);
    check(".attributes.key4 is nothing", oka, none, none);
    check(".attributes.key4 is nil", oka, none, none);
    check(".attributes.key4 is none", oka, none, none);
    check(".runtime", okc, none, none);
    check(".function", oka, okb, none);
}

#[test]
fn test_has_entity() {
    let ref entity = create_entity_a();
    let index = create_index(vec![entity]);
    assert_eq!(index.has_entity(entity), true);
}
#[test]
fn test_has_field() {
    let ref entity = create_entity_a();
    let index = create_index(vec![entity]);
    assert_eq!(index.has_field(entity, ".name"), true);
    assert_eq!(index.has_field(entity, ".description"), true);
    assert_eq!(index.has_field(entity, ".namespace"), true);
    assert_eq!(index.has_field(entity, ".attributes"), true);
    assert_eq!(index.has_field(entity, ".attributes.key1"), true);
    assert_eq!(index.has_field(entity, ".attributes.key2"), true);
    assert_eq!(index.has_field(entity, ".attributes.key3"), true);
    assert_eq!(index.has_field(entity, ".function"), true);
    assert_eq!(index.has_field(entity, ".function.inputs"), true);
    assert_eq!(index.has_field(entity, ".function.inputs.name"), true);
    assert_eq!(index.has_field(entity, ".function.outputs"), false);
}
#[test]
fn test_has_value() {
    let ref entity = create_entity_a();
    let index = create_index(vec![entity]);
    assert_eq!(
        index.has_field(entity, ".function.inputs.description"),
        true
    );
    assert_eq!(
        index.has_field(entity, ".function.inputs.parameterKind"),
        true
    );
    assert_eq!(
        index.has_field(entity, ".function.inputs.defaultValue"),
        true
    );
    assert_eq!(index.has_field(entity, ".function.baseCommand"), true);
    assert_eq!(
        index.has_field(entity, ".function.runtimeCapabilities"),
        true
    );

    assert_eq!(
        index.has_value(entity, ".name", &Value::Text("name".to_string())),
        true
    );
    assert_eq!(
        index.has_value(
            entity,
            ".description",
            &Value::Text("a description".to_string())
        ),
        true
    );
    assert_eq!(
        index.has_value(
            entity,
            ".namespace",
            &Value::Text("namespace".to_string())
        ),
        true
    );
    assert_eq!(
        index.has_value(entity, ".tags", &Value::Text("a".to_string())),
        true
    );
    assert_eq!(
        index.has_value(entity, ".tags", &Value::Text("b".to_string())),
        true
    );
    assert_eq!(
        index.has_value(entity, ".tags", &Value::Text("c".to_string())),
        true
    );
    assert_eq!(
        index.has_value(
            entity,
            ".function.inputs.name",
            &Value::Text("param1".to_string())
        ),
        true
    );
    assert_eq!(
        index.has_value(
            entity,
            ".function.inputs.description",
            &Value::Text("param1 description".to_string())
        ),
        true
    );
    assert_eq!(
        index.has_value(
            entity,
            ".function.inputs.defaultValue",
            &Value::Rational(Rational::parse("6").unwrap())
        ),
        true
    );
    assert_eq!(
        index.has_value(
            entity,
            ".function.inputs.parameterKind",
            &Value::Text("NUMBER".to_string())
        ),
        true
    );
    assert_eq!(
        index.has_value(
            entity,
            ".function.inputs.parameterKind",
            &Value::Text("PATH".to_string())
        ),
        true
    );
    assert_eq!(
        index.has_value(
            entity,
            ".function.inputs.parameterKind",
            &Value::Text("TEXT".to_string())
        ),
        true
    );
}

#[test]
fn negated_list_query_keeps_to_entities_with_the_field() {
    let ref a = create_entity_a();
    let ref c = create_entity_c();
    let index = create_index(vec![a, c]);
    let kind = &a.to_kind();
    // c has no `.function.baseCommand`; a negated list query does not select it
    let ast = bql::from_str(".function.baseCommand!@all['nope']").unwrap();
    assert_eq!(index.search(kind, &ast), vec![a.id()]);
    let ast = bql::from_str(".function.baseCommand!@any['echo']").unwrap();
    assert_eq!(index.search(kind, &ast), Vec::<EntityID>::new());
    // a negated equality takes every indexed entity without a match
    let ast = bql::from_str("!.name == 'name'").unwrap();
    assert_eq!(index.search(kind, &ast), vec![c.id()]);
}

#[test]
fn set_operation_iterator() {
    let id = |s: &str| EntityID::ResourceID(s.to_owned());
    let a = vec![id("a"), id("b"), id("d")];
    let b = vec![id("b"), id("c"), id("d")];
    let drain = |mut it: EntityIDSetOperationIter| {
        let mut out = Vec::new();
        while let Some(x) = it.next() {
            out.push(x);
        }
        assert_eq!(it.next(), None);
        out
    };
    assert_eq!(drain(EntityIDSetOperationIter::new(SetOperation::And, &a, &b)), vec![id("b"), id("d")]);
    assert_eq!(drain(EntityIDSetOperationIter::new(SetOperation::Or, &a, &b)), vec![id("a"), id("b"), id("c"), id("d")]);
    assert_eq!(drain(EntityIDSetOperationIter::new(SetOperation::Diff, &a, &b)), vec![id("a")]);
}
