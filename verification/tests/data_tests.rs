use bda::bql::BQL;
use bda::data::{Data, Entity, EntityID, EntityKind, Op};
use bda::datastore::MemDatastore;
use bda::logic;
use bda::query::Query;

fn empty_data() -> Data<MemDatastore> {
    Data::new(MemDatastore::new())
}

#[test]
fn test_data_put_new() {
    let id = EntityID::ResourceID("an id".to_owned());
    let entity = Entity::Resource(id.clone(), logic::new_resource_function("name"));
    let op = Op::Create { new: entity.duplicate() };
    let mut data = empty_data();
    assert_eq!(data.get(&id).unwrap(), None);
    assert_eq!(Some(op), data.put(&entity).unwrap());
}

#[test]
fn test_data_put_same() {
    let id = EntityID::ResourceID("an id".to_owned());
    let entity = Entity::Resource(id.clone(), logic::new_resource_function("name"));
    let get_entity = entity.duplicate();
    let mut data = empty_data();
    data.put(&get_entity).unwrap();
    assert_eq!(data.get(&id).unwrap(), Some(get_entity));
    assert_eq!(None, data.put(&entity).unwrap());
}

#[test]
fn test_data_put_change() {
    let id = EntityID::ResourceID("an id".to_owned());
    let entity = Entity::Resource(id.clone(), logic::new_resource_function("name"));
    let mut get_entity = entity.duplicate();
    let Entity::Resource(_, ref mut r) = get_entity;
    r.description = "last description".to_owned();
    let op = Op::Update { new: entity.duplicate(), old: get_entity.duplicate() };
    let mut data = empty_data();
    data.put(&get_entity).unwrap();
    assert_eq!(data.get(&id).unwrap(), Some(get_entity));
    assert_eq!(Some(op), data.put(&entity).unwrap());
}

#[test]
fn test_data_del_existent() {
    let id = EntityID::ResourceID("an id".to_owned());
    let entity = Entity::Resource(id.clone(), logic::new_resource_function("name"));
    let op = Op::Delete { id: id.clone(), old: entity.duplicate() };
    let mut data = empty_data();
    data.put(&entity).unwrap();
    assert_eq!(Some(op), data.del(&id).unwrap());
    assert_eq!(data.get(&id).unwrap(), None);
}

#[test]
fn data_del_missing_is_none() {
    let id = EntityID::ResourceID("an id".to_owned());
    let mut data = empty_data();
    assert_eq!(None, data.del(&id).unwrap());
}

#[test]
fn data_read_after_put() {
    let id = EntityID::ResourceID("x".to_owned());
    let entity = Entity::Resource(id.clone(), logic::new_resource_function("x"));
    let mut data = empty_data();
    data.put(&entity).unwrap();
    assert_eq!(data.get(&id).unwrap(), Some(entity.duplicate()));
    assert_eq!(data.get_resource(&id).unwrap(), Some(logic::new_resource_function("x")));
}

#[test]
fn test_data_search() {
    let q = Query { kind: EntityKind::Resource, ast: BQL::IsPresent };
    let entitya = EntityID::ResourceID("a".to_owned());
    let entityb = EntityID::ResourceID("b".to_owned());
    let mut data = empty_data();
    data.put(&Entity::Resource(entityb.clone(), logic::new_resource_function("b"))).unwrap();
    data.put(&Entity::Resource(entitya.clone(), logic::new_resource_function("a"))).unwrap();
    let items = vec![entitya.clone(), entityb.clone()];
    let mut set = items.clone().into_iter();
    let mut answer = data.search(&q).unwrap().into_iter();
    assert_eq!(set.next(), answer.next());
    assert_eq!(set.next(), answer.next());
    assert_eq!(set.next(), answer.next());
}

