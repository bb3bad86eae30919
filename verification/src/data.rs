//! The entities that are stored and the operations that change them.

use vstd::prelude::*;
use crate::bql::{value_bool, value_text, value_views, BqlV, Value, ValueV};
use crate::datastore::{after_set, entity_views, stored, StoreV};
use crate::idset::sorted;
use crate::index::{id_texts, selects, values_increase};
use crate::logic::{kind_name, resource_id_of, with_defaults};
use crate::query::Query;
use crate::resource::{Resource, ResourceV};

verus! {

/// The kinds of entities.
#[derive(Debug, Clone, Copy, PartialEq, Eq, Structural)]
pub enum EntityKind {
    Resource,
}

/// The identifier of an entity.
#[derive(Debug, Clone, PartialEq, Eq)]
pub enum EntityID {
    ResourceID(String),
}

/// The mathematical value of an [`EntityID`].
pub enum EntityIDV {
    ResourceID(Seq<char>),
}

impl View for EntityID {
    type V = EntityIDV;

    open spec fn view(&self) -> EntityIDV {
        match self {
            EntityID::ResourceID(s) => EntityIDV::ResourceID(s@),
        }
    }
}

impl EntityIDV {
    /// The text of the identifier.
    pub open spec fn text(self) -> Seq<char> {
        match self {
            EntityIDV::ResourceID(s) => s,
        }
    }
}

impl EntityID {
    /// The kind of entity the identifier names.
    pub fn to_kind(&self) -> (k: EntityKind)
        ensures
            k == EntityKind::Resource,
    {
        match self {
            EntityID::ResourceID(_) => EntityKind::Resource,
        }
    }

    /// The text of the identifier.
    pub fn text(&self) -> (r: &String)
        ensures
            r@ == self@.text(),
    {
        match self {
            EntityID::ResourceID(s) => s,
        }
    }

    /// A copy of the identifier.
    pub fn duplicate(&self) -> (r: EntityID)
        ensures
            r@ == self@,
    {
        match self {
            EntityID::ResourceID(s) => EntityID::ResourceID(s.clone()),
        }
    }
}

/// An entity: an identifier and what it identifies.
#[derive(Debug, PartialEq)]
pub enum Entity {
    Resource(EntityID, Resource),
}

/// The mathematical value of an [`Entity`].
pub enum EntityV {
    Resource(EntityIDV, ResourceV),
}

impl View for Entity {
    type V = EntityV;

    open spec fn view(&self) -> EntityV {
        match self {
            Entity::Resource(id, r) => EntityV::Resource(id@, r@),
        }
    }
}

impl EntityV {
    /// The identifier of the entity.
    pub open spec fn id(self) -> EntityIDV {
        match self {
            EntityV::Resource(id, _) => id,
        }
    }

    /// The resource of the entity.
    pub open spec fn resource(self) -> ResourceV {
        match self {
            EntityV::Resource(_, r) => r,
        }
    }
}

impl Entity {
    /// The kind of the entity.
    pub fn to_kind(&self) -> (k: EntityKind)
        ensures
            k == EntityKind::Resource,
    {
        match self {
            Entity::Resource(_, _) => EntityKind::Resource,
        }
    }

    /// The identifier of the entity.
    pub fn id(&self) -> (r: EntityID)
        ensures
            r@ == self@.id(),
    {
        match self {
            Entity::Resource(id, _) => id.duplicate(),
        }
    }

    /// The resource of the entity.
    pub fn resource(&self) -> (r: &Resource)
        ensures
            r@ == self@.resource(),
    {
        match self {
            Entity::Resource(_, r) => r,
        }
    }

    /// A copy of the entity.
    pub fn duplicate(&self) -> (r: Entity)
        ensures
            r@ == self@,
    {
        match self {
            Entity::Resource(id, r) => Entity::Resource(id.duplicate(), r.duplicate()),
        }
    }

    /// Whether two entities are equal.
    pub fn same(&self, other: &Entity) -> (r: bool)
        ensures
            r == (self@ == other@),
    {
        match (self, other) {
            (Entity::Resource(EntityID::ResourceID(a), x), Entity::Resource(EntityID::ResourceID(b), y)) => {
                *a == *b && x.same(y)
            },
        }
    }
}

/// A change to the stored entities.
#[derive(Debug, PartialEq)]
pub enum Op {
    Create { new: Entity },
    Update { new: Entity, old: Entity },
    Delete { id: EntityID, old: Entity },
}

/// The mathematical value of an [`Op`].
pub enum OpV {
    Create { new: EntityV },
    Update { new: EntityV, old: EntityV },
    Delete { id: EntityIDV, old: EntityV },
}

impl View for Op {
    type V = OpV;

    open spec fn view(&self) -> OpV {
        match self {
            Op::Create { new } => OpV::Create { new: new@ },
            Op::Update { new, old } => OpV::Update { new: new@, old: old@ },
            Op::Delete { id, old } => OpV::Delete { id: id@, old: old@ },
        }
    }
}

/// The operation that writing an entity calls for: a creation where
/// nothing is stored under its identifier, nothing where the same entity is
/// stored, and an update of the stored one otherwise.
pub open spec fn put_op(m: StoreV, new: EntityV) -> Option<OpV> {
    let id = new.id().text();
    if !m.entities.contains_key(id) {
        Some(OpV::Create { new })
    } else if m.entities[id] == new {
        None
    } else {
        Some(OpV::Update { new, old: m.entities[id] })
    }
}

/// What a read of the identifier answers where the read gives `failure`:
/// that error as it came; otherwise the entity stored under the
/// identifier, or none.
pub open spec fn fetched(failure: Option<Seq<char>>, m: StoreV, id: Seq<char>, r: Result<Option<Entity>, String>) -> bool {
    match failure {
        Some(e) => r matches Err(x) && x@ == e,
        None => match r {
            Ok(Some(x)) => m.entities.contains_key(id) && m.entities[id] == x@,
            Ok(None) => !m.entities.contains_key(id),
            Err(_) => false,
        },
    }
}

/// How a write answers where its read of the datastore gives `failure`:
/// that error as it came, with nothing changed; otherwise as [`written`]
/// says.
pub open spec fn answered(failure: Option<Seq<char>>, m0: StoreV, m1: StoreV, op: Option<OpV>, r: Result<Option<Op>, String>) -> bool {
    match failure {
        Some(e) => m1 == m0 && (r matches Err(x) && x@ == e),
        None => written(m0, m1, op, r),
    }
}

/// The operation that deleting an identifier calls for: the deletion of
/// the stored entity, or nothing where none is stored.
pub open spec fn del_op(m: StoreV, id: EntityIDV) -> Option<OpV> {
    if m.entities.contains_key(id.text()) {
        Some(OpV::Delete { id, old: m.entities[id.text()] })
    } else {
        None
    }
}

/// How a write that calls for `op` leaves the store and what it answers:
/// with no operation nothing changes and the answer is none; otherwise the
/// operation is performed (see [`after_set`]) and answered when it
/// succeeds.
pub open spec fn written(m0: StoreV, m1: StoreV, op: Option<OpV>, r: Result<Option<Op>, String>) -> bool {
    match op {
        None => m1 == m0 && r matches Ok(None),
        Some(o) => m1 == after_set(m0, o).0 && (r is Ok <==> after_set(m0, o).1) && (r matches Ok(x)
            ==> x matches Some(y) && y@ == o),
    }
}

/// A resource with its defaults filled in, as the entity stored under its
/// identifier; none when it has no kind name.
pub open spec fn resource_entity(r: ResourceV) -> Option<EntityV> {
    let v = with_defaults(r);
    match kind_name(v.resource_kind) {
        Some(k) => Some(EntityV::Resource(EntityIDV::ResourceID(resource_id_of(v.revision, v.namespace, k, v.name)), v)),
        None => None,
    }
}

/// The texts of the values that have one, in order.
pub open spec fn value_texts(vs: Seq<ValueV>) -> Seq<Seq<char>>
    decreases vs.len(),
{
    if vs.len() == 0 {
        Seq::empty()
    } else {
        match value_text(vs.last()) {
            Some(t) => value_texts(vs.drop_last()).push(t),
            None => value_texts(vs.drop_last()),
        }
    }
}

/// The truths of the values that have one, in order.
pub open spec fn value_bools(vs: Seq<ValueV>) -> Seq<bool>
    decreases vs.len(),
{
    if vs.len() == 0 {
        Seq::empty()
    } else {
        match value_bool(vs.last()) {
            Some(b) => value_bools(vs.drop_last()).push(b),
            None => value_bools(vs.drop_last()),
        }
    }
}

/// The resources of entities.
pub open spec fn resources_of(es: Seq<EntityV>) -> Seq<ResourceV> {
    es.map_values(|e: EntityV| e.resource())
}

/// The values of resources.
pub open spec fn resource_views(rs: Seq<Resource>) -> Seq<ResourceV> {
    rs.map_values(|r: Resource| r@)
}

/// Where entities are kept and indexed: what [`Data`] reads and writes.
/// Its state is the stored entities and their index (see [`StoreV`]); an
/// operation is performed as [`after_set`] describes.
pub trait Datastore {
    /// The stored entities and their index.
    spec fn store(&self) -> StoreV;

    /// The invariant the store keeps.
    spec fn store_wf(&self) -> bool;

    /// The error that a read of the identifier gives, where that read
    /// fails; none where it reads the store. A store that reads from
    /// elsewhere may fail.
    spec fn read_error(&self, id: Seq<char>) -> Option<Seq<char>>;

    /// The entity stored under the identifier, or the error of the read
    /// (see [`fetched`]).
    fn get(&self, id: &EntityID) -> (r: Result<Option<Entity>, String>)
        ensures
            fetched(self.read_error(id@.text()), self.store(), id@.text(), r);

    /// Performs an operation and hands it back.
    fn set(&mut self, action: Op) -> (r: Result<Op, String>)
        requires
            old(self).store_wf(),
        ensures
            final(self).store_wf(),
            (forall|x: Seq<char>| #[trigger] old(self).read_error(x) is None) ==> (forall|x: Seq<char>|
                #[trigger] final(self).read_error(x) is None),
            (forall|k: EntityKind, a: BqlV| #[trigger] old(self).search_error(k, a) is None) ==> (forall|
                k: EntityKind,
                a: BqlV,
            | #[trigger] final(self).search_error(k, a) is None),
            (forall|k: EntityKind, f: Seq<char>| #[trigger] old(self).values_error(k, f) is None) ==> (forall|
                k: EntityKind,
                f: Seq<char>,
            | #[trigger] final(self).values_error(k, f) is None),
            final(self).store() == after_set(old(self).store(), action@).0,
            r is Ok <==> after_set(old(self).store(), action@).1,
            r matches Ok(o) ==> o@ == action@;

    /// The error that a search of a kind of entities by a query gives,
    /// where that search fails.
    spec fn search_error(&self, kind: EntityKind, ast: BqlV) -> Option<Seq<char>>;

    /// The error that listing the values of a field gives, where that
    /// listing fails.
    spec fn values_error(&self, kind: EntityKind, field: Seq<char>) -> Option<Seq<char>>;

    /// The identifiers of the entities that a query selects, in increasing
    /// order; or the error of the search.
    fn search(&self, query: &Query) -> (r: Result<Vec<EntityID>, String>)
        requires
            self.store_wf(),
        ensures
            match self.search_error(query.kind, query.ast@) {
                Some(e) => r matches Err(x) && x@ == e,
                None => r matches Ok(ids) && sorted(id_texts(ids@)) && forall|x: Seq<char>| #[trigger] id_texts(ids@).contains(x)
                    <==> selects(self.store().index, query.ast@, x),
            };

    /// The values ever found in a field, in increasing order; or the error
    /// of the listing.
    fn values(&self, kind: &EntityKind, field: &str) -> (r: Result<Vec<Value>, String>)
        requires
            self.store_wf(),
        ensures
            match self.values_error(*kind, field@) {
                Some(e) => r matches Err(x) && x@ == e,
                None => r matches Ok(vs) && values_increase(value_views(vs@)) && forall|v: ValueV| #[trigger] value_views(
                    vs@,
                ).contains(v) <==> self.store().index.keys.contains((field@, v)),
            };
}

/// No read, search or listing of the datastore fails.
pub open spec fn answers_all<D: Datastore>(d: &D) -> bool {
    &&& forall|x: Seq<char>| #[trigger] d.read_error(x) is None
    &&& forall|k: EntityKind, a: BqlV| #[trigger] d.search_error(k, a) is None
    &&& forall|k: EntityKind, f: Seq<char>| #[trigger] d.values_error(k, f) is None
}

/// The entities of a datastore, read and written by the rules of entities.
pub struct Data<D: Datastore> {
    datastore: D,
}

/// Data over a datastore.
pub fn new<D: Datastore>(datastore: D) -> (r: Data<D>)
    ensures
        r@ == datastore.store(),
        r.wf() == datastore.store_wf(),
        r.reliable() == answers_all(&datastore),
{
    Data::new(datastore)
}

impl<D: Datastore> View for Data<D> {
    type V = StoreV;

    closed spec fn view(&self) -> StoreV {
        self.datastore.store()
    }
}

impl<D: Datastore> Data<D> {
    /// The datastore keeps its invariant.
    pub closed spec fn wf(&self) -> bool {
        self.datastore.store_wf()
    }

    /// The error that the datastore's read of the identifier gives, where
    /// that read fails.
    pub closed spec fn read_error(&self, id: Seq<char>) -> Option<Seq<char>> {
        self.datastore.read_error(id)
    }

    /// The error that the datastore's search of a kind of entities by a
    /// query gives, where that search fails.
    pub closed spec fn search_error(&self, kind: EntityKind, ast: BqlV) -> Option<Seq<char>> {
        self.datastore.search_error(kind, ast)
    }

    /// The error that the datastore's listing of the values of a field
    /// gives, where that listing fails.
    pub closed spec fn values_error(&self, kind: EntityKind, field: Seq<char>) -> Option<Seq<char>> {
        self.datastore.values_error(kind, field)
    }

    /// No read, search or listing of the datastore fails.
    pub open spec fn reliable(&self) -> bool {
        &&& forall|x: Seq<char>| #[trigger] self.read_error(x) is None
        &&& forall|k: EntityKind, a: BqlV| #[trigger] self.search_error(k, a) is None
        &&& forall|k: EntityKind, f: Seq<char>| #[trigger] self.values_error(k, f) is None
    }

    /// The stored entities whose read does not fail.
    pub open spec fn readable(&self) -> Map<Seq<char>, EntityV> {
        self@.entities.restrict(Set::new(|x: Seq<char>| self.read_error(x) is None))
    }

    /// Data never fails exactly where its datastore answers everything.
    proof fn lemma_reliable_answers_all(&self)
        ensures
            self.reliable() == answers_all(&self.datastore),
    {
        if self.reliable() {
            assert forall|x: Seq<char>| #[trigger] self.datastore.read_error(x) is None by {
                assert(self.read_error(x) is None);
            }
            assert forall|k: EntityKind, a: BqlV| #[trigger] self.datastore.search_error(k, a) is None by {
                assert(self.search_error(k, a) is None);
            }
            assert forall|k: EntityKind, f: Seq<char>| #[trigger] self.datastore.values_error(k, f) is None by {
                assert(self.values_error(k, f) is None);
            }
        }
        if answers_all(&self.datastore) {
            assert forall|x: Seq<char>| #[trigger] self.read_error(x) is None by {
                assert(self.datastore.read_error(x) is None);
            }
            assert forall|k: EntityKind, a: BqlV| #[trigger] self.search_error(k, a) is None by {
                assert(self.datastore.search_error(k, a) is None);
            }
            assert forall|k: EntityKind, f: Seq<char>| #[trigger] self.values_error(k, f) is None by {
                assert(self.datastore.values_error(k, f) is None);
            }
        }
    }

    /// Where no read fails, every stored entity is readable.
    pub proof fn lemma_reliable_readable(&self)
        requires
            self.reliable(),
        ensures
            self.readable() == self@.entities,
    {
        assert(self.readable() =~= self@.entities);
    }

    /// Data over a datastore.
    pub fn new(datastore: D) -> (r: Data<D>)
        ensures
            r@ == datastore.store(),
            r.wf() == datastore.store_wf(),
            r.reliable() == answers_all(&datastore),
    {
        let d = Data { datastore };
        proof {
            d.lemma_reliable_answers_all();
        }
        d
    }

    /// The entity stored under the identifier, or the error of the
    /// datastore's read (see [`fetched`]).
    pub fn get(&self, id: &EntityID) -> (r: Result<Option<Entity>, String>)
        ensures
            fetched(self.read_error(id@.text()), self@, id@.text(), r),
    {
        self.datastore.get(id)
    }

    /// Performs an operation on the datastore and hands it back.
    fn perform(&mut self, action: Op) -> (r: Result<Op, String>)
        requires
            old(self).wf(),
        ensures
            final(self).wf(),
            old(self).reliable() ==> final(self).reliable(),
            final(self)@ == after_set(old(self)@, action@).0,
            r is Ok <==> after_set(old(self)@, action@).1,
            r matches Ok(o) ==> o@ == action@,
    {
        proof {
            self.lemma_reliable_answers_all();
        }
        let r = self.datastore.set(action);
        proof {
            self.lemma_reliable_answers_all();
        }
        r
    }

    /// Deletes the entity stored under the identifier (see [`del_op`] and
    /// [`answered`]); where the datastore's read fails, its error as it
    /// came, and nothing changes.
    pub fn del(&mut self, id: &EntityID) -> (r: Result<Option<Op>, String>)
        requires
            old(self).wf(),
        ensures
            final(self).wf(),
            old(self).reliable() ==> final(self).reliable(),
            answered(old(self).read_error(id@.text()), old(self)@, final(self)@, del_op(old(self)@, id@), r),
    {
        match self.datastore.get(id) {
            Ok(None) => Ok(None),
            Ok(Some(old)) => match self.perform(Op::Delete { id: id.duplicate(), old }) {
                Ok(op) => Ok(Some(op)),
                Err(e) => Err(e),
            },
            Err(e) => Err(e),
        }
    }

    /// Writes an entity (see [`put_op`] and [`answered`]); where the
    /// datastore's read fails, its error as it came, and nothing changes.
    pub fn put(&mut self, new: &Entity) -> (r: Result<Option<Op>, String>)
        requires
            old(self).wf(),
        ensures
            final(self).wf(),
            old(self).reliable() ==> final(self).reliable(),
            answered(old(self).read_error(new@.id().text()), old(self)@, final(self)@, put_op(old(self)@, new@), r),
    {
        let id = new.id();
        match self.datastore.get(&id) {
            Ok(None) => match self.perform(Op::Create { new: new.duplicate() }) {
                Ok(op) => Ok(Some(op)),
                Err(e) => Err(e),
            },
            Ok(Some(old)) => {
                if new.same(&old) {
                    Ok(None)
                } else {
                    match self.perform(Op::Update { new: new.duplicate(), old }) {
                        Ok(op) => Ok(Some(op)),
                        Err(e) => Err(e),
                    }
                }
            },
            Err(e) => Err(e),
        }
    }

    /// The resource stored under the identifier.
    pub fn get_resource(&self, id: &EntityID) -> (r: Result<Option<Resource>, String>)
        ensures
            match r {
                Ok(Some(x)) => self@.entities.contains_key(id@.text()) && self@.entities[id@.text()].resource() == x@,
                Ok(None) => !self@.entities.contains_key(id@.text()),
                Err(e) => self.read_error(id@.text()) == Some(e@),
            },
            self.read_error(id@.text()) is None ==> r is Ok,
    {
        match self.datastore.get(id) {
            Ok(Some(Entity::Resource(_, r))) => Ok(Some(r)),
            Ok(None) => Ok(None),
            Err(e) => Err(e),
        }
    }

    /// Writes a resource: its defaults are filled in and it is stored under
    /// the identifier built from its parts (see [`resource_entity`]); the
    /// error of the identifier where it has no kind name, and then nothing
    /// changes.
    pub fn put_resource(&mut self, r: &Resource) -> (res: Result<Option<Op>, String>)
        requires
            old(self).wf(),
        ensures
            final(self).wf(),
            old(self).reliable() ==> final(self).reliable(),
            match resource_entity(r@) {
                Some(e) => answered(old(self).read_error(e.id().text()), old(self)@, final(self)@, put_op(old(self)@, e), res),
                None => res is Err && final(self)@ == old(self)@,
            },
    {
        let mut validated = r.duplicate();
        crate::logic::defaults(&mut validated);
        let id = match crate::logic::resource_id(&validated) {
            Ok(id) => id,
            Err(e) => return Err(e),
        };
        self.put(&Entity::Resource(EntityID::ResourceID(id), validated))
    }

    /// The identifiers of the entities that a query selects, in increasing
    /// order.
    pub fn search(&self, query: &Query) -> (r: Result<Vec<EntityID>, String>)
        requires
            self.wf(),
        ensures
            match self.search_error(query.kind, query.ast@) {
                Some(e) => r matches Err(x) && x@ == e,
                None => r matches Ok(ids) && sorted(id_texts(ids@)) && forall|x: Seq<char>| #[trigger] id_texts(ids@).contains(x)
                    <==> selects(self@.index, query.ast@, x),
            },
    {
        self.datastore.search(query)
    }

    /// The identifiers of the entities that a query selects, in increasing
    /// order.
    pub fn ids(&self, query: &Query) -> (r: Result<Vec<EntityID>, String>)
        requires
            self.wf(),
        ensures
            match self.search_error(query.kind, query.ast@) {
                Some(e) => r matches Err(x) && x@ == e,
                None => r matches Ok(ids) && sorted(id_texts(ids@)) && forall|x: Seq<char>| #[trigger] id_texts(ids@).contains(x)
                    <==> selects(self@.index, query.ast@, x),
            },
    {
        self.search(query)
    }

    /// The stored entities of identifiers, in order; one whose read fails
    /// is left out.
    fn stored_entities(&self, ids: &Vec<EntityID>) -> (r: Vec<Entity>)
        ensures
            entity_views(r@) == stored(self.readable(), id_texts(ids@)),
    {
        let mut out: Vec<Entity> = Vec::new();
        let n = ids.len();
        let ghost tv = id_texts(ids@);
        for i in 0..n
            invariant
                n == ids@.len(),
                tv == id_texts(ids@),
                entity_views(out@) == stored(self.readable(), tv.take(i as int)),
        {
            assert(tv.take(i + 1).drop_last() =~= tv.take(i as int));
            assert(tv.take(i + 1).last() == ids@[i as int]@.text());
            let ghost before = entity_views(out@);
            let ghost x = ids@[i as int]@.text();
            match self.get(&ids[i]) {
                Ok(Some(e)) => {
                    out.push(e);
                    assert(self.readable().contains_key(x));
                    assert(entity_views(out@) =~= before.push(self.readable()[x]));
                },
                _ => {
                    assert(!self.readable().contains_key(x));
                },
            }
        }
        assert(tv.take(n as int) =~= tv);
        out
    }

    /// The stored entities that a query selects, in increasing order of
    /// their identifiers.
    pub fn entities(&self, query: &Query) -> (r: Result<Vec<Entity>, String>)
        requires
            self.wf(),
        ensures
            match self.search_error(query.kind, query.ast@) {
                Some(e) => r matches Err(x) && x@ == e,
                None => r matches Ok(es) && exists|ids: Seq<Seq<char>>| sorted(ids) && (forall|x: Seq<char>| #[trigger] ids.contains(x)
                    <==> selects(self@.index, query.ast@, x)) && entity_views(es@) == stored(self.readable(), ids),
            },
    {
        let ids = match self.search(query) {
            Ok(ids) => ids,
            Err(e) => return Err(e),
        };
        let es = self.stored_entities(&ids);
        assert(sorted(id_texts(ids@)));
        Ok(es)
    }

    /// The stored resources that a query selects, in increasing order of
    /// their identifiers.
    pub fn resources(&self, query: &Query) -> (r: Result<Vec<Resource>, String>)
        requires
            self.wf(),
        ensures
            match self.search_error(query.kind, query.ast@) {
                Some(e) => r matches Err(x) && x@ == e,
                None => r matches Ok(rs) && exists|ids: Seq<Seq<char>>| sorted(ids) && (forall|x: Seq<char>| #[trigger] ids.contains(x)
                    <==> selects(self@.index, query.ast@, x)) && resource_views(rs@) == resources_of(stored(self.readable(), ids)),
            },
    {
        let ids = match self.search(query) {
            Ok(ids) => ids,
            Err(e) => return Err(e),
        };
        let es = self.stored_entities(&ids);
        let mut out: Vec<Resource> = Vec::new();
        let n = es.len();
        for i in 0..n
            invariant
                n == es@.len(),
                resource_views(out@) == resources_of(entity_views(es@)).take(i as int),
        {
            let ghost before = resource_views(out@);
            match &es[i] {
                Entity::Resource(_, r) => out.push(r.duplicate()),
            }
            assert(resource_views(out@) =~= before.push(es@[i as int]@.resource()));
            assert(resources_of(entity_views(es@)).take(i + 1) =~= resources_of(entity_views(es@)).take(i as int).push(
                es@[i as int]@.resource(),
            ));
        }
        assert(resources_of(entity_views(es@)).take(n as int) =~= resources_of(entity_views(es@)));
        assert(sorted(id_texts(ids@)));
        Ok(out)
    }

    /// The values ever found in a field, in increasing order.
    pub fn values(&self, kind: &EntityKind, field: &str) -> (r: Result<Vec<Value>, String>)
        requires
            self.wf(),
        ensures
            match self.values_error(*kind, field@) {
                Some(e) => r matches Err(x) && x@ == e,
                None => r matches Ok(vs) && values_increase(value_views(vs@)) && forall|v: ValueV| #[trigger] value_views(
                    vs@,
                ).contains(v) <==> self@.index.keys.contains((field@, v)),
            },
    {
        self.datastore.values(kind, field)
    }

    /// The texts of the values ever found in a field (see
    /// [`crate::bql::value_text`]), in increasing order of the values.
    pub fn values_as_string(&self, kind: &EntityKind, field: &str) -> (r: Result<Vec<String>, String>)
        requires
            self.wf(),
        ensures
            match self.values_error(*kind, field@) {
                Some(e) => r matches Err(x) && x@ == e,
                None => r matches Ok(ts) && exists|vs: Seq<ValueV>| values_increase(vs) && (forall|v: ValueV| #[trigger] vs.contains(v)
                    <==> self@.index.keys.contains((field@, v))) && crate::json::string_views(ts@) == value_texts(vs),
            },
    {
        let vs = match self.values(kind, field) {
            Ok(vs) => vs,
            Err(e) => return Err(e),
        };
        let mut out: Vec<String> = Vec::new();
        let n = vs.len();
        let ghost vv = value_views(vs@);
        for i in 0..n
            invariant
                n == vs@.len(),
                vv == value_views(vs@),
                crate::json::string_views(out@) == value_texts(vv.take(i as int)),
        {
            assert(vv.take(i + 1).drop_last() =~= vv.take(i as int));
            assert(vv.take(i + 1).last() == vs@[i as int]@);
            let ghost before = crate::json::string_views(out@);
            match vs[i].to_text() {
                Some(t) => {
                    out.push(t);
                    assert(crate::json::string_views(out@) =~= before.push(value_text(vs@[i as int]@)->0));
                },
                None => {},
            }
        }
        assert(vv.take(n as int) =~= vv);
        Ok(out)
    }

    /// The truths of the values ever found in a field (see
    /// [`crate::bql::value_bool`]), in increasing order of the values.
    pub fn values_as_bool(&self, kind: &EntityKind, field: &str) -> (r: Result<Vec<bool>, String>)
        requires
            self.wf(),
        ensures
            match self.values_error(*kind, field@) {
                Some(e) => r matches Err(x) && x@ == e,
                None => r matches Ok(bs) && exists|vs: Seq<ValueV>| values_increase(vs) && (forall|v: ValueV| #[trigger] vs.contains(v)
                    <==> self@.index.keys.contains((field@, v))) && bs@ == value_bools(vs),
            },
    {
        let vs = match self.values(kind, field) {
            Ok(vs) => vs,
            Err(e) => return Err(e),
        };
        let mut out: Vec<bool> = Vec::new();
        let n = vs.len();
        let ghost vv = value_views(vs@);
        for i in 0..n
            invariant
                n == vs@.len(),
                vv == value_views(vs@),
                out@ == value_bools(vv.take(i as int)),
        {
            assert(vv.take(i + 1).drop_last() =~= vv.take(i as int));
            assert(vv.take(i + 1).last() == vs@[i as int]@);
            match vs[i].to_bool() {
                Some(b) => out.push(b),
                None => {},
            }
        }
        assert(vv.take(n as int) =~= vv);
        Ok(out)
    }
}

/// A write that succeeds leaves the entity stored under its identifier:
/// reading it back gives what was written.
pub proof fn lemma_read_after_put(m: StoreV, e: EntityV)
    ensures
        match put_op(m, e) {
            None => m.entities.contains_key(e.id().text()) && m.entities[e.id().text()] == e,
            Some(op) => after_set(m, op).1 ==> after_set(m, op).0.entities.contains_key(e.id().text())
                && after_set(m, op).0.entities[e.id().text()] == e,
        },
{
}

/// Writing the same entity again after a successful write calls for no
/// operation.
pub proof fn lemma_put_twice(m: StoreV, e: EntityV)
    ensures
        match put_op(m, e) {
            None => true,
            Some(op) => after_set(m, op).1 ==> put_op(after_set(m, op).0, e) is None,
        },
{
}

/// A deletion that succeeds leaves nothing stored under the identifier,
/// and deleting again calls for no operation.
pub proof fn lemma_del_removes(m: StoreV, id: EntityIDV)
    ensures
        match del_op(m, id) {
            None => !m.entities.contains_key(id.text()),
            Some(op) => after_set(m, op).1 ==> !after_set(m, op).0.entities.contains_key(id.text())
                && del_op(after_set(m, op).0, id) is None,
        },
{
}

} // verus!
