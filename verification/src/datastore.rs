//! An in-memory datastore: the entities by identifier and their index; and
//! the operations that decide how a write changes it.

use vstd::prelude::*;
use crate::bql::{normal, value_views, BqlV, Value, ValueV};
use crate::data::{Datastore, Entity, EntityID, EntityIDV, EntityKind, EntityV, Op, OpV};
use crate::idset::sorted;
use crate::index::{id_texts, indexed, prefix_names, selects, unindexed, values_increase, Index, IndexV};
use crate::json::{field_name, field_values, FieldValueV};
use crate::kvstore::KvStore;
use crate::query::Query;
use crate::resource::{kind_error, resource_json};

verus! {

/// The mathematical value of a [`MemDatastore`]: the stored entities by
/// identifier text, and the index.
pub struct StoreV {
    pub entities: Map<Seq<char>, EntityV>,
    pub index: IndexV,
}

/// The field values an entity is indexed by; none when its resource has no
/// JSON form.
pub open spec fn entity_fields(e: EntityV) -> Option<Seq<FieldValueV>> {
    match resource_json(e.resource()) {
        Some(j) => Some(field_values(Seq::empty(), j)),
        None => None,
    }
}

/// The store after an operation, and whether it succeeded. A creation
/// stores the entity and indexes it; an update takes the old entity out of
/// the index, stores the new one and indexes it; a deletion takes the old
/// entity out of the index and then out of the store. Each step that
/// indexes fails when the entity's resource has no JSON form, and the
/// steps after it are not taken.
pub open spec fn after_set(m: StoreV, op: OpV) -> (StoreV, bool) {
    match op {
        OpV::Create { new } => {
            let entities = m.entities.insert(new.id().text(), new);
            match entity_fields(new) {
                Some(f) => (StoreV { entities, index: indexed(m.index, new.id().text(), f) }, true),
                None => (StoreV { entities, index: m.index }, false),
            }
        },
        OpV::Update { new, old } => match entity_fields(old) {
            None => (m, false),
            Some(fo) => {
                let index = unindexed(m.index, old.id().text(), fo);
                let entities = m.entities.insert(new.id().text(), new);
                match entity_fields(new) {
                    Some(f) => (StoreV { entities, index: indexed(index, new.id().text(), f) }, true),
                    None => (StoreV { entities, index }, false),
                }
            },
        },
        OpV::Delete { id, old } => match entity_fields(old) {
            None => (m, false),
            Some(fo) => (
                StoreV { entities: m.entities.remove(id.text()), index: unindexed(m.index, old.id().text(), fo) },
                true,
            ),
        },
    }
}

/// The stored entities of identifiers, in their order, skipping those
/// that are not stored.
pub open spec fn stored(entities: Map<Seq<char>, EntityV>, ids: Seq<Seq<char>>) -> Seq<EntityV>
    decreases ids.len(),
{
    if ids.len() == 0 {
        Seq::empty()
    } else {
        let rest = stored(entities, ids.drop_last());
        if entities.contains_key(ids.last()) {
            rest.push(entities[ids.last()])
        } else {
            rest
        }
    }
}

/// The values of entities.
pub open spec fn entity_views(s: Seq<Entity>) -> Seq<EntityV> {
    s.map_values(|e: Entity| e@)
}

/// Entities by identifier, with their index.
pub struct MemDatastore {
    kvstore: KvStore,
    index: Index,
}

impl View for MemDatastore {
    type V = StoreV;

    closed spec fn view(&self) -> StoreV {
        StoreV { entities: self.kvstore@, index: self.index@ }
    }
}

/// An empty datastore.
pub fn new() -> (r: MemDatastore)
    ensures
        r.wf(),
        r@.entities == Map::<Seq<char>, EntityV>::empty(),
        r@.index.world.is_empty(),
        r@.index.fields.is_empty(),
        r@.index.values.is_empty(),
        r@.index.keys.is_empty(),
{
    MemDatastore::new()
}

impl MemDatastore {
    /// The index keeps its invariant.
    pub closed spec fn wf(&self) -> bool {
        self.index.wf()
    }

    /// An empty datastore.
    pub fn new() -> (r: MemDatastore)
        ensures
            r.wf(),
            r@.entities == Map::<Seq<char>, EntityV>::empty(),
            r@.index.world.is_empty(),
            r@.index.fields.is_empty(),
            r@.index.values.is_empty(),
            r@.index.keys.is_empty(),
    {
        MemDatastore { kvstore: KvStore::new(), index: Index::new() }
    }

    /// The entity stored under the identifier.
    pub fn get(&self, id: &EntityID) -> (r: Result<Option<Entity>, String>)
        ensures
            match r {
                Ok(Some(e)) => self@.entities.contains_key(id@.text()) && self@.entities[id@.text()] == e@,
                Ok(None) => !self@.entities.contains_key(id@.text()),
                Err(_) => false,
            },
    {
        Ok(self.kvstore.get(id))
    }

    /// Performs an operation (see [`after_set`]) and hands it back; the
    /// error of the indexing step that failed, which names a parameter kind
    /// with no name (see [`kind_error`]).
    pub fn set(&mut self, action: Op) -> (r: Result<Op, String>)
        requires
            old(self).wf(),
        ensures
            final(self).wf(),
            final(self)@ == after_set(old(self)@, action@).0,
            r is Ok <==> after_set(old(self)@, action@).1,
            match r {
                Ok(o) => o@ == action@,
                Err(e) => kind_error(e@),
            },
    {
        match &action {
            Op::Create { new } => {
                let _ = self.kvstore.put(new);
                match self.index.index(new) {
                    Ok(_) => {},
                    Err(e) => return Err(e),
                }
            },
            Op::Update { new, old } => {
                match self.index.remove(old) {
                    Ok(_) => {},
                    Err(e) => return Err(e),
                }
                let _ = self.kvstore.put(new);
                match self.index.index(new) {
                    Ok(_) => {},
                    Err(e) => return Err(e),
                }
            },
            Op::Delete { id, old } => {
                match self.index.remove(old) {
                    Ok(_) => {},
                    Err(e) => return Err(e),
                }
                let _ = self.kvstore.del(id);
            },
        }
        Ok(action)
    }

    /// The identifiers of the entities that a query selects, in increasing
    /// order.
    pub fn search(&self, query: &Query) -> (r: Result<Vec<EntityID>, String>)
        requires
            self.wf(),
        ensures
            r matches Ok(ids) && sorted(id_texts(ids@)) && forall|x: Seq<char>| #[trigger] id_texts(ids@).contains(x)
                <==> selects(self@.index, query.ast@, x),
    {
        Ok(self.index.search(&query.kind, &query.ast))
    }

    /// The values ever found in a field, in increasing order.
    pub fn values(&self, kind: &EntityKind, field: &str) -> (r: Result<Vec<Value>, String>)
        requires
            self.wf(),
        ensures
            r matches Ok(vs) && values_increase(value_views(vs@)) && forall|v: ValueV| #[trigger] value_views(vs@).contains(v)
                <==> self@.index.keys.contains((field@, v)),
    {
        Ok(self.index.values(kind, field))
    }
}

impl Datastore for MemDatastore {
    open spec fn store(&self) -> StoreV {
        self@
    }

    open spec fn store_wf(&self) -> bool {
        self.wf()
    }

    open spec fn read_error(&self, id: Seq<char>) -> Option<Seq<char>> {
        None
    }

    open spec fn search_error(&self, kind: EntityKind, ast: BqlV) -> Option<Seq<char>> {
        None
    }

    open spec fn values_error(&self, kind: EntityKind, field: Seq<char>) -> Option<Seq<char>> {
        None
    }

    fn get(&self, id: &EntityID) -> (r: Result<Option<Entity>, String>) {
        MemDatastore::get(self, id)
    }

    fn set(&mut self, action: Op) -> (r: Result<Op, String>) {
        MemDatastore::set(self, action)
    }

    fn search(&self, query: &Query) -> (r: Result<Vec<EntityID>, String>) {
        MemDatastore::search(self, query)
    }

    fn values(&self, kind: &EntityKind, field: &str) -> (r: Result<Vec<Value>, String>) {
        MemDatastore::values(self, kind, field)
    }
}

/// An update re-indexes the entity: where, before, the index held under the
/// identifier only what the old entity gives, the update succeeds and
/// afterwards the index finds under the identifier exactly the values and
/// the fields of the new entity. What only the old entity had is gone.
pub proof fn lemma_update_reindexes(m: StoreV, new: EntityV, old: EntityV)
    requires
        new.id() == old.id(),
        entity_fields(old) is Some,
        entity_fields(new) is Some,
        ({
            let id = old.id().text();
            let fo = entity_fields(old)->0;
            &&& forall|f: Seq<char>, v: ValueV| #[trigger] m.index.values.contains((f, v, id)) ==> exists|i: int|
                0 <= i < fo.len() && f == field_name(#[trigger] fo[i].0) && v == normal(fo[i].1)
            &&& forall|f: Seq<char>| #[trigger] m.index.fields.contains((f, id)) ==> exists|i: int|
                0 <= i < fo.len() && #[trigger] prefix_names(fo[i].0).contains(f)
        }),
    ensures
        ({
            let id = new.id().text();
            let fnew = entity_fields(new)->0;
            let (m1, ok) = after_set(m, OpV::Update { new, old });
            &&& ok
            &&& m1.entities.contains_key(id) && m1.entities[id] == new
            &&& forall|f: Seq<char>, v: ValueV| #[trigger] m1.index.values.contains((f, v, id)) <==> exists|i: int|
                0 <= i < fnew.len() && f == field_name(#[trigger] fnew[i].0) && v == normal(fnew[i].1)
            &&& forall|f: Seq<char>| #[trigger] m1.index.fields.contains((f, id)) <==> exists|i: int|
                0 <= i < fnew.len() && #[trigger] prefix_names(fnew[i].0).contains(f)
        }),
{
    let id = new.id().text();
    let fo = entity_fields(old)->0;
    let fnew = entity_fields(new)->0;
    let m1 = after_set(m, OpV::Update { new, old }).0;
    let mid = unindexed(m.index, id, fo);
    assert(m1.index == indexed(mid, id, fnew));
    assert forall|f: Seq<char>, v: ValueV| #[trigger] m1.index.values.contains((f, v, id)) implies exists|i: int|
        0 <= i < fnew.len() && f == field_name(#[trigger] fnew[i].0) && v == normal(fnew[i].1) by {
        if !crate::index::value_triples_of(id, fnew).contains((f, v, id)) {
            assert(m.index.values.contains((f, v, id)));
            assert(crate::index::value_triples_of(id, fo).contains((f, v, id)));
        }
    }
    assert forall|f: Seq<char>, v: ValueV| (exists|i: int|
        0 <= i < fnew.len() && f == field_name(#[trigger] fnew[i].0) && v == normal(fnew[i].1)) implies #[trigger] m1.index.values.contains((f, v, id)) by {
        assert(crate::index::value_triples_of(id, fnew).contains((f, v, id)));
    }
    assert forall|f: Seq<char>| #[trigger] m1.index.fields.contains((f, id)) implies exists|i: int|
        0 <= i < fnew.len() && #[trigger] prefix_names(fnew[i].0).contains(f) by {
        if !crate::index::field_pairs_of(id, fnew).contains((f, id)) {
            assert(m.index.fields.contains((f, id)));
            let i = choose|i: int| 0 <= i < fo.len() && #[trigger] prefix_names(fo[i].0).contains(f);
            let p = (f, id);
            assert(p.1 == id && 0 <= i < fo.len() && prefix_names(fo[i].0).contains(p.0));
            assert(crate::index::field_pairs_of(id, fo).contains(p));
        }
    }
    assert forall|f: Seq<char>| (exists|i: int|
        0 <= i < fnew.len() && #[trigger] prefix_names(fnew[i].0).contains(f)) implies #[trigger] m1.index.fields.contains((f, id)) by {
        let i = choose|i: int| 0 <= i < fnew.len() && #[trigger] prefix_names(fnew[i].0).contains(f);
        let p = (f, id);
        assert(p.1 == id && 0 <= i < fnew.len() && prefix_names(fnew[i].0).contains(p.0));
        assert(crate::index::field_pairs_of(id, fnew).contains(p));
    }
}

/// A deletion takes the entity out: where, before, the index held under the
/// identifier only what the stored entity gives, the deletion succeeds and
/// afterwards nothing is stored under the identifier and the index finds no
/// value and no field under it.
pub proof fn lemma_delete_unindexes(m: StoreV, id: EntityIDV, old: EntityV)
    requires
        old.id() == id,
        entity_fields(old) is Some,
        ({
            let fo = entity_fields(old)->0;
            &&& forall|f: Seq<char>, v: ValueV| #[trigger] m.index.values.contains((f, v, id.text())) ==> exists|i: int|
                0 <= i < fo.len() && f == field_name(#[trigger] fo[i].0) && v == normal(fo[i].1)
            &&& forall|f: Seq<char>| #[trigger] m.index.fields.contains((f, id.text())) ==> exists|i: int|
                0 <= i < fo.len() && #[trigger] prefix_names(fo[i].0).contains(f)
        }),
    ensures
        ({
            let (m1, ok) = after_set(m, OpV::Delete { id, old });
            &&& ok
            &&& !m1.entities.contains_key(id.text())
            &&& forall|f: Seq<char>, v: ValueV| !(#[trigger] m1.index.values.contains((f, v, id.text())))
            &&& forall|f: Seq<char>| !(#[trigger] m1.index.fields.contains((f, id.text())))
        }),
{
    let x = id.text();
    let fo = entity_fields(old)->0;
    let m1 = after_set(m, OpV::Delete { id, old }).0;
    assert(m1.index == unindexed(m.index, x, fo));
    assert forall|f: Seq<char>, v: ValueV| !(#[trigger] m1.index.values.contains((f, v, x))) by {
        if m.index.values.contains((f, v, x)) {
            assert(crate::index::value_triples_of(x, fo).contains((f, v, x)));
        }
    }
    assert forall|f: Seq<char>| !(#[trigger] m1.index.fields.contains((f, x))) by {
        if m.index.fields.contains((f, x)) {
            let i = choose|i: int| 0 <= i < fo.len() && #[trigger] prefix_names(fo[i].0).contains(f);
            let p = (f, x);
            assert(p.1 == x && 0 <= i < fo.len() && prefix_names(fo[i].0).contains(p.0));
            assert(crate::index::field_pairs_of(x, fo).contains(p));
        }
    }
}

/// A creation stores and indexes the entity: where, before, the index held
/// nothing under the identifier, the creation succeeds when the entity has
/// a JSON form, and afterwards the entity is stored and the index finds
/// under its identifier exactly its values and its fields.
pub proof fn lemma_create_indexes(m: StoreV, new: EntityV)
    requires
        entity_fields(new) is Some,
        forall|f: Seq<char>, v: ValueV| !(#[trigger] m.index.values.contains((f, v, new.id().text()))),
        forall|f: Seq<char>| !(#[trigger] m.index.fields.contains((f, new.id().text()))),
    ensures
        ({
            let id = new.id().text();
            let fnew = entity_fields(new)->0;
            let (m1, ok) = after_set(m, OpV::Create { new });
            &&& ok
            &&& m1.entities.contains_key(id) && m1.entities[id] == new
            &&& forall|f: Seq<char>, v: ValueV| #[trigger] m1.index.values.contains((f, v, id)) <==> exists|i: int|
                0 <= i < fnew.len() && f == field_name(#[trigger] fnew[i].0) && v == normal(fnew[i].1)
            &&& forall|f: Seq<char>| #[trigger] m1.index.fields.contains((f, id)) <==> exists|i: int|
                0 <= i < fnew.len() && #[trigger] prefix_names(fnew[i].0).contains(f)
        }),
{
    let id = new.id().text();
    let fnew = entity_fields(new)->0;
    let m1 = after_set(m, OpV::Create { new }).0;
    assert(m1.index == indexed(m.index, id, fnew));
    assert forall|f: Seq<char>, v: ValueV| (exists|i: int|
        0 <= i < fnew.len() && f == field_name(#[trigger] fnew[i].0) && v == normal(fnew[i].1)) implies #[trigger] m1.index.values.contains((f, v, id)) by {
        assert(crate::index::value_triples_of(id, fnew).contains((f, v, id)));
    }
    assert forall|f: Seq<char>| (exists|i: int|
        0 <= i < fnew.len() && #[trigger] prefix_names(fnew[i].0).contains(f)) implies #[trigger] m1.index.fields.contains((f, id)) by {
        let i = choose|i: int| 0 <= i < fnew.len() && #[trigger] prefix_names(fnew[i].0).contains(f);
        let p = (f, id);
        assert(p.1 == id && 0 <= i < fnew.len() && prefix_names(fnew[i].0).contains(p.0));
        assert(crate::index::field_pairs_of(id, fnew).contains(p));
    }
}

} // verus!
