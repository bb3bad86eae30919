//! A key-value store of entities by identifier.

use vstd::prelude::*;
use crate::data::{Entity, EntityID, EntityV};
use crate::text::chars_of;

verus! {

/// The entity stored last under key `k` among `s`, if any.
pub open spec fn lookup(s: Seq<EntityV>, k: Seq<char>) -> Option<EntityV>
    decreases s.len(),
{
    if s.len() == 0 {
        None
    } else if s.last().id().text() == k {
        Some(s.last())
    } else {
        lookup(s.drop_last(), k)
    }
}

proof fn lemma_lookup_push(s: Seq<EntityV>, e: EntityV, x: Seq<char>)
    ensures
        lookup(s.push(e), x) == if e.id().text() == x { Some(e) } else { lookup(s, x) },
{
    assert(s.push(e).drop_last() =~= s);
}

/// The values of entities.
pub open spec fn entity_views(s: Seq<Entity>) -> Seq<EntityV> {
    s.map_values(|e: Entity| e@)
}

/// Entities by identifier.
pub struct KvStore {
    db: Vec<Entity>,
}

impl View for KvStore {
    type V = Map<Seq<char>, EntityV>;

    closed spec fn view(&self) -> Map<Seq<char>, EntityV> {
        Map::new(
            |k: Seq<char>| lookup(entity_views(self.db@), k) is Some,
            |k: Seq<char>| lookup(entity_views(self.db@), k)->0,
        )
    }
}

/// An empty store.
pub fn new() -> (r: KvStore)
    ensures
        r@ == Map::<Seq<char>, EntityV>::empty(),
{
    KvStore::new()
}

/// The entries without those under key `k`.
fn without_key(db: &Vec<Entity>, k: &Vec<char>) -> (r: Vec<Entity>)
    ensures
        forall|x: Seq<char>| #[trigger] lookup(entity_views(r@), x) == if x == k@ {
            None
        } else {
            lookup(entity_views(db@), x)
        },
{
    let mut r: Vec<Entity> = Vec::new();
    let n = db.len();
    let ghost s = entity_views(db@);
    for i in 0..n
        invariant
            n == db@.len(),
            s == entity_views(db@),
            forall|x: Seq<char>| #[trigger] lookup(entity_views(r@), x) == if x == k@ {
                None
            } else {
                lookup(s.take(i as int), x)
            },
    {
        let ghost before = entity_views(r@);
        assert(s.take(i + 1).drop_last() =~= s.take(i as int));
        assert(s.take(i + 1).last() == db@[i as int]@);
        let id = chars_of(db[i].id().text().as_str());
        if !crate::text::chars_eq(&id, k) {
            r.push(db[i].duplicate());
            assert(entity_views(r@) =~= before.push(s[i as int]));
        }
        assert forall|x: Seq<char>| #[trigger] lookup(entity_views(r@), x) == if x == k@ {
            None
        } else {
            lookup(s.take(i + 1), x)
        } by {
            lemma_lookup_push(s.take(i as int), s[i as int], x);
            assert(s.take(i + 1) =~= s.take(i as int).push(s[i as int]));
            if entity_views(r@) != before {
                lemma_lookup_push(before, s[i as int], x);
            }
        }
    }
    assert(s.take(n as int) =~= s);
    r
}

impl KvStore {
    /// An empty store.
    pub fn new() -> (r: KvStore)
        ensures
            r@ == Map::<Seq<char>, EntityV>::empty(),
    {
        let r = KvStore { db: Vec::new() };
        assert(r@ =~= Map::<Seq<char>, EntityV>::empty());
        r
    }

    /// Stores the entity under its identifier, in place of what was there.
    pub fn put(&mut self, entity: &Entity) -> (r: Result<(), String>)
        ensures
            r is Ok,
            final(self)@ == old(self)@.insert(entity@.id().text(), entity@),
    {
        let id = chars_of(entity.id().text().as_str());
        let mut db = without_key(&self.db, &id);
        let ghost before = entity_views(db@);
        db.push(entity.duplicate());
        assert(entity_views(db@) =~= before.push(entity@));
        self.db = db;
        assert forall|x: Seq<char>| #[trigger] lookup(entity_views(self.db@), x) == if x == entity@.id().text() {
            Some(entity@)
        } else {
            lookup(entity_views(old(self).db@), x)
        } by {
            lemma_lookup_push(before, entity@, x);
        }
        assert(self@ =~= old(self)@.insert(entity@.id().text(), entity@));
        Ok(())
    }

    /// Takes out what is stored under the identifier.
    pub fn del(&mut self, id: &EntityID) -> (r: Result<(), String>)
        ensures
            r is Ok,
            final(self)@ == old(self)@.remove(id@.text()),
    {
        let k = chars_of(id.text().as_str());
        let db = without_key(&self.db, &k);
        self.db = db;
        assert(self@.dom() =~= old(self)@.remove(id@.text()).dom());
        assert(self@ =~= old(self)@.remove(id@.text()));
        Ok(())
    }

    /// What is stored under the identifier.
    pub fn get(&self, id: &EntityID) -> (r: Option<Entity>)
        ensures
            match r {
                Some(e) => self@.contains_key(id@.text()) && self@[id@.text()] == e@,
                None => !self@.contains_key(id@.text()),
            },
    {
        let k = chars_of(id.text().as_str());
        let n = self.db.len();
        let ghost s = entity_views(self.db@);
        let mut i = n;
        assert(s.take(n as int) =~= s);
        while i > 0
            invariant
                n == self.db@.len(),
                s == entity_views(self.db@),
                i <= n,
                k@ == id@.text(),
                lookup(s, k@) == lookup(s.take(i as int), k@),
            decreases i,
        {
            assert(s.take(i as int).drop_last() =~= s.take(i - 1));
            assert(s.take(i as int).last() == self.db@[i - 1]@);
            let id_i = chars_of(self.db[i - 1].id().text().as_str());
            if crate::text::chars_eq(&id_i, &k) {
                return Some(self.db[i - 1].duplicate());
            }
            i = i - 1;
        }
        assert(s.take(0) =~= Seq::<EntityV>::empty());
        None
    }
}

} // verus!
