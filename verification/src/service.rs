//! The datastore service: the answers to the requests of its clients.

use vstd::prelude::*;
use crate::data::{del_op, put_op, resource_views, resources_of, value_texts, Data, Entity, EntityID, EntityIDV, EntityKind, EntityV, Op};
use crate::datastore::{after_set, stored, MemDatastore, StoreV};
use crate::idset::sorted;
use crate::index::{id_texts, selects, values_increase};
use crate::bql::ValueV;
use crate::json::string_views;
use crate::logic::{kind_name, resource_id_of, FUNCTION_KIND, RUNTIME_CONTAINER_KIND};
use crate::parser::parse_spec;
use crate::query::{request_query_text, Query};
use crate::resource::{
    DelResourceRequest, DelResourceResponse, DelResourcesRequest, GetKindsResponse, GetNamespacesResponse,
    GetResourceRequest, GetResourcesRequest, GetResourcesResponse, GetRevisionsResponse, PutResourceRequest,
    PutResourceResponse, Resource, ResourceV,
};
use crate::text::{chars_of, push_all, push_str, string_from_chars};

verus! {

/// The store after deleting identifiers one after the other, and how many
/// of the deletions succeeded.
pub open spec fn deleted_all(m: StoreV, ids: Seq<EntityIDV>) -> (StoreV, nat)
    decreases ids.len(),
{
    if ids.len() == 0 {
        (m, 0)
    } else {
        let (m1, c) = deleted_all(m, ids.drop_last());
        match del_op(m1, ids.last()) {
            None => (m1, c),
            Some(o) => (after_set(m1, o).0, if after_set(m1, o).1 { c + 1 } else { c }),
        }
    }
}

/// A count as a response's count: the largest one where it does not fit.
pub open spec fn capped(c: nat) -> int {
    if c > i32::MAX {
        i32::MAX as int
    } else {
        c as int
    }
}

/// The texts of identifiers.
pub open spec fn idv_texts(ids: Seq<EntityIDV>) -> Seq<Seq<char>> {
    ids.map_values(|e: EntityIDV| e.text())
}

/// The values of identifiers.
pub open spec fn id_views(ids: Seq<EntityID>) -> Seq<EntityIDV> {
    ids.map_values(|e: EntityID| e@)
}

/// The service over the data of a datastore.
pub struct BDADatastoreService {
    data: Data<MemDatastore>,
}

impl View for BDADatastoreService {
    type V = StoreV;

    closed spec fn view(&self) -> StoreV {
        self.data@
    }
}

impl BDADatastoreService {
    /// The data keeps its invariant.
    pub closed spec fn wf(&self) -> bool {
        self.data.wf() && self.data.reliable()
    }

    /// A service over data.
    pub fn new(data: Data<MemDatastore>) -> (r: BDADatastoreService)
        ensures
            r@ == data@,
            r.wf() == (data.wf() && data.reliable()),
    {
        BDADatastoreService { data }
    }

    /// The texts of the versions resources ever had, in increasing order.
    pub fn get_revisions(&self) -> (r: Result<GetRevisionsResponse, String>)
        requires
            self.wf(),
        ensures
            r matches Ok(resp) && exists|vs: Seq<ValueV>| values_increase(vs) && (forall|v: ValueV| #[trigger] vs.contains(v)
                <==> self@.index.keys.contains((".version"@, v))) && string_views(resp.revisions@) == value_texts(vs),
    {
        match self.data.values_as_string(&EntityKind::Resource, ".version") {
            Ok(revisions) => Ok(GetRevisionsResponse { revisions }),
            Err(e) => Err(e),
        }
    }

    /// The texts of the namespaces resources were ever in, in increasing
    /// order.
    pub fn get_namespaces(&self) -> (r: Result<GetNamespacesResponse, String>)
        requires
            self.wf(),
        ensures
            r matches Ok(resp) && exists|vs: Seq<ValueV>| values_increase(vs) && (forall|v: ValueV| #[trigger] vs.contains(v)
                <==> self@.index.keys.contains((".namespace"@, v))) && string_views(resp.namespaces@) == value_texts(vs),
    {
        match self.data.values_as_string(&EntityKind::Resource, ".namespace") {
            Ok(namespaces) => Ok(GetNamespacesResponse { namespaces }),
            Err(e) => Err(e),
        }
    }

    /// The kind names of resources.
    pub fn get_kinds(&self) -> (r: Result<GetKindsResponse, String>)
        ensures
            r matches Ok(resp) && string_views(resp.kinds@) == seq![FUNCTION_KIND@, RUNTIME_CONTAINER_KIND@],
    {
        let kinds = crate::logic::resource_kinds_iter();
        assert(string_views(kinds@) =~= seq![FUNCTION_KIND@, RUNTIME_CONTAINER_KIND@]);
        Ok(GetKindsResponse { kinds })
    }

    /// The stored resources that a request's filters select (see
    /// [`request_query_text`]), in increasing order of their identifiers;
    /// the error of the query language where the query does not parse.
    pub fn get_resources(&self, request: &GetResourcesRequest) -> (r: Result<GetResourcesResponse, String>)
        requires
            self.wf(),
        ensures
            ({
                let text = request_query_text(request.version@, request.namespaces@, request.kinds@, request.names@, request.bql@)->0;
                match parse_spec(text) {
                    Ok(q) => r matches Ok(resp) && exists|ids: Seq<Seq<char>>| sorted(ids) && (forall|x: Seq<char>| #[trigger] ids.contains(x)
                        <==> selects(self@.index, q, x)) && resource_views(resp.resources@) == resources_of(stored(self@.entities, ids)),
                    Err(_) => r is Err,
                }
            }),
    {
        let query = match Query::from_get_resources_request(request) {
            Ok(q) => q,
            Err(e) => return Err(e),
        };
        proof {
            self.data.lemma_reliable_readable();
        }
        match self.data.resources(&query) {
            Ok(resources) => Ok(GetResourcesResponse { resources }),
            Err(e) => Err(e),
        }
    }

    /// The resources to stream for a request: those [`Self::get_resources`]
    /// answers.
    pub fn stream_resources(&self, request: &GetResourcesRequest) -> (r: Result<Vec<Resource>, String>)
        requires
            self.wf(),
        ensures
            ({
                let text = request_query_text(request.version@, request.namespaces@, request.kinds@, request.names@, request.bql@)->0;
                match parse_spec(text) {
                    Ok(q) => r matches Ok(rs) && exists|ids: Seq<Seq<char>>| sorted(ids) && (forall|x: Seq<char>| #[trigger] ids.contains(x)
                        <==> selects(self@.index, q, x)) && resource_views(rs@) == resources_of(stored(self@.entities, ids)),
                    Err(_) => r is Err,
                }
            }),
    {
        match self.get_resources(request) {
            Ok(resp) => Ok(resp.resources),
            Err(e) => Err(e),
        }
    }

    /// Deletes the resources that a request's filters select, one after
    /// the other in increasing order of their identifiers (see
    /// [`deleted_all`]); a deletion that fails is passed over. Answers how
    /// many were deleted; the error of the query language where the query
    /// does not parse, and then nothing changes.
    pub fn del_resources(&mut self, request: &DelResourcesRequest) -> (r: Result<DelResourceResponse, String>)
        requires
            old(self).wf(),
        ensures
            final(self).wf(),
            ({
                let text = request_query_text(request.version@, request.namespaces@, request.kinds@, request.names@, request.bql@)->0;
                match parse_spec(text) {
                    Ok(q) => r matches Ok(resp) && exists|ids: Seq<EntityIDV>| sorted(idv_texts(ids))
                        && (forall|x: Seq<char>| #[trigger] idv_texts(ids).contains(x) <==> selects(old(self)@.index, q, x))
                        && final(self)@ == deleted_all(old(self)@, ids).0 && resp.updates as int == capped(deleted_all(old(self)@, ids).1),
                    Err(_) => r is Err && final(self)@ == old(self)@,
                }
            }),
    {
        let query = match Query::from_del_resources_request(request) {
            Ok(q) => q,
            Err(e) => return Err(e),
        };
        let ids = match self.data.search(&query) {
            Ok(ids) => ids,
            Err(e) => return Err(e),
        };
        let ghost m0 = self@;
        let ghost iv = id_views(ids@);
        let mut count: u64 = 0;
        let n = ids.len();
        assert(iv.take(0) =~= Seq::<EntityIDV>::empty());
        for i in 0..n
            invariant
                n == ids@.len(),
                iv == id_views(ids@),
                self.wf(),
                count <= i,
                self@ == deleted_all(m0, iv.take(i as int)).0,
                count as nat == deleted_all(m0, iv.take(i as int)).1,
        {
            assert(iv.take(i + 1).drop_last() =~= iv.take(i as int));
            assert(iv.take(i + 1).last() == ids@[i as int]@);
            match self.data.del(&ids[i]) {
                Ok(Some(Op::Delete { .. })) => {
                    count = count + 1;
                },
                _ => {},
            }
        }
        assert(iv.take(n as int) =~= iv);
        assert(idv_texts(iv) =~= id_texts(ids@));
        let updates: i32 = if count > 2147483647 {
            2147483647
        } else {
            count as i32
        };
        Ok(DelResourceResponse { updates })
    }

    /// The resource a request names; an error naming the identifier where
    /// none is stored.
    pub fn get_resource(&self, request: &GetResourceRequest) -> (r: Result<Resource, String>)
        requires
            self.wf(),
        ensures
            ({
                let id = resource_id_of(request.version@, request.namespace@, request.kind@, request.name@);
                match r {
                    Ok(x) => self@.entities.contains_key(id) && self@.entities[id].resource() == x@,
                    Err(e) => !self@.entities.contains_key(id) && e@ == "entity not found: "@ + id,
                }
            }),
    {
        let id = match crate::logic::resource_id_from_get_request(request) {
            Ok(id) => id,
            Err(e) => return Err(e),
        };
        match self.data.get(&EntityID::ResourceID(id.clone())) {
            Ok(Some(Entity::Resource(_, r))) => Ok(r),
            _ => {
                let mut msg: Vec<char> = Vec::new();
                push_str(&mut msg, "entity not found: ");
                push_all(&mut msg, &chars_of(id.as_str()));
                Err(string_from_chars(&msg))
            },
        }
    }

    /// Deletes the resource a request names; answers 1 where it was
    /// deleted and 0 where none was stored.
    pub fn del_resource(&mut self, request: &DelResourceRequest) -> (r: Result<DelResourceResponse, String>)
        requires
            old(self).wf(),
        ensures
            final(self).wf(),
            ({
                let id = EntityIDV::ResourceID(resource_id_of(request.version@, request.namespace@, request.kind@, request.name@));
                match del_op(old(self)@, id) {
                    None => final(self)@ == old(self)@ && (r matches Ok(resp) && resp.updates == 0),
                    Some(o) => final(self)@ == after_set(old(self)@, o).0 && (r is Ok <==> after_set(old(self)@, o).1)
                        && (r matches Ok(resp) ==> resp.updates == 1),
                }
            }),
    {
        let id = match crate::logic::resource_id_from_del_request(request) {
            Ok(id) => id,
            Err(e) => return Err(e),
        };
        match self.data.del(&EntityID::ResourceID(id)) {
            Ok(Some(Op::Delete { .. })) => Ok(DelResourceResponse { updates: 1 }),
            Ok(_) => Ok(DelResourceResponse { updates: 0 }),
            Err(e) => Err(e),
        }
    }

    /// Writes the resource of a request under the identifier built from its
    /// parts, as it is; answers 1 where it was created or updated and 0
    /// where the same resource was stored. An error where the request has no
    /// resource or the resource has no kind name, and then nothing changes.
    pub fn put_resource(&mut self, request: &PutResourceRequest) -> (r: Result<PutResourceResponse, String>)
        requires
            old(self).wf(),
        ensures
            final(self).wf(),
            match request.resource {
                None => (r matches Err(e) && e@ == "put request resource not defined"@) && final(self)@ == old(self)@,
                Some(res) => match kind_name(res@.resource_kind) {
                    None => r is Err && final(self)@ == old(self)@,
                    Some(k) => {
                        let e = EntityV::Resource(
                            EntityIDV::ResourceID(resource_id_of(res@.revision, res@.namespace, k, res@.name)),
                            res@,
                        );
                        match put_op(old(self)@, e) {
                            None => final(self)@ == old(self)@ && (r matches Ok(resp) && resp.updates == 0),
                            Some(o) => final(self)@ == after_set(old(self)@, o).0 && (r is Ok <==> after_set(old(self)@, o).1)
                                && (r matches Ok(resp) ==> resp.updates == 1),
                        }
                    },
                },
            },
    {
        let res = match &request.resource {
            Some(res) => res,
            None => return Err("put request resource not defined".to_owned()),
        };
        let id = match crate::logic::resource_id(res) {
            Ok(id) => id,
            Err(e) => return Err(e),
        };
        let entity = Entity::Resource(EntityID::ResourceID(id), res.duplicate());
        match self.data.put(&entity) {
            Ok(Some(Op::Create { .. })) => Ok(PutResourceResponse { updates: 1 }),
            Ok(Some(Op::Update { .. })) => Ok(PutResourceResponse { updates: 1 }),
            Ok(_) => Ok(PutResourceResponse { updates: 0 }),
            Err(e) => Err(e),
        }
    }
}

/// A resource written through the service is what a read of its parts
/// gives back: stored under the identifier of its version, namespace,
/// kind name and name, where the write succeeds.
pub proof fn lemma_get_after_put_resource(m: StoreV, res: ResourceV, k: Seq<char>)
    requires
        kind_name(res.resource_kind) == Some(k),
    ensures
        ({
            let id = resource_id_of(res.revision, res.namespace, k, res.name);
            let e = EntityV::Resource(EntityIDV::ResourceID(id), res);
            match put_op(m, e) {
                None => m.entities.contains_key(id) && m.entities[id].resource() == res,
                Some(o) => after_set(m, o).1 ==> after_set(m, o).0.entities.contains_key(id) && after_set(m, o).0.entities[id].resource()
                    == res,
            }
        }),
{
    let id = resource_id_of(res.revision, res.namespace, k, res.name);
    let e = EntityV::Resource(EntityIDV::ResourceID(id), res);
    crate::data::lemma_read_after_put(m, e);
}

} // verus!
