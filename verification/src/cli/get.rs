//! The `get` command: lists the resources that filters select.

use vstd::prelude::*;
use crate::resource::GetResourcesRequest;

verus! {

/// The arguments of `get`: comma separated kinds and names, a namespace, a
/// version and a query text.
#[derive(Debug, Clone, PartialEq)]
pub struct Config {
    pub kinds: String,
    pub names: String,
    pub namespace: String,
    pub version: String,
    pub bql: String,
    pub debug: bool,
}

/// The request for the resources that the arguments of `get` select.
pub fn get_resources_request_from_get_cfg(cfg: &Config) -> (r: GetResourcesRequest)
    ensures
        r.version@ == cfg.version@,
        r.namespaces@ == cfg.namespace@,
        r.names@ == cfg.names@,
        r.kinds@ == cfg.kinds@,
        r.bql@ == cfg.bql@,
{
    GetResourcesRequest {
        version: cfg.version.clone(),
        namespaces: cfg.namespace.clone(),
        names: cfg.names.clone(),
        kinds: cfg.kinds.clone(),
        bql: cfg.bql.clone(),
    }
}

} // verus!
