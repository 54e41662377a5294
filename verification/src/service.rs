use vstd::prelude::*;

use crate::cache::{RequestCache, cache_consistent};
use crate::store::MappingStore;

verus! {

/// Everything the long-running web front end serves from: the snapshot
/// store the refresh task writes and the response cache the request
/// handlers share.
pub struct ServiceState {
    pub store: MappingStore,
    pub cache: RequestCache,
}

impl ServiceState {
    pub open spec fn inv(&self) -> bool {
        &&& self.store.inv()
        &&& cache_consistent(&self.cache, &self.store)
    }
}

/// Assembles the initial serving state the web front end mounts: an
/// Uninitialized store that answers with the empty report until the first
/// build lands, and an empty response cache in step with it.
pub fn rocket() -> (r: ServiceState)
    ensures
        r.inv(),
        !r.store.is_ready(),
        r.store.generation == 0,
        r.cache.generation == 0,
        r.cache.entries@.len() == 0,
{
    ServiceState { store: MappingStore::new(), cache: RequestCache::new() }
}

} // verus!
