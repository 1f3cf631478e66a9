//! What the HTTP layer asks of a cache.

use vstd::prelude::*;
use crate::cache::FastbuCache;
use crate::cluster_cache::{lookup, option_view};
use crate::error::ClusterError;

verus! {

/// A cache as the API sees it: values are read and set by key.
pub trait ApiCache {
    /// The cache is in order and may be used.
    spec fn ready(&self) -> bool;

    /// What the cache holds.
    spec fn stored(&self) -> Map<Seq<char>, Seq<char>>;

    /// The value under `key`, if there is one.
    fn get(&self, key: &str) -> (value: Option<String>)
        requires
            self.ready(),
        ensures
            option_view(value) == lookup(self.stored(), key@),
    ;

    /// Sets the value under `key`. Where that succeeds, the value is held
    /// under the key and nothing else has changed; where it fails, the cache
    /// is as it was.
    fn set(&mut self, key: String, value: String) -> (done: Result<(), ClusterError>)
        requires
            old(self).ready(),
        ensures
            final(self).ready(),
            final(self).stored() == match done {
                Ok(_) => old(self).stored().insert(key@, value@),
                Err(_) => old(self).stored(),
            },
    ;
}

impl ApiCache for FastbuCache {
    open spec fn ready(&self) -> bool {
        self.wf()
    }

    open spec fn stored(&self) -> Map<Seq<char>, Seq<char>> {
        self@
    }

    fn get(&self, key: &str) -> (value: Option<String>) {
        FastbuCache::get(self, key)
    }

    /// Setting a value in the local store always succeeds.
    fn set(&mut self, key: String, value: String) -> (done: Result<(), ClusterError>)
        ensures
            done is Ok,
    {
        self.insert(key, value);
        Ok(())
    }
}

} // verus!
