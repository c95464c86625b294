//! The backend-agnostic engine interface.
//!
//! The connection handler is written against this capability set
//! `{get, set, remove}` only, never against a concrete engine, so the
//! backend is selectable at startup.  `KvStore` implements it here; an
//! embedding program may implement it for an alternative backend.

use crate::kvstore::{spec_get, KvError, KvStore};
use vstd::prelude::*;

verus! {

/// The capability contract of a storage engine: a key-to-value state,
/// read by `tget`, changed by `tset` and `tremove`.
pub trait KvEngine: Sized {
    /// The key-to-value mapping the engine currently holds.  The default
    /// is for backends outside this crate, of which nothing is proved.
    open spec fn kv_state(&self) -> Map<Seq<char>, Seq<char>> {
        Map::empty()
    }

    /// The engine's internal invariant.  The default is for backends
    /// outside this crate, of which nothing is proved.
    open spec fn kv_inv(&self) -> bool {
        true
    }

    /// Read the current value of `key`, without writing.
    fn tget(&self, key: String) -> (r: Result<Option<String>, KvError>)
        requires
            self.kv_inv(),
        ensures
            r matches Ok(v) ==> match v {
                Some(s) => spec_get(self.kv_state(), key@) == Some(s@),
                None => spec_get(self.kv_state(), key@) is None,
            },
    ;

    /// Bind `key` to `val`.
    fn tset(&mut self, key: String, val: String) -> (r: Result<(), KvError>)
        requires
            old(self).kv_inv(),
        ensures
            final(self).kv_inv(),
            r is Ok ==> final(self).kv_state() == old(self).kv_state().insert(key@, val@),
            r is Err ==> final(self).kv_state() == old(self).kv_state(),
    ;

    /// Delete `key`; `KeyNotFound` when it has no current value.
    fn tremove(&mut self, key: String) -> (r: Result<(), KvError>)
        requires
            old(self).kv_inv(),
        ensures
            final(self).kv_inv(),
            r is Ok ==> old(self).kv_state().contains_key(key@) && final(self).kv_state()
                == old(self).kv_state().remove(key@),
            r == Err::<(), KvError>(KvError::KeyNotFound) ==> !old(self).kv_state().contains_key(
                key@,
            ),
            r is Err ==> final(self).kv_state() == old(self).kv_state(),
    ;
}

impl KvEngine for KvStore {
    open spec fn kv_state(&self) -> Map<Seq<char>, Seq<char>> {
        self@
    }

    open spec fn kv_inv(&self) -> bool {
        self.wf()
    }

    fn tget(&self, key: String) -> (r: Result<Option<String>, KvError>)
        ensures
            r is Ok,
    {
        self.get(key)
    }

    fn tset(&mut self, key: String, val: String) -> (r: Result<(), KvError>)
        ensures
            r is Ok,
    {
        self.set(key, val)
    }

    fn tremove(&mut self, key: String) -> (r: Result<(), KvError>)
        ensures
            r is Ok <==> old(self)@.contains_key(key@),
            r is Err ==> r == Err::<(), KvError>(KvError::KeyNotFound),
    {
        self.remove(key)
    }
}

} // verus!
