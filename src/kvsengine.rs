use crate::errors::KvsError;
use crate::kvsengine::kvstore::bytes_result;
use vstd::prelude::*;

/// The log-structured store.
pub mod kvstore;

pub use kvstore::KvStore;

verus! {

/// What a storage engine offers its callers. Records are handed over as
/// the bytes of their serialized form.
pub trait KvsEngine: Sized {
    /// The engine's own consistency condition.
    spec fn well_formed(&self) -> bool;

    /// What `get` answers for key `k`.
    spec fn lookup_of(&self, k: Seq<char>) -> Result<Option<Seq<u8>>, KvsError>;

    /// Stores `value` as the record of `key`. Once it has succeeded, `get`
    /// returns `value` for `key` (the empty key is never found), and every
    /// other key that answered without error answers as before.
    fn set(&mut self, key: String, value: Vec<u8>) -> (r: Result<(), KvsError>)
        requires
            old(self).well_formed(),
        ensures
            final(self).well_formed(),
            r is Ok ==> value@.len() > 0,
            r is Ok && key@.len() > 0 ==> final(self).lookup_of(key@) == Ok::<Option<Seq<u8>>, KvsError>(
                Some(value@),
            ),
            r is Ok ==> forall|k: Seq<char>|
                k != key@ && (#[trigger] old(self).lookup_of(k)) is Ok ==> final(self).lookup_of(k) == old(
                    self,
                ).lookup_of(k),
            r is Err ==> *final(self) == *old(self),
    ;

    /// The record of `key`, `None` where there is none. Changes nothing.
    fn get(&mut self, key: String) -> (r: Result<Option<Vec<u8>>, KvsError>)
        requires
            old(self).well_formed(),
        ensures
            final(self).well_formed(),
            *final(self) == *old(self),
            bytes_result(r) == old(self).lookup_of(key@),
    ;

    /// Removes the record of `key`, if there is one: once it has
    /// succeeded, `get` finds nothing for `key`.
    fn remove(&mut self, key: String) -> (r: Result<(), KvsError>)
        requires
            old(self).well_formed(),
        ensures
            final(self).well_formed(),
            r is Ok ==> final(self).lookup_of(key@) == Ok::<Option<Seq<u8>>, KvsError>(None),
            r is Err ==> *final(self) == *old(self),
    ;
}

} // verus!
