//! The engine interface and its two implementations: the log-structured
//! store of this crate, and an adapter over the sled embedded tree store.

use vstd::prelude::*;
use crate::error::{KvsError, Result};
use crate::kv::KvStore;

verus! {

/// A key/value storage engine.
///
/// `inv` is the engine's own well-formedness; every operation requires and
/// preserves it. Removing an absent key is the one semantic error,
/// `KeyNotFound`; other failures are storage errors. An engine whose
/// behavior is a function of its own state declares `obeys_view()` and its
/// operations are then fixed by `as_map`; the sled adapter, whose contents
/// live on disk, does not.
pub trait KvsEngine: Sized {
    spec fn inv(&self) -> bool;

    spec fn obeys_view() -> bool;

    spec fn as_map(&self) -> Map<Seq<char>, Seq<char>>;

    /// Sets the value of `key` to `value`, overwriting any previous value.
    fn set(&mut self, key: String, value: String) -> (r: Result<()>)
        requires
            old(self).inv(),
        ensures
            final(self).inv(),
            r is Err ==> r->Err_0 is Sled,
            Self::obeys_view() ==> r is Ok && final(self).as_map() == old(self).as_map().insert(
                key@,
                value@,
            ),
    ;

    /// Gets the value of `key`, or `None` when the key is absent.
    fn get(&mut self, key: String) -> (r: Result<Option<String>>)
        requires
            old(self).inv(),
        ensures
            final(self).inv(),
            r is Err ==> (r->Err_0 is Utf8 || r->Err_0 is Sled),
            Self::obeys_view() ==> {
                &&& final(self).as_map() == old(self).as_map()
                &&& match r {
                    Ok(Some(v)) => old(self).as_map().contains_key(key@) && v@ == old(
                        self,
                    ).as_map()[key@],
                    Ok(None) => !old(self).as_map().contains_key(key@),
                    Err(_) => false,
                }
            },
    ;

    /// Removes `key`; removing an absent key reports `KeyNotFound`.
    fn remove(&mut self, key: String) -> (r: Result<()>)
        requires
            old(self).inv(),
        ensures
            final(self).inv(),
            r is Err ==> (r->Err_0 == KvsError::KeyNotFound || r->Err_0 is Sled),
            Self::obeys_view() ==> match r {
                Ok(()) => old(self).as_map().contains_key(key@) && final(self).as_map() == old(
                    self,
                ).as_map().remove(key@),
                Err(e) => {
                    &&& e == KvsError::KeyNotFound
                    &&& !old(self).as_map().contains_key(key@)
                    &&& final(self).as_map() == old(self).as_map()
                },
            },
    ;
}

impl KvsEngine for KvStore {
    open spec fn inv(&self) -> bool {
        self.wf()
    }

    open spec fn obeys_view() -> bool {
        true
    }

    open spec fn as_map(&self) -> Map<Seq<char>, Seq<char>> {
        self@
    }

    fn set(&mut self, key: String, value: String) -> (r: Result<()>) {
        KvStore::set(self, key, value)
    }

    fn get(&mut self, key: String) -> (r: Result<Option<String>>) {
        KvStore::get(self, key)
    }

    fn remove(&mut self, key: String) -> (r: Result<()>) {
        KvStore::remove(self, key)
    }
}

/// Declares sled's `Db`, an opaque handle to one on-disk tree store.
#[verifier::external_type_specification]
#[verifier::external_body]
pub struct ExDb(sled::Db);

/// Declares sled's `Error`, carried through and rendered as a message.
#[verifier::external_type_specification]
#[verifier::external_body]
pub struct ExSledError(sled::Error);

/// Relies on sled's `Tree::insert` (reached through `Db`): stores the pair
/// in the tree. The tree's contents live on disk, so nothing is assumed of
/// them beyond success or failure.
#[verifier::external_body]
fn sled_insert(db: &sled::Db, key: &String, value: &String) -> (r: core::result::Result<
    (),
    sled::Error,
>) {
    db.insert(key.as_str(), value.as_bytes()).map(|_| ())
}

/// Relies on sled's `Tree::get`: the stored bytes under the key, if any.
#[verifier::external_body]
fn sled_get(db: &sled::Db, key: &String) -> (r: core::result::Result<
    Option<Vec<u8>>,
    sled::Error,
>) {
    db.get(key.as_str()).map(|ov| ov.map(|iv| iv.as_ref().to_vec()))
}

/// Relies on sled's `Tree::remove`: deletes the key, returning the prior
/// value if one was stored.
#[verifier::external_body]
fn sled_remove(db: &sled::Db, key: &String) -> (r: core::result::Result<
    Option<Vec<u8>>,
    sled::Error,
>) {
    db.remove(key.as_str()).map(|ov| ov.map(|iv| iv.as_ref().to_vec()))
}

/// Relies on sled's `Tree::flush`: synchronously flushes dirty buffers.
#[verifier::external_body]
fn sled_flush(db: &sled::Db) -> (r: core::result::Result<(), sled::Error>) {
    db.flush().map(|_| ())
}

/// Relies on sled's `Error` rendering for a readable message.
#[verifier::external_body]
fn sled_error_message(e: &sled::Error) -> (r: String) {
    format!("{}", e)
}

/// Relies on `String::from_utf8`: it succeeds exactly on valid UTF-8, and
/// then the result is the string those bytes encode; a failure is rendered
/// as its message.
#[verifier::external_body]
fn bytes_to_string(v: Vec<u8>) -> (r: core::result::Result<String, String>)
    ensures
        match r {
            Ok(s) => vstd::utf8::encode_utf8(s@) == v@,
            Err(_) => !vstd::utf8::valid_utf8(v@),
        },
{
    String::from_utf8(v).map_err(|e| format!("{}", e))
}

/// The lookup outcome, decided from what sled handed back: an absent key
/// stays `None`; stored bytes must be UTF-8, anything else is surfaced as a
/// `Utf8` error.
pub fn sled_value_outcome(prior: Option<Vec<u8>>) -> (r: Result<Option<String>>)
    ensures
        match prior {
            None => r == Ok::<Option<String>, KvsError>(None),
            Some(bytes) => match r {
                Ok(Some(s)) => vstd::utf8::encode_utf8(s@) == bytes@,
                Ok(None) => false,
                Err(e) => !vstd::utf8::valid_utf8(bytes@) && e is Utf8,
            },
        },
{
    match prior {
        None => Ok(None),
        Some(bytes) => match bytes_to_string(bytes) {
            Ok(s) => Ok(Some(s)),
            Err(msg) => Err(KvsError::Utf8(msg)),
        },
    }
}

/// The removal outcome, decided from the prior value sled handed back:
/// removing an absent key is the one semantic error.
pub fn sled_removal_outcome(prior: Option<Vec<u8>>) -> (r: Result<()>)
    ensures
        r is Ok <==> prior is Some,
        prior is None ==> r == Err::<(), KvsError>(KvsError::KeyNotFound),
{
    match prior {
        Some(_) => Ok(()),
        None => Err(KvsError::KeyNotFound),
    }
}

/// Relies on sled's `Db` being cheaply duplicable: each worker can hold its
/// own handle to one database.
pub assume_specification[ <sled::Db as Clone>::clone ](db: &sled::Db) -> sled::Db;

/// The adapter that satisfies the engine interface with sled's `Db`.
#[derive(Clone)]
pub struct SledKvsEngine(sled::Db);

impl SledKvsEngine {
    /// Wraps an opened sled database.
    pub fn new(db: sled::Db) -> SledKvsEngine {
        SledKvsEngine(db)
    }
}

impl KvsEngine for SledKvsEngine {
    open spec fn inv(&self) -> bool {
        true
    }

    open spec fn obeys_view() -> bool {
        false
    }

    open spec fn as_map(&self) -> Map<Seq<char>, Seq<char>> {
        Map::empty()
    }

    fn set(&mut self, key: String, value: String) -> (r: Result<()>) {
        match sled_insert(&self.0, &key, &value) {
            Ok(()) => match sled_flush(&self.0) {
                Ok(()) => Ok(()),
                Err(e) => Err(KvsError::Sled(sled_error_message(&e))),
            },
            Err(e) => Err(KvsError::Sled(sled_error_message(&e))),
        }
    }

    fn get(&mut self, key: String) -> (r: Result<Option<String>>) {
        match sled_get(&self.0, &key) {
            Ok(prior) => sled_value_outcome(prior),
            Err(e) => Err(KvsError::Sled(sled_error_message(&e))),
        }
    }

    fn remove(&mut self, key: String) -> (r: Result<()>) {
        match sled_remove(&self.0, &key) {
            Ok(prior) => match sled_removal_outcome(prior) {
                Ok(()) => match sled_flush(&self.0) {
                    Ok(()) => Ok(()),
                    Err(e) => Err(KvsError::Sled(sled_error_message(&e))),
                },
                Err(e) => Err(e),
            },
            Err(e) => Err(KvsError::Sled(sled_error_message(&e))),
        }
    }
}

} // verus!
