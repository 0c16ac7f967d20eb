//! The engine backed by the sled embedded database.

use vstd::prelude::*;
use vstd::utf8::{decode_utf8, encode_utf8, valid_utf8};

use crate::error::KvsError;

verus! {

#[verifier::external_type_specification]
#[verifier::external_body]
pub struct ExDb(sled::Db);

/// The key-value pairs that a sled database holds.
pub uninterp spec fn db_contents(db: sled::Db) -> Map<Seq<u8>, Seq<u8>>;

/// Relies on sled::open: opens, or creates, the database in directory `path`.
#[verifier::external_body]
fn open_db(path: &str) -> (r: Result<sled::Db, String>) {
    sled::open(path).map_err(|e| e.to_string())
}

/// Relies on sled::Tree::insert (through `Db`'s deref): sets `key` to `value`
/// and gives back the value it replaced.
#[verifier::external_body]
fn db_insert(db: &mut sled::Db, key: &[u8], value: &[u8]) -> (r: Result<Option<Vec<u8>>, String>)
    ensures
        match r {
            Ok(prev) => {
                &&& db_contents(*final(db)) == db_contents(*old(db)).insert(key@, value@)
                &&& match prev {
                    Some(p) => db_contents(*old(db)).contains_key(key@) && p@ == db_contents(
                        *old(db),
                    )[key@],
                    None => !db_contents(*old(db)).contains_key(key@),
                }
            },
            Err(_) => true,
        },
{
    db.insert(key, value).map(|o| o.map(|v| v.to_vec())).map_err(|e| e.to_string())
}

/// Relies on sled::Tree::get: the value of `key`, if it has one.
#[verifier::external_body]
fn db_get(db: &sled::Db, key: &[u8]) -> (r: Result<Option<Vec<u8>>, String>)
    ensures
        match r {
            Ok(Some(v)) => db_contents(*db).contains_key(key@) && v@ == db_contents(*db)[key@],
            Ok(None) => !db_contents(*db).contains_key(key@),
            Err(_) => true,
        },
{
    db.get(key).map(|o| o.map(|v| v.to_vec())).map_err(|e| e.to_string())
}

/// Relies on sled::Tree::remove: drops `key` and gives back its value, if any.
#[verifier::external_body]
fn db_remove(db: &mut sled::Db, key: &[u8]) -> (r: Result<Option<Vec<u8>>, String>)
    ensures
        match r {
            Ok(prev) => {
                &&& db_contents(*final(db)) == db_contents(*old(db)).remove(key@)
                &&& match prev {
                    Some(p) => db_contents(*old(db)).contains_key(key@) && p@ == db_contents(
                        *old(db),
                    )[key@],
                    None => !db_contents(*old(db)).contains_key(key@),
                }
            },
            Err(_) => true,
        },
{
    db.remove(key).map(|o| o.map(|v| v.to_vec())).map_err(|e| e.to_string())
}

/// Relies on sled::Tree::flush: writes the dirty buffers out, and changes no
/// key or value.
#[verifier::external_body]
fn db_flush(db: &mut sled::Db) -> (r: Result<(), String>)
    ensures
        db_contents(*final(db)) == db_contents(*old(db)),
{
    db.flush().map(|_| ()).map_err(|e| e.to_string())
}

/// Relies on String::from_utf8: the text the bytes encode, if they are UTF-8.
#[verifier::external_body]
fn utf8_to_string(b: Vec<u8>) -> (r: Option<String>)
    ensures
        match r {
            Some(s) => valid_utf8(b@) && s@ == decode_utf8(b@),
            None => !valid_utf8(b@),
        },
{
    String::from_utf8(b).ok()
}

/// What `remove` answers once sled has removed `key`: `found` tells whether
/// the key had a value; a key without one is `KeyNotFound`.
pub fn removal_outcome(found: bool, key: String) -> (r: Result<(), KvsError>)
    ensures
        found ==> r is Ok,
        !found ==> r == Err::<(), KvsError>(KvsError::KeyNotFound { key }),
{
    if found {
        Ok(())
    } else {
        Err(KvsError::KeyNotFound { key })
    }
}

/// What `get` answers for the value sled holds for a key, if any: the text of
/// UTF-8 bytes, or an error for bytes that are not UTF-8.
pub fn stored_value(found: Option<Vec<u8>>) -> (r: Result<Option<String>, KvsError>)
    ensures
        match found {
            None => r == Ok::<Option<String>, KvsError>(None),
            Some(b) => if valid_utf8(b@) {
                r matches Ok(Some(s)) && s@ == decode_utf8(b@)
            } else {
                r matches Err(KvsError::Inner(_))
            },
        },
{
    match found {
        None => Ok(None),
        Some(b) => match utf8_to_string(b) {
            Some(s) => Ok(Some(s)),
            None => Err(KvsError::Inner("a stored value is not UTF-8".to_owned())),
        },
    }
}

/// The engine backed by the sled embedded database: keys and values are
/// stored as their UTF-8 bytes, and every change is flushed.
pub struct SledKvsEngine {
    db: sled::Db,
}

impl SledKvsEngine {
    /// The key-value pairs in the database, as bytes.
    pub closed spec fn contents(&self) -> Map<Seq<u8>, Seq<u8>> {
        db_contents(self.db)
    }

    /// Opens the database in directory `path`.
    pub fn open(path: &str) -> (r: Result<SledKvsEngine, KvsError>)
        ensures
            r is Err ==> r matches Err(KvsError::Inner(_)),
    {
        match open_db(path) {
            Ok(db) => Ok(SledKvsEngine { db }),
            Err(e) => Err(KvsError::Inner(e)),
        }
    }

    /// Sets `key` to `value`, and flushes.
    pub fn set(&mut self, key: String, value: String) -> (r: Result<(), KvsError>)
        ensures
            match r {
                Ok(()) => final(self).contents() == old(self).contents().insert(
                    encode_utf8(key@),
                    encode_utf8(value@),
                ),
                Err(e) => e is Inner,
            },
    {
        match db_insert(&mut self.db, key.as_str().as_bytes(), value.as_str().as_bytes()) {
            Ok(_) => {},
            Err(e) => return Err(KvsError::Inner(e)),
        }
        match db_flush(&mut self.db) {
            Ok(()) => Ok(()),
            Err(e) => Err(KvsError::Inner(e)),
        }
    }

    /// The value of `key`, or `None`; a value that is not UTF-8 is an error.
    /// Once sled has answered, the answer is `stored_value` of what it holds.
    pub fn get(&mut self, key: String) -> (r: Result<Option<String>, KvsError>)
        ensures
            final(self).contents() == old(self).contents(),
            r is Ok || (r matches Err(KvsError::Inner(_))),
            old(self).contents().contains_key(encode_utf8(key@)) && !valid_utf8(
                old(self).contents()[encode_utf8(key@)],
            ) ==> r is Err,
            match r {
                Ok(Some(v)) => old(self).contents().contains_key(encode_utf8(key@)) && valid_utf8(
                    old(self).contents()[encode_utf8(key@)],
                ) && v@ == decode_utf8(old(self).contents()[encode_utf8(key@)]),
                Ok(None) => !old(self).contents().contains_key(encode_utf8(key@)),
                Err(e) => e is Inner,
            },
    {
        match db_get(&self.db, key.as_str().as_bytes()) {
            Ok(found) => stored_value(found),
            Err(e) => Err(KvsError::Inner(e)),
        }
    }

    /// Drops `key`, and flushes; a key that is not stored is `KeyNotFound`.
    /// Once sled has removed and flushed, the answer is `removal_outcome` of
    /// whether the key had a value.
    pub fn remove(&mut self, key: String) -> (r: Result<(), KvsError>)
        ensures
            match r {
                Ok(()) => old(self).contents().contains_key(encode_utf8(key@))
                    && final(self).contents() == old(self).contents().remove(encode_utf8(key@)),
                Err(KvsError::KeyNotFound { key: k }) => k@ == key@ && !old(
                    self,
                ).contents().contains_key(encode_utf8(key@)) && final(self).contents() == old(
                    self,
                ).contents(),
                Err(e) => e is Inner,
            },
    {
        let found = match db_remove(&mut self.db, key.as_str().as_bytes()) {
            Ok(prev) => prev.is_some(),
            Err(e) => return Err(KvsError::Inner(e)),
        };
        match db_flush(&mut self.db) {
            Ok(()) => {},
            Err(e) => return Err(KvsError::Inner(e)),
        }
        proof {
            if !found {
                assert(old(self).contents().remove(encode_utf8(key@)) =~= old(self).contents());
            }
        }
        removal_outcome(found, key)
    }
}

} // verus!
