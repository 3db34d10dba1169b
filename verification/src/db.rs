//! The hash cache: a persistent map from path to (mtime, size, digest),
//! kept in a sqlite file.
//!
//! A cache hit whose stored mtime equals the file's current mtime lets the
//! worker skip rehashing.  The store is modelled as a map from the path to
//! the stored row; the trusted wrappers around rusqlite state how each
//! statement changes it.  The model tracks this handle's view of the
//! database file; it is sound while no other writer changes the file.

use vstd::prelude::*;

use crate::digest::{blake3_digest, hash_bytes, DIGEST_LEN};

verus! {

/// One row of the cache.
#[derive(Debug)]
pub struct Entry {
    /// The path of the file, the primary key.
    pub path: String,
    /// The last-modification time that was current when the row was
    /// written.
    pub mtime: i64,
    /// The digest of the file's content at that time.
    pub hash: Vec<u8>,
    /// The size of the file at that time.
    pub size: u64,
}

/// What went wrong with a cache operation.  A busy store is retried; any
/// other failure is reported as it is.
#[derive(Debug, Clone, Copy, PartialEq, Eq, Structural)]
pub enum DbError {
    /// The store was busy; the statement did not run.
    Busy,
    /// The statement failed; the store is unchanged.
    Failed,
}

#[verifier::external_type_specification]
#[verifier::external_body]
pub struct ExConnection(rusqlite::Connection);

/// A sqlite database which stores [`Entry`] rows, one per path.  Its view
/// is the map of stored rows; the fields stay private so that this
/// module's trusted wrappers are the only way to learn or change it.
pub struct HashDb {
    /// The connection to the database file.
    conn: rusqlite::Connection,
    /// The rows of the store: path to (mtime, size, hash).
    model: Ghost<Map<Seq<char>, (i64, u64, Seq<u8>)>>,
}

impl View for HashDb {
    type V = Map<Seq<char>, (i64, u64, Seq<u8>)>;

    closed spec fn view(&self) -> Map<Seq<char>, (i64, u64, Seq<u8>)> {
        self.model@
    }
}

/// Relies on `rusqlite::Connection::open` and `Connection::execute`: it
/// opens (creating it if missing) the database file at `path` and makes
/// sure the table exists.
#[verifier::external_body]
fn open_store(path: &str) -> (r: Result<rusqlite::Connection, DbError>) {
    let conn = match rusqlite::Connection::open(path) {
        Ok(c) => c,
        Err(_) => {
            return Err(DbError::Failed);
        },
    };
    let made = conn.execute(
        "CREATE TABLE IF NOT EXISTS path (
    path  BLOB PRIMARY KEY,
    mtime INTEGER NOT NULL,
    hash  BLOB NOT NULL,
    size  INTEGER NOT NULL
)",
        (),
    );
    match made {
        Ok(_) => Ok(conn),
        Err(_) => Err(DbError::Failed),
    }
}

impl HashDb {
    /// Open a connection to the store at `path`.  The model starts out
    /// unconstrained: nothing is known of the rows the file already holds
    /// until they are read or written through this handle.
    pub fn try_new(path: &str) -> (r: Result<HashDb, DbError>) {
        match open_store(path) {
            Ok(conn) => Ok(HashDb { conn, model: Ghost(vstd::pervasive::arbitrary()) }),
            Err(e) => Err(e),
        }
    }

    /// Relies on `rusqlite::Connection::execute` and sqlite's upsert: on
    /// success the row for the path is inserted or replaced, atomically,
    /// and the reported change count is that one row; on failure (busy
    /// included) the statement did not change the store.
    #[verifier::external_body]
    fn insert_raw(&mut self, path: &str, mtime: i64, hash: &Vec<u8>, size: u64) -> (r: Result<
        usize,
        DbError,
    >)
        ensures
            r is Ok ==> final(self)@ == old(self)@.insert(
                path@,
                (mtime, size, hash@),
            ),
            r matches Ok(n) ==> n == 1,
            r is Err ==> final(self)@ == old(self)@,
    {
        let res = self.conn.execute(
            "INSERT INTO path (path, mtime, hash, size)
VALUES (?1, ?2, ?3, ?4)
ON CONFLICT (path)
DO UPDATE SET mtime = excluded.mtime, hash = excluded.hash, size = excluded.size",
            (path.as_bytes(), mtime, hash.as_slice(), size as i64),
        );
        match res {
            Ok(n) => Ok(n),
            Err(rusqlite::Error::SqliteFailure(f, _)) if f.code
                == rusqlite::ffi::ErrorCode::DatabaseBusy => Err(DbError::Busy),
            Err(_) => Err(DbError::Failed),
        }
    }

    /// Relies on `rusqlite::Connection::execute`: on success the row for
    /// the path, if any, is gone, and the reported change count says
    /// whether one was; on failure the store is unchanged.
    #[verifier::external_body]
    fn remove_raw(&mut self, path: &str) -> (r: Result<usize, DbError>)
        ensures
            r is Ok ==> final(self)@ == old(self)@.remove(path@),
            r matches Ok(n) ==> n == (if old(self)@.dom().contains(path@) {
                1int
            } else {
                0int
            }),
            r is Err ==> final(self)@ == old(self)@,
    {
        let res = self.conn.execute(
            "DELETE FROM path WHERE path.path = ?1",
            (path.as_bytes(),),
        );
        match res {
            Ok(n) => Ok(n),
            Err(rusqlite::Error::SqliteFailure(f, _)) if f.code
                == rusqlite::ffi::ErrorCode::DatabaseBusy => Err(DbError::Busy),
            Err(_) => Err(DbError::Failed),
        }
    }

    /// Relies on `rusqlite::Connection::query_row`: on success it returns
    /// the row stored for the path, or `None` if the store has none, and
    /// changes nothing.
    #[verifier::external_body]
    fn select_raw(&self, path: &str) -> (r: Result<Option<(i64, Vec<u8>, u64)>, DbError>)
        ensures
            r matches Ok(Some(t)) ==> self@.dom().contains(path@) && t.0
                == self@[path@].0 && t.1@ == self@[path@].2 && t.2
                == self@[path@].1,
            r matches Ok(None) ==> !self@.dom().contains(path@),
    {
        let res = self.conn.query_row(
            "SELECT mtime, hash, size FROM path WHERE path = ?1",
            (path.as_bytes(),),
            |row| Ok((row.get(0)?, row.get(1)?, row.get::<_, i64>(2)? as u64)),
        );
        match res {
            Ok(t) => Ok(Some(t)),
            Err(rusqlite::Error::QueryReturnedNoRows) => Ok(None),
            Err(rusqlite::Error::SqliteFailure(f, _)) if f.code
                == rusqlite::ffi::ErrorCode::DatabaseBusy => Err(DbError::Busy),
            Err(_) => Err(DbError::Failed),
        }
    }

    /// Insert or replace the row for `entry.path`, retrying while the
    /// store is busy.  `Busy` comes back only if the store stayed busy
    /// through every retry the bounded loop allows.
    #[verifier::loop_isolation(false)]
    pub fn insert(&mut self, entry: &Entry) -> (r: Result<usize, DbError>)
        requires
            entry.hash@.len() == DIGEST_LEN,
        ensures
            r is Ok ==> final(self)@ == old(self)@.insert(
                entry.path@,
                (entry.mtime, entry.size, entry.hash@),
            ),
            r matches Ok(n) ==> n == 1,
            r is Err ==> final(self)@ == old(self)@,
    {
        // Bounds the retry loop for the termination checker; a busy store
        // is retried this many times before the busy error is surfaced.
        let mut fuel: u64 = u64::MAX;
        while fuel > 0
            invariant
                self@ == old(self)@,
            decreases fuel,
        {
            fuel = fuel - 1;
            let r = self.insert_raw(entry.path.as_str(), entry.mtime, &entry.hash, entry.size);
            match r {
                Err(DbError::Busy) => {
                },
                _ => {
                    return r;
                },
            }
        }
        Err(DbError::Busy)
    }

    /// Remove the row for `path` if there is one, retrying while the store
    /// is busy; `Busy` comes back only if the store stayed busy through
    /// every retry the bounded loop allows.  Afterwards the store holds
    /// nothing for the path.
    #[verifier::loop_isolation(false)]
    pub fn remove(&mut self, path: &str) -> (r: Result<usize, DbError>)
        ensures
            r is Ok ==> final(self)@ == old(self)@.remove(path@),
            r is Ok ==> !final(self)@.dom().contains(path@),
            r matches Ok(n) ==> n == (if old(self)@.dom().contains(path@) {
                1int
            } else {
                0int
            }),
            r is Err ==> final(self)@ == old(self)@,
    {
        let mut fuel: u64 = u64::MAX;
        while fuel > 0
            invariant
                self@ == old(self)@,
            decreases fuel,
        {
            fuel = fuel - 1;
            let r = self.remove_raw(path);
            match r {
                Err(DbError::Busy) => {
                },
                _ => {
                    return r;
                },
            }
        }
        Err(DbError::Busy)
    }

    /// Get the row stored for `path`, retrying while the store is busy;
    /// `Busy` comes back only if the store stayed busy through every retry
    /// the bounded loop allows.
    #[verifier::loop_isolation(false)]
    pub fn select(&self, path: &str) -> (r: Result<Option<Entry>, DbError>)
        ensures
            r matches Ok(Some(e)) ==> {
                &&& self@.dom().contains(path@)
                &&& e.path@ == path@
                &&& e.mtime == self@[path@].0
                &&& e.size == self@[path@].1
                &&& e.hash@ == self@[path@].2
            },
            r matches Ok(None) ==> !self@.dom().contains(path@),
    {
        let mut fuel: u64 = u64::MAX;
        while fuel > 0
            decreases fuel,
        {
            fuel = fuel - 1;
            let r = self.select_raw(path);
            match r {
                Err(DbError::Busy) => {
                },
                Err(e) => {
                    return Err(e);
                },
                Ok(None) => {
                    return Ok(None);
                },
                Ok(Some(t)) => {
                    return Ok(
                        Some(Entry { path: path.to_owned(), mtime: t.0, hash: t.1, size: t.2 }),
                    );
                },
            }
        }
        Err(DbError::Busy)
    }
}

/// After a path's row is removed, the store returns nothing for it: a
/// removed file never resurfaces from the cache.
pub proof fn lemma_removed_path_not_cached(
    m: Map<Seq<char>, (i64, u64, Seq<u8>)>,
    p: Seq<char>,
)
    ensures
        !m.remove(p).dom().contains(p),
{
}

/// Whether the store has a usable row for this path: one whose stored
/// mtime equals the current one and whose digest has the right length.
pub open spec fn cache_fresh(
    m: Map<Seq<char>, (i64, u64, Seq<u8>)>,
    p: Seq<char>,
    mtime: i64,
) -> bool {
    &&& m.dom().contains(p)
    &&& m[p].0 == mtime
    &&& m[p].2.len() == DIGEST_LEN
}

/// One worker step over the cache: return the stored size and digest if
/// the row for the path is fresh (its stored mtime equals the current
/// one and its digest is whole), else hash the content, write the row
/// back, and return the new digest.  The flag says whether the content
/// was hashed.
pub fn cached_hash(db: &mut HashDb, path: &str, mtime: i64, content: &Vec<u8>) -> (r: Result<
    (u64, Vec<u8>, bool),
    DbError,
>)
    ensures
        ({
            let m = old(db)@;
            let fresh = cache_fresh(m, path@, mtime);
            &&& (r matches Ok(t) ==> {
                &&& t.2 == !fresh
                &&& t.1@.len() == DIGEST_LEN
                &&& (fresh ==> t.0 == m[path@].1 && t.1@ == m[path@].2 && final(db)@ == m)
                &&& (!fresh ==> t.0 == content@.len() && t.1@ == blake3_digest(content@)
                    && final(db)@ == m.insert(
                    path@,
                    (mtime, content@.len() as u64, blake3_digest(content@)),
                ))
            })
            &&& (r is Err ==> final(db)@ == m)
        }),
{
    let found = db.select(path);
    match found {
        Err(e) => Err(e),
        Ok(Some(e)) => {
            if e.mtime == mtime && e.hash.len() == DIGEST_LEN {
                Ok((e.size, e.hash, false))
            } else {
                let hash = hash_bytes(content.as_slice());
                let size = content.len() as u64;
                let entry = Entry { path: path.to_owned(), mtime, hash, size };
                match db.insert(&entry) {
                    Ok(_) => Ok((size, entry.hash, true)),
                    Err(err) => Err(err),
                }
            }
        },
        Ok(None) => {
            let hash = hash_bytes(content.as_slice());
            let size = content.len() as u64;
            let entry = Entry { path: path.to_owned(), mtime, hash, size };
            match db.insert(&entry) {
                Ok(_) => Ok((size, entry.hash, true)),
                Err(err) => Err(err),
            }
        },
    }
}

} // verus!
