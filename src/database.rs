//! The SQL record store of the older resolution path, as the library sees
//! it: the file and the mode it is opened in. The engine handle itself is
//! held by the caller that performs the open.
use vstd::prelude::*;

verus! {

/// Open for reading and writing.
pub const SQLITE_OPEN_READWRITE: i32 = 2;

/// Create the file when it does not exist.
pub const SQLITE_OPEN_CREATE: i32 = 4;

/// A record store to open: its file name and open flags.
#[derive(Debug)]
pub struct Database {
    pub name: String,
    pub flags: i32,
}

impl Database {
    /// A store that must already exist, opened for reading and writing.
    pub fn open_existing(name: &str) -> (r: Database)
        ensures
            r.name@ == name@,
            r.flags == SQLITE_OPEN_READWRITE,
    {
        Database { name: name.to_owned(), flags: SQLITE_OPEN_READWRITE }
    }

    /// A store opened for reading and writing, created when missing.
    pub fn open_or_create(name: &str) -> (r: Database)
        ensures
            r.name@ == name@,
            r.flags == SQLITE_OPEN_READWRITE | SQLITE_OPEN_CREATE,
            r.flags == 6,
    {
        let flags = SQLITE_OPEN_READWRITE | SQLITE_OPEN_CREATE;
        assert(SQLITE_OPEN_READWRITE | SQLITE_OPEN_CREATE == 6i32) by (bit_vector);
        Database { name: name.to_owned(), flags }
    }
}

} // verus!
