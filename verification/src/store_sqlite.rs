//! The layout that kept every entry in one SQLite database. Kept so that
//! such a file can still be named and migrated.

use vstd::prelude::*;

verus! {

/// A store that keeps all entries in a single SQLite database file.
#[derive(Debug, PartialEq, Eq)]
pub struct SqliteStore {
    datafile_path: String,
}

impl View for SqliteStore {
    type V = Seq<char>;

    /// The path of the database file.
    closed spec fn view(&self) -> Seq<char> {
        self.datafile_path@
    }
}

impl Default for SqliteStore {
    fn default() -> (r: Self)
        ensures
            r@ == "todust.sqlite"@,
    {
        SqliteStore { datafile_path: "todust.sqlite".to_owned() }
    }
}

impl SqliteStore {
    /// The same store, kept in the database file at `datafile_path`.
    pub fn with_datafile_path(self, datafile_path: String) -> (r: Self)
        ensures
            r@ == datafile_path@,
    {
        SqliteStore { datafile_path }
    }

    /// The path of the database file.
    pub fn datafile_path(&self) -> (r: &String)
        ensures
            r@ == self@,
    {
        &self.datafile_path
    }
}

} // verus!
