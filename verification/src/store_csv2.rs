//! The layout before the sharded index: entry bodies beside one index file
//! for the active entries and one for those that are done. Kept so that such
//! a directory can still be named and migrated.

use crate::order::views;
use vstd::prelude::*;

verus! {

/// A store that keeps its index in `active.csv` and `done.csv`.
#[derive(Debug, PartialEq, Eq)]
pub struct CsvStore {
    datadir: String,
}

impl View for CsvStore {
    type V = Seq<char>;

    /// The path of the data directory.
    closed spec fn view(&self) -> Seq<char> {
        self.datadir@
    }
}

/// The index file of the active entries, below the data directory.
pub open spec fn active_index_file() -> Seq<Seq<char>> {
    seq!["active.csv"@]
}

/// The index file of the entries that are done, below the data directory.
pub open spec fn done_index_file() -> Seq<Seq<char>> {
    seq!["done.csv"@]
}

impl CsvStore {
    /// The store in the directory `datadir`.
    pub fn open(datadir: String) -> (r: Self)
        ensures
            r@ == datadir@,
    {
        CsvStore { datadir }
    }

    /// The path of the data directory.
    pub fn datadir(&self) -> (r: &String)
        ensures
            r@ == self@,
    {
        &self.datadir
    }

    /// The path of the index file of the active entries, below the data
    /// directory.
    pub fn get_active_index_filename(&self) -> (r: Vec<String>)
        ensures
            views(r@) == active_index_file(),
    {
        let mut r: Vec<String> = Vec::new();
        r.push("active.csv".to_owned());
        assert(views(r@) =~= active_index_file());
        r
    }

    /// The path of the index file of the entries that are done, below the
    /// data directory.
    pub fn get_done_index_filename(&self) -> (r: Vec<String>)
        ensures
            views(r@) == done_index_file(),
    {
        let mut r: Vec<String> = Vec::new();
        r.push("done.csv".to_owned());
        assert(views(r@) =~= done_index_file());
        r
    }
}

} // verus!
