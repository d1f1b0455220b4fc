//! The oldest layout: every entry in one CSV file. Kept so that such a file
//! can still be named and migrated.

use vstd::prelude::*;

verus! {

/// A store that keeps all entries in a single CSV file.
#[derive(Debug, PartialEq, Eq)]
pub struct CsvStore {
    datafile_path: String,
}

impl View for CsvStore {
    type V = Seq<char>;

    /// The path of the file.
    closed spec fn view(&self) -> Seq<char> {
        self.datafile_path@
    }
}

impl Default for CsvStore {
    fn default() -> (r: Self)
        ensures
            r@ == "todust.csv"@,
    {
        CsvStore { datafile_path: "todust.csv".to_owned() }
    }
}

impl CsvStore {
    /// The same store, kept in the file at `datafile_path`.
    pub fn with_datafile_path(self, datafile_path: String) -> (r: Self)
        ensures
            r@ == datafile_path@,
    {
        CsvStore { datafile_path }
    }

    /// The path of the file.
    pub fn datafile_path(&self) -> (r: &String)
        ensures
            r@ == self@,
    {
        &self.datafile_path
    }
}

} // verus!
