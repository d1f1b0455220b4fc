//! Where things lie below the data directory.
//!
//! ```text
//! .settings.toml                          format version and VCS settings
//! entries/{prefix}/{identity}.txt         entry bodies, by identity prefix
//! index/identifier/{writer}/{day}.csv     per-writer per-day index shards
//! index/index.csv                         compacted index
//! ```

use crate::identity::{format_identity, identity_text, Identity};
use crate::order::views;
use vstd::prelude::*;
use vstd::string::{StrSliceExecFns, StringExecFns};

verus! {

/// The settings file.
pub open spec fn settings_file() -> Seq<Seq<char>> {
    seq![".settings.toml"@]
}

/// The folder of the index.
pub open spec fn index_folder() -> Seq<Seq<char>> {
    seq!["index"@]
}

/// The compacted index file.
pub open spec fn index_file() -> Seq<Seq<char>> {
    seq!["index"@, "index.csv"@]
}

/// The folder that holds one folder of shards per writer.
pub open spec fn shards_folder() -> Seq<Seq<char>> {
    seq!["index"@, "identifier"@]
}

/// The folder of the shards of `writer`.
pub open spec fn writer_folder(writer: Seq<char>) -> Seq<Seq<char>> {
    seq!["index"@, "identifier"@, writer]
}

/// The shard of `writer` for `day`.
pub open spec fn shard_file(writer: Seq<char>, day: Seq<char>) -> Seq<Seq<char>> {
    seq!["index"@, "identifier"@, writer, day + ".csv"@]
}

/// The folder of the body of the entry `id`: named by the first two
/// characters of the identity.
pub open spec fn entry_folder(id: Identity) -> Seq<Seq<char>> {
    seq!["entries"@, identity_text(id.value).take(2)]
}

/// The file of the body of the entry `id`.
pub open spec fn entry_file(id: Identity) -> Seq<Seq<char>> {
    seq!["entries"@, identity_text(id.value).take(2), identity_text(id.value) + ".txt"@]
}

/// The path of the settings file.
pub fn settings_path() -> (r: Vec<String>)
    ensures
        views(r@) == settings_file(),
{
    let mut r: Vec<String> = Vec::new();
    r.push(".settings.toml".to_owned());
    assert(views(r@) =~= settings_file());
    r
}

/// The path of the folder of the index.
pub fn index_folder_path() -> (r: Vec<String>)
    ensures
        views(r@) == index_folder(),
{
    let mut r: Vec<String> = Vec::new();
    r.push("index".to_owned());
    assert(views(r@) =~= index_folder());
    r
}

/// The path of the compacted index file.
pub fn index_file_path() -> (r: Vec<String>)
    ensures
        views(r@) == index_file(),
{
    let mut r: Vec<String> = Vec::new();
    r.push("index".to_owned());
    r.push("index.csv".to_owned());
    assert(views(r@) =~= index_file());
    r
}

/// The path of the folder that holds the shards of all writers.
pub fn shards_folder_path() -> (r: Vec<String>)
    ensures
        views(r@) == shards_folder(),
{
    let mut r: Vec<String> = Vec::new();
    r.push("index".to_owned());
    r.push("identifier".to_owned());
    assert(views(r@) =~= shards_folder());
    r
}

/// The path of the folder of the shards of `writer`.
pub fn writer_folder_path(writer: &str) -> (r: Vec<String>)
    ensures
        views(r@) == writer_folder(writer@),
{
    let mut r: Vec<String> = Vec::new();
    r.push("index".to_owned());
    r.push("identifier".to_owned());
    r.push(writer.to_owned());
    assert(views(r@) =~= writer_folder(writer@));
    r
}

/// The path of the shard of `writer` for `day`.
pub fn shard_file_path(writer: &str, day: &str) -> (r: Vec<String>)
    ensures
        views(r@) == shard_file(writer@, day@),
{
    let mut r: Vec<String> = Vec::new();
    r.push("index".to_owned());
    r.push("identifier".to_owned());
    r.push(writer.to_owned());
    r.push(day.to_owned().concat(".csv"));
    assert(views(r@) =~= shard_file(writer@, day@));
    r
}

/// The path of the folder of the body of the entry `id`.
pub fn entry_folder_path(id: &Identity) -> (r: Vec<String>)
    ensures
        views(r@) == entry_folder(*id),
{
    let name = format_identity(id);
    let mut r: Vec<String> = Vec::new();
    r.push("entries".to_owned());
    r.push(name.as_str().substring_char(0, 2).to_owned());
    assert(name@.subrange(0, 2) =~= name@.take(2));
    assert(views(r@) =~= entry_folder(*id));
    r
}

/// The path of the file of the body of the entry `id`.
pub fn entry_file_path(id: &Identity) -> (r: Vec<String>)
    ensures
        views(r@) == entry_file(*id),
{
    let name = format_identity(id);
    let mut r: Vec<String> = Vec::new();
    r.push("entries".to_owned());
    r.push(name.as_str().substring_char(0, 2).to_owned());
    assert(name@.subrange(0, 2) =~= name@.take(2));
    r.push(name.concat(".txt"));
    assert(views(r@) =~= entry_file(*id));
    r
}

} // verus!
