use todust::entry::{Entries, Entry, Metadata};
use todust::error::Error;
use todust::identity::Identity;
use todust::stamp::{Date, Timestamp};
use todust::store::content::ContentStore;
use todust::store::effect::Effect;
use todust::store::layout;
use todust::store::vcs::{VcsConfig, VcsSettings, VcsType};
use todust::store::{Store, StoreSettings};

fn quiet() -> StoreSettings {
    StoreSettings { store_version: 1, vcs: None }
}

fn open(writer: &str) -> Store {
    Store::open(writer.to_string(), VcsConfig::default(), quiet()).unwrap()
}

fn entry(id: u128, project: &str, text: &str, at: i64) -> Entry {
    Entry {
        metadata: Metadata::new(Identity::new(id), project.to_string(), Timestamp::new(at, 0)),
        text: text.to_string(),
    }
}

fn path(parts: &[&str]) -> Vec<String> {
    parts.iter().map(|p| p.to_string()).collect()
}

const A: u128 = 0x67e55044_10b1_426f_9247_bb680e5fe0c8;
const B: u128 = 0x0123_4567_89ab_cdef_0123_4567_89ab_cdef;
// 2021-03-04T05:06:07Z
const T0: i64 = 1_614_834_367;

#[test]
fn open_rejects_another_version() {
    let settings = StoreSettings { store_version: 2, vcs: None };
    let r = Store::open("w".to_string(), VcsConfig::default(), settings);
    assert_eq!(r.unwrap_err(), Error::VersionMismatch { found: 2 });
}

#[test]
fn default_settings_are_version_one_with_git() {
    let s = StoreSettings::default();
    assert_eq!(s.store_version, 1);
    assert_eq!(s.vcs, Some(VcsSettings { vcs_type: VcsType::Git }));
    let c = VcsConfig::default();
    assert!(c.autocommit);
    assert!(!c.autopull);
    assert!(!c.autopush);
}

#[test]
fn add_then_mark_done_scenario() {
    let mut store = open("alice");
    store.add_entry(entry(A, "work", "buy milk", T0), &Timestamp::new(T0, 0)).unwrap();

    let active = store.get_active_entries("work").unwrap();
    assert_eq!(active.len(), 1);
    assert_eq!(active.get(0).text, "buy milk");
    assert_eq!(store.get_done_entries("work").unwrap().len(), 0);

    store.entry_done(1, "work", &Timestamp::new(T0 + 60, 0)).unwrap();

    assert!(store.get_active_entries("work").unwrap().is_empty());
    let done = store.get_done_entries("work").unwrap();
    assert_eq!(done.len(), 1);
    assert_eq!(done.get(0).text, "buy milk");
    assert_eq!(done.get(0).metadata.finished, Some(Timestamp::new(T0 + 60, 0)));
    assert_eq!(done.get(0).metadata.last_change, Timestamp::new(T0 + 60, 0));
    assert_eq!(done.get(0).metadata.started, Timestamp::new(T0, 0));
}

#[test]
fn add_entry_effects_write_blob_then_append_shard_with_header() {
    let mut store = open("alice");
    let effects = store.add_entry(entry(A, "work", "buy milk", T0), &Timestamp::new(T0, 0)).unwrap();
    assert_eq!(
        effects,
        vec![
            Effect::CreateDir { path: path(&["entries", "67"]) },
            Effect::WriteFile {
                path: path(&["entries", "67", "67e55044-10b1-426f-9247-bb680e5fe0c8.txt"]),
                bytes: b"buy milk".to_vec(),
            },
            Effect::CreateDir { path: path(&["index", "identifier", "alice"]) },
            Effect::AppendFile {
                path: path(&["index", "identifier", "alice", "2021-03-04.csv"]),
                bytes: b"last_change,due,started,project,finished,uuid\n\
2021-03-04T05:06:07Z,,2021-03-04T05:06:07Z,work,,67e55044-10b1-426f-9247-bb680e5fe0c8\n"
                    .to_vec(),
            },
        ]
    );
}

#[test]
fn second_append_on_the_same_day_has_no_header() {
    let mut store = open("alice");
    store.add_entry(entry(A, "work", "one", T0), &Timestamp::new(T0, 0)).unwrap();
    let effects = store.add_entry(entry(B, "work", "two", T0), &Timestamp::new(T0 + 1, 0)).unwrap();
    assert_eq!(
        effects[3],
        Effect::AppendFile {
            path: path(&["index", "identifier", "alice", "2021-03-04.csv"]),
            bytes: b"2021-03-04T05:06:07Z,,2021-03-04T05:06:07Z,work,,01234567-89ab-cdef-0123-456789abcdef\n"
                .to_vec(),
        }
    );
    assert_eq!(store.index.shards.len(), 1);
    assert_eq!(store.index.shards[0].rows.len(), 2);
}

#[test]
fn append_on_another_day_opens_another_shard() {
    let mut store = open("alice");
    store.add_entry(entry(A, "work", "one", T0), &Timestamp::new(T0, 0)).unwrap();
    let effects =
        store.add_entry(entry(B, "work", "two", T0), &Timestamp::new(T0 + 86_400, 0)).unwrap();
    match &effects[3] {
        Effect::AppendFile { path: p, bytes } => {
            assert_eq!(p, &path(&["index", "identifier", "alice", "2021-03-05.csv"]));
            assert!(bytes.starts_with(b"last_change,due,started,project,finished,uuid\n"));
        }
        other => panic!("unexpected effect {:?}", other),
    }
    assert_eq!(store.index.shards.len(), 2);
}

#[test]
fn hook_follows_the_configuration() {
    let settings = StoreSettings::default();
    let config = VcsConfig { autocommit: true, autopull: true, autopush: true };
    let mut store = Store::open("w".to_string(), config, settings).unwrap();
    let effects = store.add_entry(entry(A, "work", "x", T0), &Timestamp::new(T0, 0)).unwrap();
    assert_eq!(
        effects[4..].to_vec(),
        vec![
            Effect::VcsAdd,
            Effect::VcsCommit {
                message: "added entry with id 67e55044-10b1-426f-9247-bb680e5fe0c8".to_string()
            },
            Effect::VcsPull,
            Effect::VcsPush,
        ]
    );

    let silent = VcsConfig { autocommit: false, autopull: true, autopush: true };
    let mut store = Store::open("w".to_string(), silent, settings).unwrap();
    let effects = store.add_entry(entry(A, "work", "x", T0), &Timestamp::new(T0, 0)).unwrap();
    assert_eq!(effects.len(), 4);
}

#[test]
fn add_then_get_by_uuid_returns_what_was_added() {
    let mut store = open("alice");
    let mut e = entry(A, "work", "line one\nline two, \"quoted\"", T0);
    e.metadata.due = Some(Date::new(738_000));
    store.add_entry(e.clone(), &Timestamp::new(T0, 0)).unwrap();
    assert_eq!(store.get_entry_by_uuid(&Identity::new(A)).unwrap(), e);
    assert_eq!(store.get_entry_by_uuid(&Identity::new(B)).unwrap_err(), Error::EntryNotFound);
}

#[test]
fn update_replaces_the_visible_version() {
    let mut store = open("alice");
    store.add_entry(entry(A, "work", "old", T0), &Timestamp::new(T0, 0)).unwrap();
    let mut newer = entry(A, "work", "new", T0);
    newer.metadata.last_change = Timestamp::new(T0 + 5, 0);
    store.update_entry(newer.clone(), &Timestamp::new(T0 + 5, 0)).unwrap();

    assert_eq!(store.get_entry_by_uuid(&Identity::new(A)).unwrap(), newer);
    let all = store.get_entries("work").unwrap();
    assert_eq!(all.len(), 1);
    assert_eq!(all.get(0), &newer);
}

#[test]
fn update_with_the_current_row_appends_nothing() {
    let mut store = open("alice");
    let e = entry(A, "work", "old", T0);
    store.add_entry(e.clone(), &Timestamp::new(T0, 0)).unwrap();
    let mut same = e.clone();
    same.text = "other text".to_string();
    let effects = store.update_entry(same, &Timestamp::new(T0 + 5, 0)).unwrap();
    assert_eq!(effects.len(), 2);
    assert_eq!(store.index.shards[0].rows.len(), 1);
    assert_eq!(store.get_entry_by_uuid(&Identity::new(A)).unwrap().text, "other text");
}

#[test]
fn done_in_one_project_leaves_the_others() {
    let mut store = open("alice");
    store.add_entry(entry(A, "work", "a", T0), &Timestamp::new(T0, 0)).unwrap();
    store.add_entry(entry(B, "home", "b", T0), &Timestamp::new(T0, 0)).unwrap();
    let home_before = store.get_entries("home").unwrap();
    store.entry_done(1, "work", &Timestamp::new(T0 + 1, 0)).unwrap();
    assert_eq!(store.get_entries("home").unwrap(), home_before);
    assert_eq!(store.get_active_entries("home").unwrap().len(), 1);
    assert_eq!(store.get_active_entries("work").unwrap().len(), 0);
    assert_eq!(store.get_done_entries("work").unwrap().len(), 1);
}

#[test]
fn entry_by_id_counts_from_one() {
    let mut store = open("alice");
    store.add_entry(entry(A, "work", "first", T0), &Timestamp::new(T0, 0)).unwrap();
    store.add_entry(entry(B, "work", "second", T0 + 10), &Timestamp::new(T0 + 10, 0)).unwrap();
    assert_eq!(store.get_entry_by_id(1, "work").unwrap().text, "first");
    assert_eq!(store.get_entry_by_id(2, "work").unwrap().text, "second");
    assert_eq!(store.get_entry_by_id(0, "work").unwrap_err(), Error::EntryNotFound);
    assert_eq!(store.get_entry_by_id(3, "work").unwrap_err(), Error::EntryNotFound);
    assert_eq!(store.get_entry_by_id(1, "none").unwrap_err(), Error::EntryNotFound);
}

#[test]
fn done_and_active_again_by_uuid() {
    let mut store = open("alice");
    store.add_entry(entry(A, "work", "a", T0), &Timestamp::new(T0, 0)).unwrap();
    store.entry_done_by_uuid(&Identity::new(A), &Timestamp::new(T0 + 1, 0)).unwrap();
    assert!(store.get_entry_by_uuid(&Identity::new(A)).unwrap().is_done());
    store.entry_active_by_uuid(&Identity::new(A), &Timestamp::new(T0 + 2, 0)).unwrap();
    let e = store.get_entry_by_uuid(&Identity::new(A)).unwrap();
    assert!(e.is_active());
    assert_eq!(e.metadata.last_change, Timestamp::new(T0 + 2, 0));
    assert_eq!(
        store.entry_done_by_uuid(&Identity::new(B), &Timestamp::new(T0 + 3, 0)).unwrap_err(),
        Error::EntryNotFound
    );
}

#[test]
fn two_writers_last_change_wins() {
    let mut alice = open("alice");
    let mut bob = open("bob");
    let mut by_alice = entry(A, "work", "x", T0);
    by_alice.metadata.last_change = Timestamp::new(T0 + 10, 0);
    let mut by_bob = entry(A, "work", "x", T0);
    by_bob.metadata.last_change = Timestamp::new(T0 + 20, 0);
    by_bob.metadata.project = "errands".to_string();

    let a = alice.add_entry(by_alice.clone(), &Timestamp::new(T0 + 10, 0)).unwrap();
    let b = bob.add_entry(by_bob.clone(), &Timestamp::new(T0 + 20, 0)).unwrap();
    let shard = |effects: &Vec<Effect>| match &effects[3] {
        Effect::AppendFile { bytes, .. } => bytes.clone(),
        other => panic!("unexpected effect {:?}", other),
    };

    let mut merged = open("carol");
    merged.load_shard("alice".to_string(), "2021-03-04".to_string(), &shard(&a)).unwrap();
    merged.load_shard("bob".to_string(), "2021-03-04".to_string(), &shard(&b)).unwrap();
    let latest = merged.index.metadata_most_recent();
    assert_eq!(latest.len(), 1);
    assert_eq!(latest.get(0), &by_bob.metadata);
    assert_eq!(merged.index.metadata().len(), 2);
    assert_eq!(merged.get_projects(), vec!["errands".to_string()]);
}

#[test]
fn cleanup_removes_only_the_orphan() {
    let mut store = open("alice");
    store.add_entry(entry(A, "work", "kept", T0), &Timestamp::new(T0, 0)).unwrap();
    store.load_blob("01234567-89ab-cdef-0123-456789abcdef", "orphan".to_string()).unwrap();
    assert_eq!(
        store.content.list_all_blob_ids(),
        vec![Identity::new(B), Identity::new(A)]
    );

    let effects = store.run_cleanup().unwrap();
    assert_eq!(
        effects,
        vec![
            Effect::ReplaceFile {
                path: path(&["index", "index.csv"]),
                bytes: b"last_change,due,started,project,finished,uuid\n\
2021-03-04T05:06:07Z,,2021-03-04T05:06:07Z,work,,67e55044-10b1-426f-9247-bb680e5fe0c8\n"
                    .to_vec(),
            },
            Effect::RemoveTree { path: path(&["index", "identifier"]) },
            Effect::RemoveFile {
                path: path(&["entries", "01", "01234567-89ab-cdef-0123-456789abcdef.txt"]),
            },
        ]
    );
    assert_eq!(store.content.list_all_blob_ids(), vec![Identity::new(A)]);
    assert_eq!(store.get_entry_by_uuid(&Identity::new(A)).unwrap().text, "kept");

    let again = store.run_cleanup().unwrap();
    assert_eq!(again.len(), 2);
    assert!(matches!(again[0], Effect::ReplaceFile { .. }));
    assert!(matches!(again[1], Effect::RemoveTree { .. }));
}

#[test]
fn compaction_keeps_what_is_current() {
    let mut store = open("alice");
    store.add_entry(entry(A, "work", "a", T0), &Timestamp::new(T0, 0)).unwrap();
    store.add_entry(entry(B, "home", "b", T0), &Timestamp::new(T0, 0)).unwrap();
    store.entry_done(1, "work", &Timestamp::new(T0 + 1, 0)).unwrap();
    let before = store.index.metadata_most_recent();
    assert_eq!(store.index.metadata().len(), 3);
    store.index.compact().unwrap();
    assert_eq!(store.index.metadata_most_recent(), before);
    assert_eq!(store.index.metadata().len(), 2);
    assert!(store.index.shards.is_empty());
}

#[test]
fn compacted_file_and_later_shards_are_read_together() {
    let mut store = open("alice");
    store.add_entry(entry(A, "work", "a", T0), &Timestamp::new(T0, 0)).unwrap();
    let effects = store.run_cleanup().unwrap();
    let compacted = match &effects[0] {
        Effect::ReplaceFile { bytes, .. } => bytes.clone(),
        other => panic!("unexpected effect {:?}", other),
    };
    let later = store.add_entry(entry(B, "work", "b", T0 + 1), &Timestamp::new(T0 + 1, 0)).unwrap();
    let shard = match &later[3] {
        Effect::AppendFile { bytes, .. } => bytes.clone(),
        other => panic!("unexpected effect {:?}", other),
    };

    let mut fresh = open("alice");
    fresh.load_compacted(&compacted).unwrap();
    fresh.load_shard("alice".to_string(), "2021-03-04".to_string(), &shard).unwrap();
    assert_eq!(fresh.index.metadata_most_recent(), store.index.metadata_most_recent());
    assert_eq!(fresh.index.metadata_most_recent().len(), 2);
}

#[test]
fn projects_count_sums_to_the_number_of_current_rows() {
    let mut store = open("alice");
    store.add_entry(entry(A, "work", "a", T0), &Timestamp::new(T0, 0)).unwrap();
    store.add_entry(entry(B, "home", "b", T0), &Timestamp::new(T0, 0)).unwrap();
    store.add_entry(entry(7, "work", "c", T0 + 2), &Timestamp::new(T0, 0)).unwrap();
    store.entry_done(1, "work", &Timestamp::new(T0 + 5, 0)).unwrap();

    let counts = store.get_projects_count();
    assert_eq!(counts.len(), 2);
    assert_eq!(counts[0].project, "home");
    assert_eq!(
        (counts[0].active_count, counts[0].done_count, counts[0].total_count),
        (1, 0, 1)
    );
    assert_eq!(counts[1].project, "work");
    assert_eq!(
        (counts[1].active_count, counts[1].done_count, counts[1].total_count),
        (1, 1, 2)
    );
    let total: usize = counts.iter().map(|c| c.total_count).sum();
    assert_eq!(total, store.index.metadata_most_recent().len());
    assert_eq!(store.get_projects(), vec!["home".to_string(), "work".to_string()]);
}

#[test]
fn missing_body_fails_the_read() {
    let mut store = open("alice");
    store.add_entry(entry(A, "work", "a", T0), &Timestamp::new(T0, 0)).unwrap();
    store.content.remove(&Identity::new(A));
    assert_eq!(
        store.get_entries("work").unwrap_err(),
        Error::TextNotFound { identity: Identity::new(A) }
    );
    assert_eq!(
        store.get_entry_by_uuid(&Identity::new(A)).unwrap_err(),
        Error::TextNotFound { identity: Identity::new(A) }
    );
}

#[test]
fn blob_with_a_name_that_is_no_identity_is_refused() {
    let mut store = open("alice");
    assert_eq!(store.load_blob("notes", "x".to_string()).unwrap_err(), Error::BlobName);
    assert!(store.content.list_all_blob_ids().is_empty());
}

#[test]
fn time_without_a_day_is_refused() {
    let mut store = open("alice");
    let r = store.add_entry(entry(A, "work", "a", T0), &Timestamp::new(i64::MAX, 0));
    assert_eq!(r.unwrap_err(), Error::InvalidTime);
    assert!(store.content.list_all_blob_ids().is_empty());
    assert!(store.index.shards.is_empty());
}

#[test]
fn entries_from_ascending_and_filters() {
    let a = entry(A, "work", "a", T0);
    let mut b = entry(B, "work", "b", T0 + 1);
    b.metadata.finished = Some(Timestamp::new(T0 + 2, 0));
    let mut set = Entries::new();
    assert!(set.insert(b.clone()));
    assert!(set.insert(a.clone()));
    assert!(!set.insert(a.clone()));
    assert_eq!(set.len(), 2);
    assert_eq!(set.get(0), &a);
    assert_eq!(set.get(1), &b);
    let active = Entries::from_ascending(vec![a.clone(), b.clone()]).get_active();
    assert_eq!(active.into_inner(), vec![a.clone()]);
    let done = Entries::from_ascending(vec![a.clone(), b.clone()]).get_done();
    assert_eq!(done.into_inner(), vec![b.clone()]);
    assert!(set.remove(&a));
    assert!(!set.remove(&a));
    assert_eq!(set.len(), 1);
    let unordered = Entries::from_vec(vec![b.clone(), a.clone(), b.clone()]);
    assert_eq!(unordered.into_inner(), vec![a.clone(), b.clone()]);
    assert_eq!(
        Entries::from_vec(vec![b.clone(), a.clone()]).entry_by_id(1).unwrap(),
        a
    );
    assert_eq!(
        Entries::from_vec(vec![b.clone(), a.clone()]).entry_by_id(2).unwrap_err(),
        Error::EntryNotFound
    );
    let mut edited = a.clone();
    edited.text = "a, edited".to_string();
    let versions = Entries::from_vec(vec![a.clone(), edited.clone(), b.clone()]);
    assert_eq!(versions.latest_entries().into_inner(), vec![edited, b]);
}

#[test]
fn greater_of_two_versions_in_one_shard_is_current() {
    let mut store = open("alice");
    let older = entry(A, "work", "x", T0);
    let mut newer = entry(A, "work", "x", T0);
    newer.metadata.last_change = Timestamp::new(T0, 1);
    store.add_entry(newer.clone(), &Timestamp::new(T0, 0)).unwrap();
    store.add_entry(older.clone(), &Timestamp::new(T0, 1)).unwrap();
    let latest = store.index.metadata_most_recent();
    assert_eq!(latest.len(), 1);
    assert_eq!(latest.get(0), &newer.metadata);
    assert_eq!(store.index.find(&Identity::new(A)), Some(newer.metadata.clone()));
    assert_eq!(store.index.find(&Identity::new(B)), None);
}

#[test]
fn paths_below_the_data_directory() {
    assert_eq!(Store::settings_path(), path(&[".settings.toml"]));
    assert_eq!(Store::index_folder(), path(&["index"]));
    assert_eq!(layout::index_file_path(), path(&["index", "index.csv"]));
    assert_eq!(layout::shards_folder_path(), path(&["index", "identifier"]));
    assert_eq!(layout::writer_folder_path("w"), path(&["index", "identifier", "w"]));
    assert_eq!(
        layout::shard_file_path("w", "2021-03-04"),
        path(&["index", "identifier", "w", "2021-03-04.csv"])
    );
    let m = Metadata::new(Identity::new(A), "p".to_string(), Timestamp::new(T0, 0));
    assert_eq!(Store::get_entry_foldername(&m), path(&["entries", "67"]));
    assert_eq!(
        Store::get_entry_filename(&m),
        path(&["entries", "67", "67e55044-10b1-426f-9247-bb680e5fe0c8.txt"])
    );
    let index = open("me").index;
    assert_eq!(index.identifier_folder_path(), path(&["index", "identifier", "me"]));
    assert_eq!(
        index.todays_index_path("2021-03-04"),
        path(&["index", "identifier", "me", "2021-03-04.csv"])
    );
}

#[test]
fn commit_steps_follow_the_flags() {
    let git = VcsSettings::default();
    let all = VcsConfig { autocommit: true, autopull: false, autopush: true };
    assert_eq!(
        git.commit("msg", &all),
        vec![
            Effect::VcsAdd,
            Effect::VcsCommit { message: "msg".to_string() },
            Effect::VcsPush
        ]
    );
    let none = VcsConfig { autocommit: false, autopull: true, autopush: true };
    assert_eq!(git.commit("msg", &none), Vec::<Effect>::new());
}

#[test]
fn malformed_shard_is_refused_whole() {
    let mut store = open("alice");
    let mut bytes = b"last_change,due,started,project,finished,uuid\n".to_vec();
    bytes.extend(b"2021-03-04T05:06:07Z,,2021-03-04T05:06:07Z,work,,67e55044-10b1-426f-9247-bb680e5fe0c8\n");
    bytes.extend(b"not,a,row,at,all,x\n");
    let r = store.load_shard("bob".to_string(), "2021-03-04".to_string(), &bytes);
    assert_eq!(
        r.unwrap_err(),
        Error::Serialization(todust::record::FormatError::Row { index: 2 })
    );
    assert!(store.index.shards.is_empty());
    assert_eq!(
        store.load_compacted(&b"x\n".to_vec()).unwrap_err(),
        Error::Serialization(todust::record::FormatError::Header)
    );
    assert_eq!(store.index.compacted, None);
}

#[test]
fn cleanup_commit_message_and_entry_done_message() {
    let config = VcsConfig::default();
    let mut store = Store::open("w".to_string(), config, StoreSettings::default()).unwrap();
    store.add_entry(entry(A, "work", "x", T0), &Timestamp::new(T0, 0)).unwrap();
    let done = store.entry_done(1, "work", &Timestamp::new(T0 + 1, 0)).unwrap();
    assert_eq!(
        done[2..].to_vec(),
        vec![
            Effect::VcsAdd,
            Effect::VcsCommit {
                message: "marked entry with id 67e55044-10b1-426f-9247-bb680e5fe0c8 as done"
                    .to_string()
            },
        ]
    );
    let updated = store.update_entry(entry(A, "work", "y", T0 + 9), &Timestamp::new(T0 + 9, 0)).unwrap();
    assert_eq!(
        updated.last().unwrap(),
        &Effect::VcsCommit {
            message: "updated entry with id 67e55044-10b1-426f-9247-bb680e5fe0c8".to_string()
        }
    );
    let cleaned = store.run_cleanup().unwrap();
    assert_eq!(
        cleaned.last().unwrap(),
        &Effect::VcsCommit { message: "ran cleanup".to_string() }
    );
}

#[test]
fn content_store_reads_what_was_written() {
    let mut content = ContentStore::new();
    assert!(!content.contains(&Identity::new(1)));
    content.write(Identity::new(5), "five".to_string());
    content.write(Identity::new(1), "one".to_string());
    content.write(Identity::new(5), "FIVE".to_string());
    assert_eq!(content.read(&Identity::new(5)).unwrap(), "FIVE");
    assert_eq!(content.read(&Identity::new(1)).unwrap(), "one");
    assert_eq!(
        content.read(&Identity::new(2)).unwrap_err(),
        Error::TextNotFound { identity: Identity::new(2) }
    );
    assert_eq!(content.list_all_blob_ids(), vec![Identity::new(1), Identity::new(5)]);
    assert!(content.remove(&Identity::new(1)));
    assert!(!content.remove(&Identity::new(1)));
    assert_eq!(content.list_all_blob_ids(), vec![Identity::new(5)]);
}
