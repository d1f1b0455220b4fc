use todust::entry::{Entry, Metadata, ProjectCount};
use todust::identity::Identity;
use todust::order::{Ordered, SortedSet};
use todust::stamp::{Date, Timestamp};
use todust::store_csv::CsvStore;
use todust::store_sqlite::SqliteStore;
use todust::text::{text_less, text_same};

fn base() -> Metadata {
    Metadata {
        last_change: Timestamp::new(10, 5),
        due: Some(Date::new(100)),
        started: Timestamp::new(1, 0),
        project: "work".to_string(),
        finished: Some(Timestamp::new(9, 0)),
        identity: Identity::new(7),
    }
}

#[test]
fn text_order_is_bytewise() {
    assert!(text_less("", "a"));
    assert!(!text_less("a", ""));
    assert!(!text_less("", ""));
    assert!(text_less("a", "ab"));
    assert!(text_less("ab", "b"));
    assert!(text_less("Z", "a"));
    assert!(text_less("z", "é"));
    assert!(!text_less("same", "same"));
    assert!(text_same("é", "é"));
    assert!(!text_same("e", "é"));
    assert!(!text_same("a", "ab"));
    for (a, b) in [("", "a"), ("a", "ab"), ("ab", "b"), ("z", "é"), ("x", "x")] {
        assert_eq!(text_less(a, b), a < b);
        assert_eq!(text_less(b, a), b < a);
    }
}

#[test]
fn timestamps_order_by_seconds_then_nanoseconds() {
    assert!(Timestamp::new(1, 9).before(&Timestamp::new(2, 0)));
    assert!(Timestamp::new(1, 0).before(&Timestamp::new(1, 1)));
    assert!(!Timestamp::new(1, 1).before(&Timestamp::new(1, 1)));
    assert!(Timestamp::new(-5, 0).before(&Timestamp::new(0, 0)));
    assert!(Date::new(-1).before(&Date::new(0)));
    assert!(!Date::new(3).before(&Date::new(3)));
}

#[test]
fn seconds_since_clamps() {
    assert_eq!(Timestamp::new(10, 0).seconds_since(&Timestamp::new(4, 999)), 6);
    assert_eq!(Timestamp::new(4, 0).seconds_since(&Timestamp::new(10, 0)), -6);
    assert_eq!(Timestamp::new(i64::MAX, 0).seconds_since(&Timestamp::new(-1, 0)), i64::MAX);
    assert_eq!(Timestamp::new(i64::MIN, 0).seconds_since(&Timestamp::new(1, 0)), i64::MIN);
}

#[test]
fn metadata_order_goes_field_by_field() {
    let m = base();
    let mut later = base();
    later.last_change = Timestamp::new(10, 6);
    later.due = None;
    assert!(m.before(&later));
    assert!(!later.before(&m));

    let mut no_due = base();
    no_due.due = None;
    assert!(no_due.before(&m));

    let mut started = base();
    started.started = Timestamp::new(2, 0);
    started.project = "a".to_string();
    assert!(m.before(&started));

    let mut project = base();
    project.project = "zoo".to_string();
    project.finished = None;
    assert!(m.before(&project));

    let mut active = base();
    active.finished = None;
    assert!(active.before(&m));

    let mut identity = base();
    identity.identity = Identity::new(8);
    assert!(m.before(&identity));

    assert!(!m.before(&base()));
    assert!(m.same(&base()));
    assert!(!m.same(&identity));
    for other in [later, no_due, started, project, active, identity] {
        assert_eq!(m.before(&other), m < other);
        assert_eq!(other.before(&m), other < m);
    }
}

#[test]
fn entries_order_by_metadata_then_text() {
    let a = Entry { metadata: base(), text: "a".to_string() };
    let b = Entry { metadata: base(), text: "b".to_string() };
    let mut newer = base();
    newer.last_change = Timestamp::new(11, 0);
    let c = Entry { metadata: newer, text: "".to_string() };
    assert!(a.before(&b));
    assert!(b.before(&c));
    assert!(!c.before(&a));
    assert_eq!(a.before(&b), a < b);
}

#[test]
fn sorted_set_keeps_order_and_no_duplicates() {
    let mut set: SortedSet<String> = SortedSet::new();
    assert!(set.is_empty());
    assert!(set.insert("m".to_string()));
    assert!(set.insert("a".to_string()));
    assert!(set.insert("z".to_string()));
    assert!(!set.insert("m".to_string()));
    assert_eq!(set.len(), 3);
    assert_eq!(set.get(0), "a");
    assert_eq!(set.rank(&"n".to_string()), 2);
    assert!(set.contains(&"z".to_string()));
    assert!(!set.contains(&"b".to_string()));
    assert!(set.remove(&"m".to_string()));
    assert!(!set.remove(&"m".to_string()));
    assert_eq!(set.into_vec(), vec!["a".to_string(), "z".to_string()]);
    let mixed = SortedSet::from_vec(vec![
        "b".to_string(),
        "c".to_string(),
        "a".to_string(),
        "b".to_string(),
    ]);
    assert_eq!(mixed.into_vec(), vec!["a".to_string(), "b".to_string(), "c".to_string()]);
    let given = SortedSet::from_ascending(vec![Identity::new(1), Identity::new(5)]);
    assert!(given.contains(&Identity::new(5)));
    assert!(!given.contains(&Identity::new(2)));
}

#[test]
fn entry_line_is_short_and_on_one_line() {
    let e = Entry { metadata: base(), text: "one\ntwo\n".to_string() };
    assert_eq!(e.to_string(), "one two ");
    let long = Entry { metadata: base(), text: "é".repeat(150) };
    assert_eq!(long.to_string(), "é".repeat(100));
    let empty = Entry { metadata: base(), text: String::new() };
    assert_eq!(empty.to_string(), "");
}

#[test]
fn entry_builders_and_state() {
    let e = Entry { metadata: base(), text: "x".to_string() };
    assert!(e.is_done());
    assert!(!e.is_active());
    assert!(e.metadata.is_done());
    let moved = e.clone().with_project("home".to_string()).with_text("y".to_string());
    assert_eq!(moved.metadata.project, "home");
    assert_eq!(moved.text, "y");
    assert_eq!(moved.metadata.identity, e.metadata.identity);
    assert_eq!(moved.metadata.finished, e.metadata.finished);
    assert_eq!(e.age(&Timestamp::new(61, 0)), 60);
    let fresh = Metadata::new(Identity::new(3), "p".to_string(), Timestamp::new(5, 6));
    assert!(fresh.is_active());
    assert_eq!(fresh.started, Timestamp::new(5, 6));
    assert_eq!(fresh.last_change, Timestamp::new(5, 6));
    assert_eq!(fresh.due, None);
}

#[test]
fn project_counts_add_up() {
    let a = ProjectCount { project: "a".to_string(), active_count: 1, done_count: 2, total_count: 3 };
    let b = ProjectCount { project: "b".to_string(), active_count: 10, done_count: 20, total_count: 30 };
    let sum = a.clone().add(b.clone());
    assert_eq!(
        sum,
        ProjectCount { project: "b".to_string(), active_count: 11, done_count: 22, total_count: 33 }
    );
    let mut acc = ProjectCount::default();
    assert_eq!(acc.total_count, 0);
    assert_eq!(acc.project, "");
    acc.add_assign(a);
    acc.add_assign(b);
    assert_eq!(acc, sum);
}

#[test]
fn legacy_stores_keep_their_paths() {
    assert_eq!(CsvStore::default().datafile_path(), "todust.csv");
    assert_eq!(
        CsvStore::default().with_datafile_path("x.csv".to_string()).datafile_path(),
        "x.csv"
    );
    assert_eq!(SqliteStore::default().datafile_path(), "todust.sqlite");
    assert_eq!(
        SqliteStore::default().with_datafile_path("x.sqlite".to_string()).datafile_path(),
        "x.sqlite"
    );
    let old = todust::store_csv2::CsvStore::open("data".to_string());
    assert_eq!(old.datadir(), "data");
    assert_eq!(old.get_active_index_filename(), vec!["active.csv".to_string()]);
    assert_eq!(old.get_done_index_filename(), vec!["done.csv".to_string()]);
}
