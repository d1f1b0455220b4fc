//! What holds of the store whatever it holds: the laws that relate its
//! operations to each other.

use crate::entry::{active_of, done_of, EntryView, Metadata, MetadataView};
use crate::error::Error;
use crate::identity::Identity;
use crate::order::{
    ascending, lemma_ascending_unique, lemma_asymmetric, lemma_enumeration,
    lemma_filter_ascending, Ordered,
};
use crate::stamp::Timestamp;
use crate::entry::ProjectCountView;
use crate::seqs::{lemma_filter_none, lemma_filter_set, lemma_filter_split, lemma_filter_twice};
use crate::store::effect::EffectView;
use crate::store::index::{
    is_latest, lemma_compact_keeps_latest, lemma_current, lemma_latest_unique,
    lemma_shard_rows_contains, shard_rows, IndexView,
};
use crate::store::{counted_projects, of_project, restated_row, total_of, StoreView};
use vstd::prelude::*;

verus! {

/// A row is in the index exactly if a shard or the compacted file holds it.
proof fn lemma_records_contains(index: IndexView, m: MetadataView)
    ensures
        index.records().contains(m) <==> (exists|i: int|
            0 <= i < index.shards.len() && (#[trigger] index.shards[i]).rows.contains(m))
            || index.compacted_rows().contains(m),
{
    lemma_shard_rows_contains(index.shards, m);
    let a = shard_rows(index.shards);
    let b = index.compacted_rows();
    if (a + b).contains(m) {
        let k = choose|k: int| 0 <= k < (a + b).len() && (a + b)[k] == m;
        if k < a.len() {
            assert(a[k] == m);
        } else {
            assert(b[k - a.len()] == m);
        }
    }
    if a.contains(m) {
        let k = choose|k: int| 0 <= k < a.len() && a[k] == m;
        assert((a + b)[k] == m);
    }
    if b.contains(m) {
        let k = choose|k: int| 0 <= k < b.len() && b[k] == m;
        assert((a + b)[a.len() + k] == m);
    }
}

/// Appending a row adds it to the rows of the index and changes nothing
/// else.
proof fn lemma_append_records(index: IndexView, m: MetadataView, day: Seq<char>)
    ensures
        index.append(m, day).records() == index.records().insert(m),
{
    let after = index.append(m, day);
    assert forall|x: MetadataView| #[trigger]
        after.records().contains(x) <==> (x == m || index.records().contains(x)) by {
        lemma_records_contains(index, x);
        lemma_records_contains(after, x);
        if index.has_todays_shard(day) {
            let i = choose|i: int| index.is_todays_shard(day, i);
            let grown = after.shards[i].rows;
            assert(grown == index.shards[i].rows.push(m));
            if exists|j: int| 0 <= j < after.shards.len() && (#[trigger] after.shards[j]).rows.contains(x) {
                let j = choose|j: int|
                    0 <= j < after.shards.len() && (#[trigger] after.shards[j]).rows.contains(x);
                if j == i {
                    let k = choose|k: int| 0 <= k < grown.len() && grown[k] == x;
                    if k < grown.len() - 1 {
                        assert(index.shards[i].rows[k] == x);
                        assert(index.shards[i].rows.contains(x));
                    }
                } else {
                    assert(index.shards[j].rows.contains(x));
                }
            }
            if exists|j: int| 0 <= j < index.shards.len() && (#[trigger] index.shards[j]).rows.contains(x) {
                let j = choose|j: int|
                    0 <= j < index.shards.len() && (#[trigger] index.shards[j]).rows.contains(x);
                if j == i {
                    let k = choose|k: int|
                        0 <= k < index.shards[i].rows.len() && index.shards[i].rows[k] == x;
                    assert(grown[k] == x);
                }
                assert(after.shards[j].rows.contains(x));
            }
            if x == m {
                assert(grown[grown.len() - 1] == m);
                assert(after.shards[i].rows.contains(x));
            }
        } else {
            let n = index.shards.len() as int;
            assert(after.shards[n].rows =~= seq![m]);
            if exists|j: int| 0 <= j < after.shards.len() && (#[trigger] after.shards[j]).rows.contains(x) {
                let j = choose|j: int|
                    0 <= j < after.shards.len() && (#[trigger] after.shards[j]).rows.contains(x);
                if j == n {
                    let k = choose|k: int| 0 <= k < seq![m].len() && seq![m][k] == x;
                } else {
                    assert(index.shards[j].rows.contains(x));
                }
            }
            if exists|j: int| 0 <= j < index.shards.len() && (#[trigger] index.shards[j]).rows.contains(x) {
                let j = choose|j: int|
                    0 <= j < index.shards.len() && (#[trigger] index.shards[j]).rows.contains(x);
                assert(after.shards[j].rows.contains(x));
            }
            if x == m {
                assert(seq![m][0] == m);
                assert(after.shards[n].rows.contains(x));
            }
        }
    }
    assert(after.records() =~= index.records().insert(m));
}

/// No row of the index with the identity of `m` is greater than `m`.
pub open spec fn supersedes(index: IndexView, m: MetadataView) -> bool {
    forall|o: MetadataView| #[trigger]
        index.records().contains(o) && o.identity == m.identity ==> o.at_most(m)
}

/// After a row was appended that no row of its identity exceeds, it is the
/// current row of its identity, and the current rows of all other identities
/// are what they were.
proof fn lemma_append_latest(index: IndexView, m: MetadataView, day: Seq<char>)
    requires
        supersedes(index, m),
    ensures
        forall|x: MetadataView| #[trigger]
            index.append(m, day).latest().contains(x) <==> (x == m || (index.latest().contains(x)
                && x.identity != m.identity)),
        index.append(m, day).row_of(m.identity) == Some(m),
        forall|id: Identity|
            id != m.identity ==> #[trigger] index.append(m, day).row_of(id) == index.row_of(id),
{
    let after = index.append(m, day);
    lemma_append_records(index, m, day);
    let before_rows = index.records();
    let after_rows = after.records();
    assert forall|x: MetadataView| #[trigger]
        after.latest().contains(x) <==> (x == m || (index.latest().contains(x) && x.identity
            != m.identity)) by {
        if after.latest().contains(x) && x != m {
            assert(before_rows.contains(x));
            if x.identity == m.identity {
                assert(after_rows.contains(m));
                assert(m.at_most(x));
                assert(x.at_most(m));
                lemma_asymmetric::<Metadata>(m, x);
            }
            assert forall|o: MetadataView| #[trigger]
                before_rows.contains(o) && o.identity == x.identity implies o.at_most(x) by {
                assert(after_rows.contains(o));
            }
        }
        if x == m {
            assert forall|o: MetadataView| #[trigger]
                after_rows.contains(o) && o.identity == m.identity implies o.at_most(m) by {
                if o != m {
                    assert(before_rows.contains(o));
                }
            }
        }
        if index.latest().contains(x) && x.identity != m.identity {
            assert forall|o: MetadataView| #[trigger]
                after_rows.contains(o) && o.identity == x.identity implies o.at_most(x) by {
                assert(before_rows.contains(o));
            }
        }
    }
    assert(after.latest().contains(m));
    lemma_latest_unique(after_rows, m, after.row_of(m.identity).unwrap());
    assert forall|id: Identity| id != m.identity implies #[trigger] after.row_of(id)
        == index.row_of(id) by {
        if index.row_of(id) is Some {
            let x = index.row_of(id).unwrap();
            assert(after.latest().contains(x));
            lemma_latest_unique(after_rows, x, after.row_of(id).unwrap());
        }
        if after.row_of(id) is Some {
            let x = after.row_of(id).unwrap();
            assert(index.latest().contains(x));
            lemma_latest_unique(before_rows, x, index.row_of(id).unwrap());
        }
    }
}

/// The last position of `s`, from `k` on, that holds a row of `id`.
proof fn lemma_last_of_identity(s: Seq<MetadataView>, id: Identity, k: int) -> (j: int)
    requires
        0 <= k < s.len(),
        s[k].identity == id,
    ensures
        k <= j < s.len(),
        s[j].identity == id,
        forall|i: int| j < i < s.len() ==> (#[trigger] s[i]).identity != id,
    decreases s.len() - k,
{
    if exists|i: int| k < i < s.len() && (#[trigger] s[i]).identity == id {
        let i = choose|i: int| k < i < s.len() && (#[trigger] s[i]).identity == id;
        lemma_last_of_identity(s, id, i)
    } else {
        k
    }
}

/// Every identity of the index has exactly one current row, and no row of
/// that identity is greater than it.
pub proof fn law_latest_holds_the_greatest_version(index: IndexView, m: MetadataView)
    requires
        index.records().contains(m),
    ensures
        index.row_of(m.identity) matches Some(c) && index.latest().contains(c) && c.identity
            == m.identity && m.at_most(c),
        forall|o: MetadataView| #[trigger]
            index.latest().contains(o) && o.identity == m.identity ==> Some(o) == index.row_of(
                m.identity,
            ),
{
    crate::store::index::lemma_latest_finite(index);
    let s = lemma_enumeration::<Metadata>(index.records());
    assert(s.contains(m));
    let k = choose|k: int| 0 <= k < s.len() && s[k] == m;
    let j = lemma_last_of_identity(s, m.identity, k);
    crate::store::index::lemma_latest_in_ascending(s, j);
    assert(index.latest().contains(s[j]));
    if k < j {
        assert(Metadata::below(s[k], s[j]));
    }
    assert forall|o: MetadataView| #[trigger]
        index.latest().contains(o) && o.identity == m.identity implies Some(o) == index.row_of(
        m.identity,
    ) by {
        lemma_current_row(index, o);
    }
}

/// Of two versions of one entry the greater is the current one: an index
/// that holds exactly two rows of one identity has the greater of them as
/// its only current row.
pub proof fn law_latest_is_greater_version(index: IndexView, m1: MetadataView, m2: MetadataView)
    requires
        index.records() == set![m1, m2],
        m1.identity == m2.identity,
    ensures
        m2.at_most(m1) ==> index.latest() == set![m1],
        m1.at_most(m2) ==> index.latest() == set![m2],
        m1.at_most(m2) || m2.at_most(m1),
{
    Metadata::lemma_total(m1, m2);
    let rows = index.records();
    assert(rows.contains(m1) && rows.contains(m2));
    if m2.at_most(m1) {
        assert(index.latest() =~= set![m1]) by {
            assert(is_latest(rows, m1));
            if m1 != m2 {
                lemma_asymmetric::<Metadata>(m2, m1);
                assert(!is_latest(rows, m2));
            }
        }
    }
    if m1.at_most(m2) {
        assert(index.latest() =~= set![m2]) by {
            assert(is_latest(rows, m2));
            if m1 != m2 {
                lemma_asymmetric::<Metadata>(m1, m2);
                assert(!is_latest(rows, m1));
            }
        }
    }
}

/// An entry that was added is found under its identity exactly as it was
/// added, provided the index holds no greater row of that identity.
pub proof fn law_add_then_get(store: StoreView, e: EntryView, now: Timestamp)
    requires
        supersedes(store.index, e.metadata),
    ensures
        store.added(e, now).entry_by_uuid(e.metadata.identity) == Ok::<_, Error>(e),
{
    let day = crate::stamp::instant_day_text(now.secs, now.nanos).unwrap();
    lemma_append_latest(store.index, e.metadata, day);
}

/// The row that is current for its identity is the one that is found under
/// it.
proof fn lemma_current_row(index: IndexView, m: MetadataView)
    requires
        index.latest().contains(m),
    ensures
        index.row_of(m.identity) == Some(m),
{
    lemma_latest_unique(index.records(), m, index.row_of(m.identity).unwrap());
}

/// An entry that was updated is found under its identity exactly as it was
/// given, provided the index holds no greater row of that identity.
pub proof fn law_update_then_get(store: StoreView, e: EntryView, now: Timestamp)
    requires
        supersedes(store.index, e.metadata),
    ensures
        store.updated(e, now).entry_by_uuid(e.metadata.identity) == Ok::<_, Error>(e),
{
    if store.index.latest().contains(e.metadata) {
        lemma_current_row(store.index, e.metadata);
    } else {
        let day = crate::stamp::instant_day_text(now.secs, now.nanos).unwrap();
        lemma_append_latest(store.index, e.metadata, day);
    }
}

/// After an update no other version of the entry is among the entries of any
/// project: an entry `v` of `project` with the identity of the updated entry
/// `e` is `e`.
pub proof fn law_update_hides_prior_version(
    store: StoreView,
    e: EntryView,
    now: Timestamp,
    project: Seq<char>,
    v: EntryView,
)
    requires
        supersedes(store.index, e.metadata),
        store.updated(e, now).entries(project) matches Ok(s) && s.contains(v),
        v.metadata.identity == e.metadata.identity,
    ensures
        v == e,
{
    let after = store.updated(e, now);
    law_update_then_get(store, e, now);
    let rows = after.rows_of(project);
    let s = after.with_text(rows);
    let k = choose|k: int| 0 <= k < s.len() && s[k] == v;
    assert(rows.contains(rows[k]));
    lemma_filter_set(after.index.current(), of_project(project));
    lemma_current(after.index);
    assert(after.index.current().contains(rows[k]));
    assert(after.index.latest().contains(rows[k]));
    lemma_current_row(after.index, rows[k]);
}

/// Cleanup removes exactly the bodies that no current row names, and keeps
/// the others as they are.
pub proof fn law_cleanup_removes_orphans(store: StoreView, id: Identity)
    requires
        store.blobs.dom().finite(),
    ensures
        store.orphans().contains(id) <==> store.blobs.dom().contains(id) && store.index.row_of(id)
            is None,
        store.cleaned().blobs.dom().contains(id) <==> store.blobs.dom().contains(id)
            && store.index.row_of(id) is Some,
        store.cleaned().blobs.dom().contains(id) ==> store.cleaned().blobs[id] == store.blobs[id],
        store.orphans().contains(id) ==> store.sweep_plan().contains(
            EffectView::RemoveFile { path: crate::store::layout::entry_file(id) },
        ),
        store.sweep_plan().len() == store.orphans().len(),
{
    let ids = lemma_enumeration::<Identity>(store.blobs.dom());
    let keep = |x: Identity| store.index.row_of(x) is None;
    lemma_filter_set(store.blob_ids(), keep);
    assert(store.blob_ids().contains(id) <==> store.blobs.dom().contains(id)) by {
        assert(store.blob_ids().to_set().contains(id) <==> store.blob_ids().contains(id));
    }
    if store.orphans().contains(id) {
        let k = choose|k: int| 0 <= k < store.orphans().len() && store.orphans()[k] == id;
        assert(store.sweep_plan()[k] == (EffectView::RemoveFile {
            path: crate::store::layout::entry_file(id),
        }));
    }
}

/// A second cleanup right after a cleanup removes no body.
pub proof fn law_cleanup_twice_removes_nothing(store: StoreView)
    requires
        store.blobs.dom().finite(),
    ensures
        store.cleaned().orphans() == Seq::<Identity>::empty(),
        store.cleaned().sweep_plan() == Seq::<EffectView>::empty(),
        store.cleaned().cleaned().blobs == store.cleaned().blobs,
        store.cleaned().cleaned().index.latest() == store.index.latest(),
{
    let once = store.cleaned();
    lemma_compact_keeps_latest(store.index);
    lemma_compact_keeps_latest(once.index);
    assert(once.blobs.dom().finite()) by {
        assert(once.blobs.dom().subset_of(store.blobs.dom()));
        vstd::set_lib::lemma_len_subset(once.blobs.dom(), store.blobs.dom());
    }
    let ids = lemma_enumeration::<Identity>(once.blobs.dom());
    let keep = |x: Identity| once.index.row_of(x) is None;
    assert forall|k: int| 0 <= k < once.blob_ids().len() implies !keep(
        #[trigger] once.blob_ids()[k],
    ) by {
        let id = once.blob_ids()[k];
        assert(once.blob_ids().contains(id));
        assert(once.blob_ids().to_set().contains(id));
        law_cleanup_removes_orphans(store, id);
    }
    lemma_filter_none(once.blob_ids(), keep);
    assert(once.sweep_plan() =~= Seq::<EffectView>::empty());
    assert(once.cleaned().blobs =~= once.blobs);
}

/// The rows of a sequence whose projects are all among `names`, which names
/// no project twice, are as many as the totals of the projects add up to.
proof fn lemma_totals(
    rows: Seq<MetadataView>,
    names: Seq<Seq<char>>,
    counts: Seq<ProjectCountView>,
)
    requires
        names.no_duplicates(),
        forall|k: int| 0 <= k < rows.len() ==> names.contains((#[trigger] rows[k]).project),
        counts.len() == names.len(),
        forall|i: int|
            0 <= i < counts.len() ==> (#[trigger] counts[i]).total_count == rows.filter(
                of_project(names[i]),
            ).len(),
    ensures
        total_of(counts) == rows.len(),
    decreases names.len(),
{
    if names.len() == 0 {
        if rows.len() > 0 {
            assert(names.contains(rows[0].project));
        }
    } else {
        let p = names.last();
        let others = |m: MetadataView| !of_project(p)(m);
        let rest = rows.filter(others);
        let fewer = names.drop_last();
        lemma_filter_split(rows, of_project(p));
        lemma_filter_set(rows, others);
        assert forall|k: int| 0 <= k < rest.len() implies fewer.contains(
            (#[trigger] rest[k]).project,
        ) by {
            assert(rest.contains(rest[k]));
            let j = choose|j: int| 0 <= j < rows.len() && rows[j] == rest[k];
            assert(names.contains(rows[j].project));
            let i = choose|i: int| 0 <= i < names.len() && names[i] == rows[j].project;
            assert(i < names.len() - 1);
            assert(fewer[i] == rows[j].project);
        }
        assert forall|i: int| 0 <= i < counts.drop_last().len() implies (
        #[trigger] counts.drop_last()[i]).total_count == rest.filter(of_project(fewer[i])).len() by {
            assert(names[i] != p);
            lemma_filter_twice(rows, of_project(names[i]), others);
            assert(counts[i].total_count == rows.filter(of_project(names[i])).len());
        }
        lemma_totals(rest, fewer, counts.drop_last());
        assert(counts[counts.len() - 1].total_count == rows.filter(of_project(p)).len());
    }
}

/// The totals of the projects add up to the number of current rows.
pub proof fn law_counts_sum_to_latest(store: StoreView, counts: Seq<ProjectCountView>)
    requires
        store.counted_by(counts),
    ensures
        total_of(counts) == store.index.latest().len(),
{
    lemma_current(store.index);
    let rows = store.index.current();
    let names = counted_projects(counts);
    crate::order::lemma_ascending_no_duplicates::<Metadata>(rows);
    crate::order::lemma_ascending_no_duplicates::<String>(names);
    rows.unique_seq_to_set();
    assert forall|k: int| 0 <= k < rows.len() implies names.contains(
        (#[trigger] rows[k]).project,
    ) by {
        assert(rows.contains(rows[k]));
        assert(store.index.latest().contains(rows[k]));
        assert(crate::store::index::projects_of(store.index.latest()).contains(rows[k].project));
        assert(names.to_set().contains(rows[k].project));
    }
    assert forall|i: int| 0 <= i < counts.len() implies (#[trigger] counts[i]).total_count
        == rows.filter(of_project(names[i])).len() by {
        assert(counts[i] == crate::store::count_of(rows, counts[i].project));
    }
    lemma_totals(rows, names, counts);
}

/// The current rows of a project, in ascending order, are the current rows
/// that name it.
proof fn lemma_rows_of(store: StoreView, project: Seq<char>)
    ensures
        ascending::<Metadata>(store.rows_of(project)),
        forall|x: MetadataView| #[trigger]
            store.rows_of(project).contains(x) <==> store.index.latest().contains(x) && x.project
                == project,
{
    lemma_current(store.index);
    lemma_filter_ascending::<Metadata>(store.index.current(), of_project(project));
    lemma_filter_set(store.index.current(), of_project(project));
    assert forall|x: MetadataView| #[trigger]
        store.rows_of(project).contains(x) <==> store.index.latest().contains(x) && x.project
            == project by {
        assert(store.index.current().contains(x) <==> store.index.current().to_set().contains(x));
    }
}

/// The first row of `rows` without a stored body, if there is one.
proof fn lemma_first_without_text(store: StoreView, rows: Seq<MetadataView>, k: int) -> (first: int)
    requires
        0 <= k < rows.len(),
        !store.blobs.dom().contains(rows[k].identity),
    ensures
        store.first_without_text(rows, first),
    decreases k,
{
    if exists|j: int| 0 <= j < k && !store.blobs.dom().contains((#[trigger] rows[j]).identity) {
        let j = choose|j: int|
            0 <= j < k && !store.blobs.dom().contains((#[trigger] rows[j]).identity);
        lemma_first_without_text(store, rows, j)
    } else {
        k
    }
}

/// Rows have entries exactly if the body of each of them is stored.
proof fn lemma_hydrate(store: StoreView, rows: Seq<MetadataView>)
    ensures
        store.hydrate(rows) is Ok <==> forall|k: int|
            0 <= k < rows.len() ==> store.blobs.dom().contains((#[trigger] rows[k]).identity),
        store.hydrate(rows) is Ok ==> store.hydrate(rows) == Ok::<_, Error>(store.with_text(rows)),
{
    if exists|k: int| 0 <= k < rows.len() && !store.blobs.dom().contains((#[trigger] rows[k]).identity) {
        let k = choose|k: int|
            0 <= k < rows.len() && !store.blobs.dom().contains((#[trigger] rows[k]).identity);
        let first = lemma_first_without_text(store, rows, k);
    }
}

/// The entries of rows are the rows with their bodies.
proof fn lemma_with_text(store: StoreView, rows: Seq<MetadataView>, v: EntryView)
    ensures
        store.with_text(rows).contains(v) <==> rows.contains(v.metadata) && v.text
            == store.blobs[v.metadata.identity],
{
    let s = store.with_text(rows);
    if s.contains(v) {
        let k = choose|k: int| 0 <= k < s.len() && s[k] == v;
        assert(rows[k] == v.metadata);
    }
    if rows.contains(v.metadata) && v.text == store.blobs[v.metadata.identity] {
        let k = choose|k: int| 0 <= k < rows.len() && rows[k] == v.metadata;
        assert(s[k] == v);
    }
}

/// What holds once the active entry `e` of `project` was found at position
/// `n` and is appended anew as done at `now`, not before its last change:
/// the new row is the current one of its identity and the others stay.
proof fn lemma_done(store: StoreView, n: int, project: Seq<char>, now: Timestamp, e: EntryView)
    requires
        store.entry_by_id(n, project) == Ok::<_, Error>(e),
        e.metadata.last_change.not_after(now),
    ensures
        e.is_active(),
        e.metadata.project == project,
        store.index.latest().contains(e.metadata),
        store.blobs.dom().contains(e.metadata.identity),
        e.text == store.blobs[e.metadata.identity],
        store.entries(project) matches Ok(s) && s.contains(e),
        forall|x: MetadataView| #[trigger]
            store.restated(e.metadata, Some(now), now).index.latest().contains(x) <==> (x
                == restated_row(e.metadata, Some(now), now) || (store.index.latest().contains(x)
                && x != e.metadata)),
{
    let s = store.entries(project)->Ok_0;
    let active = active_of(s);
    lemma_filter_set(s, |v: EntryView| v.is_active() == true);
    assert(active.contains(active[n - 1]));
    assert(s.contains(e));
    let rows = store.rows_of(project);
    lemma_hydrate(store, rows);
    lemma_with_text(store, rows, e);
    lemma_rows_of(store, project);
    let m = e.metadata;
    let k = choose|k: int| 0 <= k < rows.len() && rows[k] == m;
    assert(store.blobs.dom().contains(rows[k].identity));
    let m2 = restated_row(m, Some(now), now);
    assert(m.precedes(m2));
    assert(supersedes(store.index, m2)) by {
        assert forall|o: MetadataView| #[trigger]
            store.index.records().contains(o) && o.identity == m2.identity implies o.at_most(
            m2,
        ) by {
            assert(o.at_most(m));
            if o != m {
                Metadata::lemma_transitive(o, m, m2);
            }
        }
    }
    let day = crate::stamp::instant_day_text(now.secs, now.nanos).unwrap();
    lemma_append_latest(store.index, m2, day);
    let after = store.restated(m, Some(now), now);
    assert forall|x: MetadataView| #[trigger]
        after.index.latest().contains(x) <==> (x == m2 || (store.index.latest().contains(x) && x
            != m)) by {
        if store.index.latest().contains(x) && x.identity == m.identity {
            lemma_latest_unique(store.index.records(), x, m);
        }
    }
}

/// Marking an active entry as done, not before its last change, takes it out
/// of the active entries of its project and puts it, as done, among the
/// entries of the project that are done. The other entries of the project
/// stay where they are.
pub proof fn law_done_moves_entry(
    store: StoreView,
    n: int,
    project: Seq<char>,
    now: Timestamp,
    e: EntryView,
)
    requires
        store.entry_by_id(n, project) == Ok::<_, Error>(e),
        e.metadata.last_change.not_after(now),
    ensures
        ({
            let after = store.restated(e.metadata, Some(now), now);
            let done = EntryView {
                metadata: restated_row(e.metadata, Some(now), now),
                text: e.text,
            };
            &&& store.active_entries(project) matches Ok(active_before)
            &&& store.done_entries(project) matches Ok(done_before)
            &&& after.active_entries(project) matches Ok(active_after)
            &&& after.done_entries(project) matches Ok(done_after)
            &&& active_after.to_set() == active_before.to_set().remove(e)
            &&& done_after.to_set() == done_before.to_set().insert(done)
            &&& !done.is_active()
        }),
{
    lemma_done(store, n, project, now, e);
    let after = store.restated(e.metadata, Some(now), now);
    let m = e.metadata;
    let m2 = restated_row(m, Some(now), now);
    let done = EntryView { metadata: m2, text: e.text };
    let rows0 = store.rows_of(project);
    let rows1 = after.rows_of(project);
    lemma_rows_of(store, project);
    lemma_rows_of(after, project);
    lemma_hydrate(store, rows0);
    lemma_hydrate(after, rows1);
    assert forall|k: int| 0 <= k < rows1.len() implies after.blobs.dom().contains(
        (#[trigger] rows1[k]).identity,
    ) by {
        assert(rows1.contains(rows1[k]));
        if rows1[k] != m2 {
            assert(rows0.contains(rows1[k]));
            let j = choose|j: int| 0 <= j < rows0.len() && rows0[j] == rows1[k];
            assert(store.blobs.dom().contains(rows0[j].identity));
        }
    }
    let s0 = store.with_text(rows0);
    let s1 = after.with_text(rows1);
    let is_open = |v: EntryView| v.is_active() == true;
    let is_closed = |v: EntryView| v.is_active() == false;
    lemma_filter_set(s0, is_open);
    lemma_filter_set(s1, is_open);
    lemma_filter_set(s0, is_closed);
    lemma_filter_set(s1, is_closed);
    assert forall|v: EntryView| #[trigger] s1.contains(v) <==> (v == done || (s0.contains(v) && v
        != e)) by {
        lemma_with_text(store, rows0, v);
        lemma_with_text(after, rows1, v);
        lemma_with_text(store, rows0, e);
    }
    assert(active_of(s1).to_set() =~= active_of(s0).to_set().remove(e));
    assert(done_of(s1).to_set() =~= done_of(s0).to_set().insert(done));
}

/// Marking an entry of one project as done leaves the entries of every other
/// project as they are.
pub proof fn law_done_leaves_other_projects(
    store: StoreView,
    n: int,
    project: Seq<char>,
    now: Timestamp,
    e: EntryView,
    other: Seq<char>,
)
    requires
        store.entry_by_id(n, project) == Ok::<_, Error>(e),
        e.metadata.last_change.not_after(now),
        other != project,
    ensures
        store.restated(e.metadata, Some(now), now).entries(other) == store.entries(other),
{
    lemma_done(store, n, project, now, e);
    let after = store.restated(e.metadata, Some(now), now);
    lemma_rows_of(store, other);
    lemma_rows_of(after, other);
    assert(after.rows_of(other).to_set() =~= store.rows_of(other).to_set());
    lemma_ascending_unique::<Metadata>(after.rows_of(other), store.rows_of(other));
    let rows = store.rows_of(other);
    assert forall|k: int| after.first_without_text(rows, k) == store.first_without_text(
        rows,
        k,
    ) by {
    }
    assert(after.with_text(rows) =~= store.with_text(rows));
}

/// After compaction the current rows are what they were.
pub proof fn law_compact_keeps_latest(index: IndexView)
    ensures
        index.compact().latest() == index.latest(),
{
    lemma_compact_keeps_latest(index);
}

} // verus!
