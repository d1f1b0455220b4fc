//! The store: the image of the data directory and the operations on it.
//!
//! The index alone says which entries exist: an entry is what a current row
//! of the index names, with the body that the content store holds for its
//! identity.

pub mod content;
pub mod effect;
pub mod index;
pub mod layout;
pub mod vcs;

use crate::entry::{
    active_of, done_of, Entries, Entry, EntryView, Metadata, MetadataView, ProjectCount,
    ProjectCountView,
};
use crate::error::Error;
use crate::identity::{format_identity, identity_text, parse_identity, text_identity, Identity};
use crate::order::{
    ascending, lemma_ascending_unique, lemma_asymmetric, lemma_filter_ascending, views, Ordered,
};
use crate::record::file_rows;
use crate::seqs::lemma_filter_take;
use crate::stamp::{instant_day_text, Timestamp};
use crate::store::content::ContentStore;
use crate::store::effect::{Effect, EffectView};
use crate::store::index::{
    append_plan, compact_plan, lemma_compact_keeps_latest, lemma_current, lemma_row_of, has_row_of,
    projects_of, Index, IndexView, ShardView,
};
use crate::store::layout::{
    entry_file, entry_file_path, entry_folder, entry_folder_path, index_folder,
    index_folder_path, settings_file,
};
use crate::store::vcs::{hook_plan, VcsConfig, VcsSettings};
use crate::text::text_same;
use vstd::prelude::*;
use vstd::string::{StrSliceExecFns, StringExecFns};
use vstd::utf8::encode_utf8;

verus! {

/// The format version of the data directory that this library reads and
/// writes.
pub const STORE_VERSION: usize = 1;

/// What the settings file of a data directory holds.
#[derive(Clone, Copy, Debug, PartialEq, Eq, Structural)]
pub struct StoreSettings {
    pub store_version: usize,
    pub vcs: Option<VcsSettings>,
}

impl Default for StoreSettings {
    fn default() -> (r: Self)
        ensures
            r == (StoreSettings {
                store_version: STORE_VERSION,
                vcs: Some(VcsSettings { vcs_type: crate::store::vcs::VcsType::Git }),
            }),
    {
        StoreSettings { store_version: STORE_VERSION, vcs: Some(VcsSettings::default()) }
    }
}

/// The image of a data directory.
#[derive(Clone, Debug, PartialEq, Eq)]
pub struct Store {
    pub index: Index,
    pub content: ContentStore,
    pub settings: StoreSettings,
    pub vcs_config: VcsConfig,
}

/// What a [`Store`] holds.
pub struct StoreView {
    pub index: IndexView,
    pub blobs: Map<Identity, Seq<char>>,
    pub settings: StoreSettings,
    pub vcs_config: VcsConfig,
}

impl View for Store {
    type V = StoreView;

    open spec fn view(&self) -> StoreView {
        StoreView {
            index: self.index@,
            blobs: self.content@,
            settings: self.settings,
            vcs_config: self.vcs_config,
        }
    }
}

/// The rows of `project`.
pub open spec fn of_project(project: Seq<char>) -> spec_fn(MetadataView) -> bool {
    |m: MetadataView| m.project == project
}

/// The rows of `project` that are not finished.
pub open spec fn active_in(project: Seq<char>) -> spec_fn(MetadataView) -> bool {
    |m: MetadataView| m.project == project && m.is_active()
}

/// The rows of `project` that are finished.
pub open spec fn done_in(project: Seq<char>) -> spec_fn(MetadataView) -> bool {
    |m: MetadataView| m.project == project && !m.is_active()
}

/// The counts of the rows of `rows` that belong to `project`.
pub open spec fn count_of(rows: Seq<MetadataView>, project: Seq<char>) -> ProjectCountView {
    ProjectCountView {
        project,
        active_count: rows.filter(active_in(project)).len(),
        done_count: rows.filter(done_in(project)).len(),
        total_count: rows.filter(of_project(project)).len(),
    }
}

/// The sum of the totals of `counts`.
pub open spec fn total_of(counts: Seq<ProjectCountView>) -> nat
    decreases counts.len(),
{
    if counts.len() == 0 {
        0
    } else {
        total_of(counts.drop_last()) + counts.last().total_count
    }
}

/// The names of the projects of `counts`, in order.
pub open spec fn counted_projects(counts: Seq<ProjectCountView>) -> Seq<Seq<char>> {
    counts.map_values(|c: ProjectCountView| c.project)
}

impl StoreView {
    /// The current rows of `project`, in ascending order.
    pub open spec fn rows_of(self, project: Seq<char>) -> Seq<MetadataView> {
        self.index.current().filter(of_project(project))
    }

    /// The row at `k` is the first of `rows` whose body is not stored.
    pub open spec fn first_without_text(self, rows: Seq<MetadataView>, k: int) -> bool {
        &&& 0 <= k < rows.len()
        &&& !self.blobs.dom().contains(rows[k].identity)
        &&& forall|j: int| 0 <= j < k ==> self.blobs.dom().contains((#[trigger] rows[j]).identity)
    }

    /// The entry of each row: the row with the body stored for its identity.
    pub open spec fn with_text(self, rows: Seq<MetadataView>) -> Seq<EntryView> {
        rows.map_values(|m: MetadataView| EntryView { metadata: m, text: self.blobs[m.identity] })
    }

    /// The entries of `rows`, or the first row whose body is not stored.
    pub open spec fn hydrate(self, rows: Seq<MetadataView>) -> Result<Seq<EntryView>, Error> {
        if exists|k: int| self.first_without_text(rows, k) {
            Err(
                Error::TextNotFound {
                    identity: rows[choose|k: int| self.first_without_text(rows, k)].identity,
                },
            )
        } else {
            Ok(self.with_text(rows))
        }
    }

    /// The current entries of `project`, in ascending order.
    pub open spec fn entries(self, project: Seq<char>) -> Result<Seq<EntryView>, Error> {
        self.hydrate(self.rows_of(project))
    }

    /// The current entries of `project` that are not finished.
    pub open spec fn active_entries(self, project: Seq<char>) -> Result<Seq<EntryView>, Error> {
        match self.entries(project) {
            Ok(s) => Ok(active_of(s)),
            Err(e) => Err(e),
        }
    }

    /// The current entries of `project` that are finished.
    pub open spec fn done_entries(self, project: Seq<char>) -> Result<Seq<EntryView>, Error> {
        match self.entries(project) {
            Ok(s) => Ok(done_of(s)),
            Err(e) => Err(e),
        }
    }

    /// The active entry of `project` at position `id`, counted from 1.
    pub open spec fn entry_by_id(self, id: int, project: Seq<char>) -> Result<EntryView, Error> {
        match self.active_entries(project) {
            Err(e) => Err(e),
            Ok(active) => if 1 <= id <= active.len() {
                Ok(active[id - 1])
            } else {
                Err(Error::EntryNotFound)
            },
        }
    }

    /// The current entry with `identity`.
    pub open spec fn entry_by_uuid(self, identity: Identity) -> Result<EntryView, Error> {
        match self.index.row_of(identity) {
            None => Err(Error::EntryNotFound),
            Some(m) => if self.blobs.dom().contains(identity) {
                Ok(EntryView { metadata: m, text: self.blobs[identity] })
            } else {
                Err(Error::TextNotFound { identity })
            },
        }
    }

    /// The steps of the version-control hook after a change recorded under
    /// `message`.
    pub open spec fn hook(self, message: Seq<char>) -> Seq<EffectView> {
        hook_plan(self.settings.vcs, message, self.vcs_config)
    }

    /// The store after the entry `e` was added at `now`: its body is stored
    /// and its row appended.
    pub open spec fn added(self, e: EntryView, now: Timestamp) -> StoreView {
        StoreView {
            index: self.index.append(
                e.metadata,
                instant_day_text(now.secs, now.nanos).unwrap(),
            ),
            blobs: self.blobs.insert(e.metadata.identity, e.text),
            ..self
        }
    }

    /// What adding the entry `e` at `now` asks of the caller: write the body,
    /// append the row, run the hook.
    pub open spec fn add_plan(self, e: EntryView, now: Timestamp) -> Result<
        Seq<EffectView>,
        Error,
    > {
        match append_plan(self.index, e.metadata, now) {
            Err(err) => Err(err),
            Ok(append) => Ok(
                write_plan(e) + append + self.hook(
                    "added entry with id "@ + identity_text(e.metadata.identity.value),
                ),
            ),
        }
    }

    /// The store after the entry `e` was updated at `now`: its body is
    /// stored, and its row appended unless it is current already.
    pub open spec fn updated(self, e: EntryView, now: Timestamp) -> StoreView {
        StoreView {
            index: if self.index.latest().contains(e.metadata) {
                self.index
            } else {
                self.index.append(e.metadata, instant_day_text(now.secs, now.nanos).unwrap())
            },
            blobs: self.blobs.insert(e.metadata.identity, e.text),
            ..self
        }
    }

    /// What updating the entry `e` at `now` asks of the caller.
    pub open spec fn update_plan(self, e: EntryView, now: Timestamp) -> Result<
        Seq<EffectView>,
        Error,
    > {
        let hook = self.hook("updated entry with id "@ + identity_text(e.metadata.identity.value));
        if self.index.latest().contains(e.metadata) {
            Ok(write_plan(e) + hook)
        } else {
            match append_plan(self.index, e.metadata, now) {
                Err(err) => Err(err),
                Ok(append) => Ok(write_plan(e) + append + hook),
            }
        }
    }

    /// The store after the row of an entry was appended anew at `now`, with
    /// `finished` as given.
    pub open spec fn restated(
        self,
        m: MetadataView,
        finished: Option<Timestamp>,
        now: Timestamp,
    ) -> StoreView {
        StoreView {
            index: self.index.append(
                restated_row(m, finished, now),
                instant_day_text(now.secs, now.nanos).unwrap(),
            ),
            ..self
        }
    }

    /// What appending the row of the entry `found` anew asks of the caller:
    /// append the row, run the hook. The hook records every such change
    /// under the same message, whether the entry is finished by it or not.
    pub open spec fn restate_plan(
        self,
        found: Result<EntryView, Error>,
        finished: Option<Timestamp>,
        now: Timestamp,
    ) -> Result<Seq<EffectView>, Error> {
        match found {
            Err(err) => Err(err),
            Ok(e) => match append_plan(self.index, restated_row(e.metadata, finished, now), now) {
                Err(err) => Err(err),
                Ok(append) => Ok(
                    append + self.hook(
                        "marked entry with id "@ + identity_text(e.metadata.identity.value)
                            + " as done"@,
                    ),
                ),
            },
        }
    }

    /// The identities of the stored bodies, in ascending order.
    pub open spec fn blob_ids(self) -> Seq<Identity> {
        choose|s: Seq<Identity>| ascending::<Identity>(s) && s.to_set() == self.blobs.dom()
    }

    /// The identities of the stored bodies that no current row names, in
    /// ascending order.
    pub open spec fn orphans(self) -> Seq<Identity> {
        self.blob_ids().filter(|id: Identity| self.index.row_of(id) is None)
    }

    /// The store without the bodies that no current row names.
    pub open spec fn swept(self) -> StoreView {
        StoreView { blobs: self.blobs.remove_keys(self.orphans().to_set()), ..self }
    }

    /// What removing the bodies that no current row names asks of the
    /// caller: one file removal each, by ascending identity.
    pub open spec fn sweep_plan(self) -> Seq<EffectView> {
        removals(self.orphans())
    }

    /// The store after cleanup: the index compacted, and no body left that
    /// no current row names.
    pub open spec fn cleaned(self) -> StoreView {
        StoreView { index: self.index.compact(), ..self.swept() }
    }

    /// What cleanup asks of the caller: compact the index, remove the
    /// bodies that no current row names, run the hook.
    pub open spec fn cleanup_plan(self) -> Result<Seq<EffectView>, Error> {
        match compact_plan(self.index) {
            Err(err) => Err(err),
            Ok(compact) => Ok(compact + self.sweep_plan() + self.hook("ran cleanup"@)),
        }
    }

    /// `counts` holds, by ascending project name, one count for each project
    /// of the current rows, taken over the current rows.
    pub open spec fn counted_by(self, counts: Seq<ProjectCountView>) -> bool {
        &&& ascending::<String>(counted_projects(counts))
        &&& counted_projects(counts).to_set() == projects_of(self.index.latest())
        &&& forall|i: int|
            0 <= i < counts.len() ==> #[trigger] counts[i] == count_of(
                self.index.current(),
                counts[i].project,
            )
    }
}

/// What storing the body of `e` asks of the caller: make sure of the folder,
/// then write the file.
pub open spec fn write_plan(e: EntryView) -> Seq<EffectView> {
    seq![
        EffectView::CreateDir { path: entry_folder(e.metadata.identity) },
        EffectView::WriteFile {
            path: entry_file(e.metadata.identity),
            bytes: encode_utf8(e.text),
        },
    ]
}

/// The row `m` as it is appended anew at `now`: changed at `now`, and
/// finished as given.
pub open spec fn restated_row(
    m: MetadataView,
    finished: Option<Timestamp>,
    now: Timestamp,
) -> MetadataView {
    MetadataView { finished, last_change: now, ..m }
}

/// The removal of the file of each body of `ids`.
pub open spec fn removals(ids: Seq<Identity>) -> Seq<EffectView> {
    ids.map_values(|id: Identity| EffectView::RemoveFile { path: entry_file(id) })
}

/// The ascending sequence of the identities of the stored bodies is the
/// only one.
pub proof fn lemma_blob_ids(store: StoreView, ids: Seq<Identity>)
    requires
        ascending::<Identity>(ids),
        ids.to_set() == store.blobs.dom(),
    ensures
        store.blob_ids() == ids,
{
    lemma_ascending_unique::<Identity>(ids, store.blob_ids());
}

/// The entries of ascending rows are ascending.
pub proof fn lemma_with_text_ascending(store: StoreView, rows: Seq<MetadataView>)
    requires
        ascending::<Metadata>(rows),
    ensures
        ascending::<Entry>(store.with_text(rows)),
{
    let entries = store.with_text(rows);
    assert forall|i: int, j: int| 0 <= i < j < entries.len() implies #[trigger] Entry::below(
        entries[i],
        entries[j],
    ) by {
        assert(Metadata::below(rows[i], rows[j]));
        lemma_asymmetric::<Metadata>(rows[i], rows[j]);
    }
}

impl Store {
    /// The bodies are held as the content store asks.
    pub open spec fn wf(&self) -> bool {
        self.content.wf()
    }

    /// The current entries of `project`, in ascending order. Fails on the
    /// first of them whose body is not stored.
    pub fn get_entries(&self, project: &str) -> (r: Result<Entries, Error>)
        requires
            self.wf(),
        ensures
            match r {
                Ok(entries) => entries.wf() && self@.entries(project@) == Ok::<_, Error>(entries@),
                Err(e) => self@.entries(project@) == Err::<Seq<EntryView>, _>(e),
            },
    {
        let latest = self.index.metadata_most_recent();
        let ghost keep = of_project(project@);
        let ghost rows = self@.rows_of(project@);
        let mut out: Vec<Entry> = Vec::new();
        let mut i: usize = 0;
        proof {
            assert(latest@.take(0).filter(keep) =~= Seq::<MetadataView>::empty()) by {
                reveal(Seq::filter);
            }
            assert(views(out@) =~= self@.with_text(latest@.take(0).filter(keep)));
        }
        while i < latest.len()
            invariant
                i <= latest@.len(),
                self.wf(),
                latest@ == self@.index.current(),
                keep == of_project(project@),
                rows == latest@.filter(keep),
                views(out@) == self@.with_text(latest@.take(i as int).filter(keep)),
                forall|j: int|
                    0 <= j < latest@.take(i as int).filter(keep).len() ==> self@.blobs.dom().contains(
                        (#[trigger] rows[j]).identity,
                    ),
            decreases latest@.len() - i,
        {
            let ghost seen = latest@.take(i as int).filter(keep);
            proof {
                assert(latest@.take(i + 1) =~= latest@.take(i as int).push(latest@[i as int]));
                latest@.take(i as int).lemma_filter_push(latest@[i as int], keep);
                lemma_filter_take(latest@, keep, i as int);
                lemma_filter_take(latest@, keep, i + 1);
            }
            let row = latest.get(i);
            if text_same(row.project.as_str(), project) {
                proof {
                    let grown = latest@.take(i + 1).filter(keep);
                    assert(grown == seen.push(latest@[i as int]));
                    assert(rows.take(grown.len() as int) == grown);
                    assert(rows[seen.len() as int] == grown[seen.len() as int]);
                }
                match self.content.read(&row.identity) {
                    Ok(text) => {
                        let ghost held = views(out@);
                        let entry = Entry { metadata: row.clone(), text };
                        let ghost added = entry@;
                        out.push(entry);
                        proof {
                            let m = latest@[i as int];
                            assert(added == (EntryView { metadata: m, text: self@.blobs[m.identity] }));
                            assert(views(out@) =~= held.push(added));
                            assert(self@.with_text(seen.push(m)) =~= self@.with_text(seen).push(
                                added,
                            ));
                        }
                    },
                    Err(e) => {
                        proof {
                            let k = seen.len() as int;
                            assert(self@.first_without_text(rows, k));
                            let c = choose|c: int| self@.first_without_text(rows, c);
                            assert(c == k) by {
                                if c < k {
                                    assert(self@.blobs.dom().contains(rows[c].identity));
                                }
                                if k < c {
                                    assert(self@.blobs.dom().contains(rows[k].identity));
                                }
                            }
                        }
                        return Err(e);
                    },
                }
            }
            i += 1;
        }
        proof {
            assert(latest@.take(i as int) =~= latest@);
            assert forall|k: int| !self@.first_without_text(rows, k) by {
                if 0 <= k < rows.len() {
                    assert(self@.blobs.dom().contains(rows[k].identity));
                }
            }
            lemma_current(self@.index);
            lemma_filter_ascending::<Metadata>(latest@, keep);
            lemma_with_text_ascending(self@, rows);
        }
        Ok(Entries::from_ascending(out))
    }

    /// The current entries of `project` that are not finished.
    pub fn get_active_entries(&self, project: &str) -> (r: Result<Entries, Error>)
        requires
            self.wf(),
        ensures
            match r {
                Ok(entries) => entries.wf() && self@.active_entries(project@) == Ok::<_, Error>(
                    entries@,
                ),
                Err(e) => self@.active_entries(project@) == Err::<Seq<EntryView>, _>(e),
            },
    {
        match self.get_entries(project) {
            Ok(entries) => Ok(entries.get_active()),
            Err(e) => Err(e),
        }
    }

    /// The current entries of `project` that are finished.
    pub fn get_done_entries(&self, project: &str) -> (r: Result<Entries, Error>)
        requires
            self.wf(),
        ensures
            match r {
                Ok(entries) => entries.wf() && self@.done_entries(project@) == Ok::<_, Error>(
                    entries@,
                ),
                Err(e) => self@.done_entries(project@) == Err::<Seq<EntryView>, _>(e),
            },
    {
        match self.get_entries(project) {
            Ok(entries) => Ok(entries.get_done()),
            Err(e) => Err(e),
        }
    }

    /// The active entry of `project` at position `entry_id` of the ascending
    /// order, counted from 1. The position is that of this moment only.
    pub fn get_entry_by_id(&self, entry_id: usize, project: &str) -> (r: Result<Entry, Error>)
        requires
            self.wf(),
        ensures
            match r {
                Ok(entry) => self@.entry_by_id(entry_id as int, project@) == Ok::<_, Error>(entry@),
                Err(e) => self@.entry_by_id(entry_id as int, project@) == Err::<EntryView, _>(e),
            },
    {
        match self.get_entries(project) {
            Ok(entries) => entries.entry_by_id(entry_id),
            Err(e) => Err(e),
        }
    }

    /// The current entry with `identity`.
    pub fn get_entry_by_uuid(&self, identity: &Identity) -> (r: Result<Entry, Error>)
        requires
            self.wf(),
        ensures
            match r {
                Ok(entry) => self@.entry_by_uuid(*identity) == Ok::<_, Error>(entry@),
                Err(e) => self@.entry_by_uuid(*identity) == Err::<EntryView, _>(e),
            },
    {
        match self.index.find(identity) {
            None => Err(Error::EntryNotFound),
            Some(metadata) => match self.content.read(identity) {
                Ok(text) => Ok(Entry { metadata, text }),
                Err(e) => Err(e),
            },
        }
    }

    /// The names of the projects of the current entries, each once, in
    /// ascending order.
    pub fn get_projects(&self) -> (r: Vec<String>)
        ensures
            ascending::<String>(views(r@)),
            views(r@).to_set() == projects_of(self@.index.latest()),
    {
        self.index.projects()
    }

    /// For each project of the current entries, by ascending name, how many
    /// of them are active, how many are done, and how many there are.
    pub fn get_projects_count(&self) -> (r: Vec<ProjectCount>)
        ensures
            self@.counted_by(views(r@)),
    {
        let latest = self.index.metadata_most_recent();
        let names = self.index.projects();
        let ghost rows = latest@;
        let mut counts: Vec<ProjectCount> = Vec::new();
        let mut i: usize = 0;
        while i < names.len()
            invariant
                i <= names.len(),
                rows == latest@,
                counts@.len() == i,
                forall|k: int|
                    0 <= k < i ==> (#[trigger] counts@[k])@ == count_of(rows, names@[k]@),
            decreases names.len() - i,
        {
            let name = names[i].clone();
            let ghost p = name@;
            let ghost all = of_project(p);
            let ghost active = active_in(p);
            let ghost done = done_in(p);
            let mut active_count: usize = 0;
            let mut done_count: usize = 0;
            let mut total_count: usize = 0;
            let mut j: usize = 0;
            proof {
                reveal(Seq::filter);
                assert(rows.take(0) =~= Seq::<MetadataView>::empty());
            }
            while j < latest.len()
                invariant
                    j <= latest@.len(),
                    rows == latest@,
                    all == of_project(p),
                    active == active_in(p),
                    done == done_in(p),
                    p == name@,
                    active_count == rows.take(j as int).filter(active).len(),
                    done_count == rows.take(j as int).filter(done).len(),
                    total_count == rows.take(j as int).filter(all).len(),
                decreases latest@.len() - j,
            {
                proof {
                    let front = rows.take(j as int);
                    assert(rows.take(j + 1) =~= front.push(rows[j as int]));
                    front.lemma_filter_push(rows[j as int], all);
                    front.lemma_filter_push(rows[j as int], active);
                    front.lemma_filter_push(rows[j as int], done);
                    front.lemma_filter_len(all);
                    front.lemma_filter_len(active);
                    front.lemma_filter_len(done);
                }
                let row = latest.get(j);
                if text_same(row.project.as_str(), name.as_str()) {
                    total_count += 1;
                    if row.is_active() {
                        active_count += 1;
                    } else {
                        done_count += 1;
                    }
                }
                j += 1;
            }
            assert(rows.take(j as int) =~= rows);
            counts.push(ProjectCount { project: name, active_count, done_count, total_count });
            i += 1;
        }
        proof {
            lemma_current(self@.index);
            let c = views(counts@);
            assert(counted_projects(c) =~= views(names@));
            assert forall|k: int| 0 <= k < c.len() implies #[trigger] c[k] == count_of(
                self@.index.current(),
                c[k].project,
            ) by {
                assert(counts@[k]@ == count_of(rows, names@[k]@));
            }
        }
        counts
    }

    /// The image of a data directory with these settings and without
    /// entries, for the writer `identifier`. The caller then takes the files
    /// of the directory into the image.
    pub fn open(identifier: String, vcs_config: VcsConfig, settings: StoreSettings) -> (r: Result<
        Store,
        Error,
    >)
        ensures
            match r {
                Ok(store) => {
                    &&& settings.store_version == STORE_VERSION
                    &&& store.wf()
                    &&& store@ == (StoreView {
                        index: IndexView {
                            identifier: identifier@,
                            shards: Seq::empty(),
                            compacted: None,
                        },
                        blobs: Map::empty(),
                        settings,
                        vcs_config,
                    })
                },
                Err(e) => settings.store_version != STORE_VERSION && e == (Error::VersionMismatch {
                    found: settings.store_version,
                }),
            },
    {
        if settings.store_version != STORE_VERSION {
            return Err(Error::VersionMismatch { found: settings.store_version });
        }
        Ok(Store { index: Index::new(identifier), content: ContentStore::new(), settings, vcs_config })
    }

    /// Takes the bytes of the shard file of `writer` for `day` into the
    /// image.
    pub fn load_shard(&mut self, writer: String, day: String, bytes: &Vec<u8>) -> (r: Result<
        (),
        Error,
    >)
        ensures
            match r {
                Ok(()) => file_rows(bytes@) matches Ok(rows) && final(self)@ == (StoreView {
                    index: IndexView {
                        shards: old(self)@.index.shards.push(
                            ShardView { writer: writer@, day: day@, rows },
                        ),
                        ..old(self)@.index
                    },
                    ..old(self)@
                }) && final(self).content == old(self).content,
                Err(e) => e matches Error::Serialization(cause) && file_rows(bytes@) == Err::<
                    Seq<MetadataView>,
                    _,
                >(cause) && *final(self) == *old(self),
            },
    {
        match self.index.load_shard(writer, day, bytes) {
            Ok(()) => Ok(()),
            Err(e) => Err(Error::Serialization(e)),
        }
    }

    /// Takes the bytes of the compacted index file into the image.
    pub fn load_compacted(&mut self, bytes: &Vec<u8>) -> (r: Result<(), Error>)
        ensures
            match r {
                Ok(()) => file_rows(bytes@) matches Ok(rows) && final(self)@ == (StoreView {
                    index: IndexView { compacted: Some(rows), ..old(self)@.index },
                    ..old(self)@
                }) && final(self).content == old(self).content,
                Err(e) => e matches Error::Serialization(cause) && file_rows(bytes@) == Err::<
                    Seq<MetadataView>,
                    _,
                >(cause) && *final(self) == *old(self),
            },
    {
        match self.index.load_compacted(bytes) {
            Ok(()) => Ok(()),
            Err(e) => Err(Error::Serialization(e)),
        }
    }

    /// Takes the body file with the name `name` (without its extension) and
    /// the content `text` into the image.
    pub fn load_blob(&mut self, name: &str, text: String) -> (r: Result<(), Error>)
        requires
            old(self).wf(),
        ensures
            final(self).wf(),
            match r {
                Ok(()) => text_identity(name@) matches Some(value) && final(self)@ == (StoreView {
                    blobs: old(self)@.blobs.insert(Identity { value }, text@),
                    ..old(self)@
                }),
                Err(e) => text_identity(name@) is None && e == Error::BlobName && *final(self)
                    == *old(self),
            },
    {
        match parse_identity(name) {
            Some(id) => {
                self.content.write(id, text);
                Ok(())
            },
            None => Err(Error::BlobName),
        }
    }

    /// The path of the folder of the index.
    pub fn index_folder() -> (r: Vec<String>)
        ensures
            views(r@) == index_folder(),
    {
        index_folder_path()
    }

    /// The path of the settings file.
    pub fn settings_path() -> (r: Vec<String>)
        ensures
            views(r@) == settings_file(),
    {
        crate::store::layout::settings_path()
    }

    /// The path of the folder that holds the body of `entry`.
    pub fn get_entry_foldername(entry: &Metadata) -> (r: Vec<String>)
        ensures
            views(r@) == entry_folder(entry@.identity),
    {
        entry_folder_path(&entry.identity)
    }

    /// The path of the file that holds the body of `entry`.
    pub fn get_entry_filename(entry: &Metadata) -> (r: Vec<String>)
        ensures
            views(r@) == entry_file(entry@.identity),
    {
        entry_file_path(&entry.identity)
    }

    /// The entry of the row `metadata`: the row with the body stored for its
    /// identity.
    pub fn get_entry_for_metadata(&self, metadata: Metadata) -> (r: Result<Entry, Error>)
        requires
            self.wf(),
        ensures
            match r {
                Ok(entry) => self@.blobs.dom().contains(metadata@.identity) && entry@ == (EntryView {
                    metadata: metadata@,
                    text: self@.blobs[metadata@.identity],
                }),
                Err(e) => !self@.blobs.dom().contains(metadata@.identity) && e == (
                Error::TextNotFound { identity: metadata@.identity }),
            },
    {
        match self.content.read(&metadata.identity) {
            Ok(text) => Ok(Entry { metadata, text }),
            Err(e) => Err(e),
        }
    }

    /// Stores the body of `entry`, in the place of any earlier one.
    pub fn write_entry_text(&mut self, entry: &Entry) -> (effects: Vec<Effect>)
        requires
            old(self).wf(),
        ensures
            final(self).wf(),
            final(self)@ == (StoreView {
                blobs: old(self)@.blobs.insert(entry@.metadata.identity, entry@.text),
                ..old(self)@
            }),
            final(self).index == old(self).index,
            views(effects@) == write_plan(entry@),
    {
        self.content.write(entry.metadata.identity, entry.text.clone());
        let mut effects: Vec<Effect> = Vec::new();
        effects.push(Effect::CreateDir { path: entry_folder_path(&entry.metadata.identity) });
        effects.push(
            Effect::WriteFile {
                path: entry_file_path(&entry.metadata.identity),
                bytes: entry.text.as_str().as_bytes_vec(),
            },
        );
        assert(views(effects@) =~= write_plan(entry@));
        effects
    }

    /// The steps of the version-control hook after a change recorded under
    /// `message`.
    fn hook(&self, message: &str) -> (r: Vec<Effect>)
        ensures
            views(r@) == self@.hook(message@),
    {
        match &self.settings.vcs {
            Some(vcs) => vcs.commit(message, &self.vcs_config),
            None => {
                let r: Vec<Effect> = Vec::new();
                assert(views(r@) =~= self@.hook(message@));
                r
            },
        }
    }

    /// Adds `entry` at the instant `now`: stores its body and appends its
    /// row to this writer's shard of the day.
    pub fn add_entry(&mut self, entry: Entry, now: &Timestamp) -> (r: Result<Vec<Effect>, Error>)
        requires
            old(self).wf(),
        ensures
            final(self).wf(),
            match r {
                Ok(effects) => {
                    &&& old(self)@.add_plan(entry@, *now) == Ok::<_, Error>(views(effects@))
                    &&& final(self)@ == old(self)@.added(entry@, *now)
                },
                Err(e) => {
                    &&& old(self)@.add_plan(entry@, *now) == Err::<Seq<EffectView>, _>(e)
                    &&& *final(self) == *old(self)
                },
            },
    {
        let mut append = match self.index.metadata_add(&entry.metadata, now) {
            Ok(append) => append,
            Err(e) => { return Err(e); },
        };
        let mut effects = self.write_entry_text(&entry);
        let mut hook = self.hook(message("added entry with id ", &entry.metadata.identity, "").as_str());
        proof {
            assert("added entry with id "@ + identity_text(entry@.metadata.identity.value) + ""@
                =~= "added entry with id "@ + identity_text(entry@.metadata.identity.value)) by {
                reveal_strlit("");
            }
        }
        let ghost written = views(effects@);
        let ghost appended = views(append@);
        let ghost hooked = views(hook@);
        effects.append(&mut append);
        effects.append(&mut hook);
        assert(views(effects@) =~= written + appended + hooked);
        Ok(effects)
    }

    /// Appends the row of `entry` anew at `now`, with `finished` as given.
    fn restate(&mut self, entry: &Entry, finished: Option<Timestamp>, now: &Timestamp) -> (r: Result<
        Vec<Effect>,
        Error,
    >)
        ensures
            final(self).content == old(self).content,
            match r {
                Ok(effects) => {
                    &&& old(self)@.restate_plan(Ok(entry@), finished, *now) == Ok::<_, Error>(
                        views(effects@),
                    )
                    &&& final(self)@ == old(self)@.restated(entry@.metadata, finished, *now)
                },
                Err(e) => {
                    &&& old(self)@.restate_plan(Ok(entry@), finished, *now) == Err::<
                        Seq<EffectView>,
                        _,
                    >(e)
                    &&& *final(self) == *old(self)
                },
            },
    {
        let row = Metadata {
            last_change: *now,
            due: entry.metadata.due,
            started: entry.metadata.started,
            project: entry.metadata.project.clone(),
            finished,
            identity: entry.metadata.identity,
        };
        assert(row@ == restated_row(entry@.metadata, finished, *now));
        let mut effects = match self.index.metadata_add(&row, now) {
            Ok(effects) => effects,
            Err(e) => { return Err(e); },
        };
        let mut hook = self.hook(
            message("marked entry with id ", &entry.metadata.identity, " as done").as_str(),
        );
        let ghost appended = views(effects@);
        let ghost hooked = views(hook@);
        effects.append(&mut hook);
        assert(views(effects@) =~= appended + hooked);
        Ok(effects)
    }

    /// Marks as done, at the instant `now`, the active entry of `project` at
    /// position `entry_id`, counted from 1.
    pub fn entry_done(&mut self, entry_id: usize, project: &str, now: &Timestamp) -> (r: Result<
        Vec<Effect>,
        Error,
    >)
        requires
            old(self).wf(),
        ensures
            final(self).wf(),
            match r {
                Ok(effects) => {
                    &&& old(self)@.restate_plan(
                        old(self)@.entry_by_id(entry_id as int, project@),
                        Some(*now),
                        *now,
                    ) == Ok::<_, Error>(views(effects@))
                    &&& old(self)@.entry_by_id(entry_id as int, project@) matches Ok(entry)
                    &&& final(self)@ == old(self)@.restated(entry.metadata, Some(*now), *now)
                },
                Err(e) => {
                    &&& old(self)@.restate_plan(
                        old(self)@.entry_by_id(entry_id as int, project@),
                        Some(*now),
                        *now,
                    ) == Err::<Seq<EffectView>, _>(e)
                    &&& *final(self) == *old(self)
                },
            },
    {
        let entry = match self.get_entry_by_id(entry_id, project) {
            Ok(entry) => entry,
            Err(e) => { return Err(e); },
        };
        self.restate(&entry, Some(*now), now)
    }

    /// Marks the current entry with `identity` as done at the instant `now`.
    pub fn entry_done_by_uuid(&mut self, identity: &Identity, now: &Timestamp) -> (r: Result<
        Vec<Effect>,
        Error,
    >)
        requires
            old(self).wf(),
        ensures
            final(self).wf(),
            match r {
                Ok(effects) => {
                    &&& old(self)@.restate_plan(
                        old(self)@.entry_by_uuid(*identity),
                        Some(*now),
                        *now,
                    ) == Ok::<_, Error>(views(effects@))
                    &&& old(self)@.entry_by_uuid(*identity) matches Ok(entry)
                    &&& final(self)@ == old(self)@.restated(entry.metadata, Some(*now), *now)
                },
                Err(e) => {
                    &&& old(self)@.restate_plan(
                        old(self)@.entry_by_uuid(*identity),
                        Some(*now),
                        *now,
                    ) == Err::<Seq<EffectView>, _>(e)
                    &&& *final(self) == *old(self)
                },
            },
    {
        let entry = match self.get_entry_by_uuid(identity) {
            Ok(entry) => entry,
            Err(e) => { return Err(e); },
        };
        self.restate(&entry, Some(*now), now)
    }

    /// Marks the current entry with `identity` as active again at the
    /// instant `now`.
    pub fn entry_active_by_uuid(&mut self, identity: &Identity, now: &Timestamp) -> (r: Result<
        Vec<Effect>,
        Error,
    >)
        requires
            old(self).wf(),
        ensures
            final(self).wf(),
            match r {
                Ok(effects) => {
                    &&& old(self)@.restate_plan(old(self)@.entry_by_uuid(*identity), None, *now)
                        == Ok::<_, Error>(views(effects@))
                    &&& old(self)@.entry_by_uuid(*identity) matches Ok(entry)
                    &&& final(self)@ == old(self)@.restated(entry.metadata, None, *now)
                },
                Err(e) => {
                    &&& old(self)@.restate_plan(old(self)@.entry_by_uuid(*identity), None, *now)
                        == Err::<Seq<EffectView>, _>(e)
                    &&& *final(self) == *old(self)
                },
            },
    {
        let entry = match self.get_entry_by_uuid(identity) {
            Ok(entry) => entry,
            Err(e) => { return Err(e); },
        };
        self.restate(&entry, None, now)
    }

    /// Stores the body of `entry` anew and, unless its row is current
    /// already, appends the row at the instant `now`.
    pub fn update_entry(&mut self, entry: Entry, now: &Timestamp) -> (r: Result<Vec<Effect>, Error>)
        requires
            old(self).wf(),
        ensures
            final(self).wf(),
            match r {
                Ok(effects) => {
                    &&& old(self)@.update_plan(entry@, *now) == Ok::<_, Error>(views(effects@))
                    &&& final(self)@ == old(self)@.updated(entry@, *now)
                },
                Err(e) => {
                    &&& old(self)@.update_plan(entry@, *now) == Err::<Seq<EffectView>, _>(e)
                    &&& *final(self) == *old(self)
                },
            },
    {
        let known = self.index.metadata_most_recent().contains(&entry.metadata);
        let mut append: Vec<Effect> = Vec::new();
        if !known {
            append = match self.index.metadata_add(&entry.metadata, now) {
                Ok(append) => append,
                Err(e) => { return Err(e); },
            };
        }
        let mut effects = self.write_entry_text(&entry);
        let mut hook = self.hook(
            message("updated entry with id ", &entry.metadata.identity, "").as_str(),
        );
        proof {
            assert("updated entry with id "@ + identity_text(entry@.metadata.identity.value) + ""@
                =~= "updated entry with id "@ + identity_text(entry@.metadata.identity.value)) by {
                reveal_strlit("");
            }
        }
        let ghost written = views(effects@);
        let ghost appended = views(append@);
        let ghost hooked = views(hook@);
        effects.append(&mut append);
        effects.append(&mut hook);
        assert(views(effects@) =~= written + appended + hooked);
        assert(known ==> written + appended + hooked =~= written + hooked);
        Ok(effects)
    }

    /// Removes every stored body that no current row names.
    pub fn cleanup_unreferenced_entry(&mut self) -> (effects: Vec<Effect>)
        requires
            old(self).wf(),
        ensures
            final(self).wf(),
            final(self)@ == old(self)@.swept(),
            final(self).index == old(self).index,
            views(effects@) == old(self)@.sweep_plan(),
    {
        let latest = self.index.metadata_most_recent();
        let ids = self.content.list_all_blob_ids();
        let ghost all = views(ids@);
        let ghost orphan = |id: Identity| old(self)@.index.row_of(id) is None;
        let mut effects: Vec<Effect> = Vec::new();
        let mut i: usize = 0;
        proof {
            lemma_blob_ids(old(self)@, all);
            assert(all =~= ids@);
            assert(all.take(0).filter(orphan) =~= Seq::<Identity>::empty()) by {
                reveal(Seq::filter);
            }
            assert(self@.blobs =~= old(self)@.blobs.remove_keys(Seq::<Identity>::empty().to_set()));
            assert(views(effects@) =~= removals(Seq::<Identity>::empty()));
        }
        while i < ids.len()
            invariant
                i <= ids.len(),
                self.wf(),
                all == ids@,
                self.index == old(self).index,
                self.settings == old(self).settings,
                self.vcs_config == old(self).vcs_config,
                latest@ == old(self)@.index.current(),
                orphan == |id: Identity| old(self)@.index.row_of(id) is None,
                self@.blobs == old(self)@.blobs.remove_keys(
                    all.take(i as int).filter(orphan).to_set(),
                ),
                views(effects@) == removals(all.take(i as int).filter(orphan)),
            decreases ids.len() - i,
        {
            let id = ids[i];
            let referenced = has_row_of(&latest, &id);
            proof {
                lemma_row_of(old(self)@.index, id);
                assert(all.take(i + 1) =~= all.take(i as int).push(id));
                all.take(i as int).lemma_filter_push(id, orphan);
            }
            if !referenced {
                let ghost gone = all.take(i as int).filter(orphan);
                let ghost held = views(effects@);
                self.content.remove(&id);
                effects.push(Effect::RemoveFile { path: entry_file_path(&id) });
                proof {
                    gone.lemma_push_to_set_commute(id);
                    assert(self@.blobs =~= old(self)@.blobs.remove_keys(gone.push(id).to_set()));
                    assert(views(effects@) =~= held.push(
                        EffectView::RemoveFile { path: entry_file(id) },
                    ));
                    assert(removals(gone.push(id)) =~= removals(gone).push(
                        EffectView::RemoveFile { path: entry_file(id) },
                    ));
                }
            }
            i += 1;
        }
        assert(all.take(i as int) =~= all);
        effects
    }

    /// Compacts the index, then removes every stored body that no current
    /// row names. What is current stays what it was.
    pub fn run_cleanup(&mut self) -> (r: Result<Vec<Effect>, Error>)
        requires
            old(self).wf(),
        ensures
            final(self).wf(),
            match r {
                Ok(effects) => {
                    &&& old(self)@.cleanup_plan() == Ok::<_, Error>(views(effects@))
                    &&& final(self)@ == old(self)@.cleaned()
                },
                Err(e) => {
                    &&& old(self)@.cleanup_plan() == Err::<Seq<EffectView>, _>(e)
                    &&& *final(self) == *old(self)
                },
            },
    {
        let mut effects = match self.index.compact() {
            Ok(effects) => effects,
            Err(e) => { return Err(e); },
        };
        let ghost compacted = *self;
        let mut sweep = self.cleanup_unreferenced_entry();
        let mut hook = self.hook("ran cleanup");
        proof {
            lemma_compact_keeps_latest(old(self)@.index);
            assert(compacted@.blob_ids() == old(self)@.blob_ids());
            assert(compacted@.orphans() =~= old(self)@.orphans()) by {
                let a = |id: Identity| compacted@.index.row_of(id) is None;
                let b = |id: Identity| old(self)@.index.row_of(id) is None;
                assert(a =~= b);
            }
        }
        let ghost first = views(effects@);
        let ghost second = views(sweep@);
        let ghost third = views(hook@);
        effects.append(&mut sweep);
        effects.append(&mut hook);
        assert(views(effects@) =~= first + second + third);
        Ok(effects)
    }
}

/// The text made of `prefix`, the text of `id` and `suffix`.
fn message(prefix: &str, id: &Identity, suffix: &str) -> (r: String)
    ensures
        r@ == prefix@ + identity_text(id.value) + suffix@,
{
    prefix.to_owned().concat(format_identity(id).as_str()).concat(suffix)
}

} // verus!
