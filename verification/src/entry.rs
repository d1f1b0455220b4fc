//! Entries and their metadata, with the total order that decides which
//! version of an entry is current.

use crate::identity::Identity;
use crate::error::Error;
use crate::order::{
    ascending, lemma_asymmetric, lemma_filter_ascending, views, Ordered, SortedSet,
};
use crate::stamp::{Date, Timestamp};
use crate::text::{
    lemma_text_lt_asymmetric, lemma_text_lt_irreflexive, lemma_text_lt_total,
    lemma_text_lt_transitive, text_less, text_lt, text_same,
};
use vstd::prelude::*;
use vstd::string::{StrSliceExecFns, StringExecFns};

verus! {

/// One version of the description of a todo entry.
///
/// Rows that share an identity are versions of the same entry; the greatest
/// of them under [`MetadataView::precedes`] is the current one.
#[derive(Debug, PartialEq, Eq, PartialOrd, Ord)]
pub struct Metadata {
    pub last_change: Timestamp,
    pub due: Option<Date>,
    pub started: Timestamp,
    pub project: String,
    pub finished: Option<Timestamp>,
    pub identity: Identity,
}

/// What a [`Metadata`] row holds.
pub struct MetadataView {
    pub last_change: Timestamp,
    pub due: Option<Date>,
    pub started: Timestamp,
    pub project: Seq<char>,
    pub finished: Option<Timestamp>,
    pub identity: Identity,
}

/// An absent day comes before every day; days go by the calendar.
pub open spec fn due_below(a: Option<Date>, b: Option<Date>) -> bool {
    match (a, b) {
        (None, Some(_)) => true,
        (Some(x), Some(y)) => x.precedes(y),
        _ => false,
    }
}

/// An absent instant comes before every instant; instants go by time.
pub open spec fn finished_below(a: Option<Timestamp>, b: Option<Timestamp>) -> bool {
    match (a, b) {
        (None, Some(_)) => true,
        (Some(x), Some(y)) => x.precedes(y),
        _ => false,
    }
}

impl MetadataView {
    /// The strict total order of rows: by `last_change`, then `due`, then
    /// `started`, then `project`, then `finished`, then `identity`.
    pub open spec fn precedes(self, other: MetadataView) -> bool {
        if self.last_change != other.last_change {
            self.last_change.precedes(other.last_change)
        } else if self.due != other.due {
            due_below(self.due, other.due)
        } else if self.started != other.started {
            self.started.precedes(other.started)
        } else if self.project != other.project {
            text_lt(self.project, other.project)
        } else if self.finished != other.finished {
            finished_below(self.finished, other.finished)
        } else {
            self.identity.precedes(other.identity)
        }
    }

    /// `self` is `other` or comes before it.
    pub open spec fn at_most(self, other: MetadataView) -> bool {
        self == other || self.precedes(other)
    }

    /// The entry is not finished.
    pub open spec fn is_active(self) -> bool {
        self.finished is None
    }
}

impl View for Metadata {
    type V = MetadataView;

    open spec fn view(&self) -> MetadataView {
        MetadataView {
            last_change: self.last_change,
            due: self.due,
            started: self.started,
            project: self.project@,
            finished: self.finished,
            identity: self.identity,
        }
    }
}

impl Clone for Metadata {
    fn clone(&self) -> (r: Self)
        ensures
            r == *self,
    {
        Metadata {
            last_change: self.last_change,
            due: self.due,
            started: self.started,
            project: self.project.clone(),
            finished: self.finished,
            identity: self.identity,
        }
    }
}

fn due_before(a: &Option<Date>, b: &Option<Date>) -> (r: bool)
    ensures
        r == due_below(*a, *b),
{
    match (a, b) {
        (None, Some(_)) => true,
        (Some(x), Some(y)) => x.before(y),
        _ => false,
    }
}

fn due_same(a: &Option<Date>, b: &Option<Date>) -> (r: bool)
    ensures
        r == (*a == *b),
{
    match (a, b) {
        (None, None) => true,
        (Some(x), Some(y)) => x.days == y.days,
        _ => false,
    }
}

fn finished_before(a: &Option<Timestamp>, b: &Option<Timestamp>) -> (r: bool)
    ensures
        r == finished_below(*a, *b),
{
    match (a, b) {
        (None, Some(_)) => true,
        (Some(x), Some(y)) => x.before(y),
        _ => false,
    }
}

fn finished_same(a: &Option<Timestamp>, b: &Option<Timestamp>) -> (r: bool)
    ensures
        r == (*a == *b),
{
    match (a, b) {
        (None, None) => true,
        (Some(x), Some(y)) => x.secs == y.secs && x.nanos == y.nanos,
        _ => false,
    }
}

fn instant_same(a: &Timestamp, b: &Timestamp) -> (r: bool)
    ensures
        r == (*a == *b),
{
    a.secs == b.secs && a.nanos == b.nanos
}

impl Metadata {
    /// A new active row for `identity` in `project`, started and last changed
    /// at `now`, with no due day.
    pub fn new(identity: Identity, project: String, now: Timestamp) -> (m: Metadata)
        ensures
            m@ == (MetadataView {
                last_change: now,
                due: None,
                started: now,
                project: project@,
                finished: None,
                identity,
            }),
    {
        Metadata { last_change: now, due: None, started: now, project, finished: None, identity }
    }

    /// Whether the entry is not finished.
    pub fn is_active(&self) -> (r: bool)
        ensures
            r == self@.is_active(),
    {
        self.finished.is_none()
    }

    /// Whether the entry is finished.
    pub fn is_done(&self) -> (r: bool)
        ensures
            r == !self@.is_active(),
    {
        self.finished.is_some()
    }

    /// Whether the two rows hold the same values.
    pub fn same(&self, other: &Metadata) -> (r: bool)
        ensures
            r == (self@ == other@),
    {
        instant_same(&self.last_change, &other.last_change) && due_same(&self.due, &other.due)
            && instant_same(&self.started, &other.started) && text_same(
            self.project.as_str(),
            other.project.as_str(),
        ) && finished_same(&self.finished, &other.finished) && self.identity.value
            == other.identity.value
    }
}

impl Ordered for Metadata {
    open spec fn below(a: MetadataView, b: MetadataView) -> bool {
        a.precedes(b)
    }

    fn before(&self, other: &Self) -> (r: bool) {
        if !instant_same(&self.last_change, &other.last_change) {
            self.last_change.before(&other.last_change)
        } else if !due_same(&self.due, &other.due) {
            due_before(&self.due, &other.due)
        } else if !instant_same(&self.started, &other.started) {
            self.started.before(&other.started)
        } else if !text_same(self.project.as_str(), other.project.as_str()) {
            text_less(self.project.as_str(), other.project.as_str())
        } else if !finished_same(&self.finished, &other.finished) {
            finished_before(&self.finished, &other.finished)
        } else {
            self.identity.value < other.identity.value
        }
    }

    proof fn lemma_irreflexive(a: MetadataView) {
    }

    proof fn lemma_transitive(a: MetadataView, b: MetadataView, c: MetadataView) {
        if a.last_change == b.last_change && b.last_change == c.last_change && a.due == b.due
            && b.due == c.due && a.started == b.started && b.started == c.started {
            if a.project != b.project && b.project != c.project {
                lemma_text_lt_transitive(a.project, b.project, c.project);
                lemma_text_lt_asymmetric(a.project, c.project);
            }
        }
    }

    proof fn lemma_total(a: MetadataView, b: MetadataView) {
        lemma_text_lt_total(a.project, b.project);
        if a.project == b.project && a.last_change == b.last_change && a.due == b.due && a.started
            == b.started && a.finished == b.finished && a.identity == b.identity {
            assert(a == b);
        }
    }
}

/// A todo entry: the current row of its metadata and its free-form body.
#[derive(Debug, PartialEq, Eq, PartialOrd, Ord)]
pub struct Entry {
    pub metadata: Metadata,
    pub text: String,
}

/// What an [`Entry`] holds.
pub struct EntryView {
    pub metadata: MetadataView,
    pub text: Seq<char>,
}

impl EntryView {
    /// The strict total order of entries: by metadata, then by text.
    pub open spec fn precedes(self, other: EntryView) -> bool {
        if self.metadata != other.metadata {
            self.metadata.precedes(other.metadata)
        } else {
            text_lt(self.text, other.text)
        }
    }

    /// The entry is not finished.
    pub open spec fn is_active(self) -> bool {
        self.metadata.is_active()
    }
}

impl View for Entry {
    type V = EntryView;

    open spec fn view(&self) -> EntryView {
        EntryView { metadata: self.metadata@, text: self.text@ }
    }
}

impl Clone for Entry {
    fn clone(&self) -> (r: Self)
        ensures
            r == *self,
    {
        Entry { metadata: self.metadata.clone(), text: self.text.clone() }
    }
}

impl Ordered for Entry {
    open spec fn below(a: EntryView, b: EntryView) -> bool {
        a.precedes(b)
    }

    fn before(&self, other: &Self) -> (r: bool) {
        if !self.metadata.same(&other.metadata) {
            self.metadata.before(&other.metadata)
        } else {
            text_less(self.text.as_str(), other.text.as_str())
        }
    }

    proof fn lemma_irreflexive(a: EntryView) {
        lemma_text_lt_irreflexive(a.text);
    }

    proof fn lemma_transitive(a: EntryView, b: EntryView, c: EntryView) {
        if a.metadata == b.metadata {
            if b.metadata == c.metadata {
                lemma_text_lt_transitive(a.text, b.text, c.text);
            }
        } else if b.metadata != c.metadata {
            Metadata::lemma_transitive(a.metadata, b.metadata, c.metadata);
            lemma_asymmetric::<Metadata>(a.metadata, c.metadata);
        }
    }

    proof fn lemma_total(a: EntryView, b: EntryView) {
        Metadata::lemma_total(a.metadata, b.metadata);
        lemma_text_lt_total(a.text, b.text);
    }
}

/// The line that stands for a text in a list: its first hundred
/// characters, with a space in the place of each line feed.
pub open spec fn line_of(text: Seq<char>) -> Seq<char> {
    text.take(if text.len() < 100 { text.len() as int } else { 100 }).map_values(
        |c: char| if c == '\n' { ' ' } else { c },
    )
}

impl Entry {
    /// The same entry in `project`.
    pub fn with_project(self, project: String) -> (r: Entry)
        ensures
            r@ == (EntryView {
                metadata: MetadataView { project: project@, ..self@.metadata },
                ..self@
            }),
    {
        Entry {
            metadata: Metadata {
                last_change: self.metadata.last_change,
                due: self.metadata.due,
                started: self.metadata.started,
                project,
                finished: self.metadata.finished,
                identity: self.metadata.identity,
            },
            text: self.text,
        }
    }

    /// The same entry with the body `text`.
    pub fn with_text(self, text: String) -> (r: Entry)
        ensures
            r@ == (EntryView { text: text@, ..self@ }),
    {
        Entry { metadata: self.metadata, text }
    }

    /// The line that stands for the entry in a list.
    pub fn to_string(&self) -> (r: String)
        ensures
            r@ == line_of(self@.text),
    {
        let text = self.text.as_str();
        let n = text.unicode_len();
        let end: usize = if n < 100 { n } else { 100 };
        let mut line = String::new();
        let mut i: usize = 0;
        let ghost spaced = |c: char| if c == '\n' { ' ' } else { c };
        assert(text@.take(0).map_values(spaced) =~= Seq::<char>::empty());
        while i < end
            invariant
                i <= end <= text@.len(),
                spaced == |c: char| if c == '\n' { ' ' } else { c },
                line@ == text@.take(i as int).map_values(spaced),
            decreases end - i,
        {
            let c = text.get_char(i);
            if c == '\n' {
                proof {
                    reveal_strlit(" ");
                }
                line.append(" ");
            } else {
                line.append(text.substring_char(i, i + 1));
            }
            assert(line@ =~= text@.take(i + 1).map_values(spaced));
            i += 1;
        }
        line
    }

    /// Whether the entry is not finished.
    pub fn is_active(&self) -> (r: bool)
        ensures
            r == self@.is_active(),
    {
        self.metadata.is_active()
    }

    /// Whether the entry is finished.
    pub fn is_done(&self) -> (r: bool)
        ensures
            r == !self@.is_active(),
    {
        self.metadata.is_done()
    }

    /// Whole seconds from the start of the entry to `now`, clamped to the
    /// range of `i64`.
    pub fn age(&self, now: &Timestamp) -> (r: i64)
        ensures
            r as int == crate::stamp::clamp_i64(now.secs as int - self.metadata.started.secs as int),
    {
        now.seconds_since(&self.metadata.started)
    }
}

/// `e` is in `entries` and no entry of `entries` with its identity is
/// greater.
pub open spec fn is_latest_entry(entries: Set<EntryView>, e: EntryView) -> bool {
    &&& entries.contains(e)
    &&& forall|o: EntryView| #[trigger]
        entries.contains(o) && o.metadata.identity == e.metadata.identity ==> o == e || o.precedes(
            e,
        )
}

/// In an ascending sequence an entry is the latest of its identity exactly
/// if no later entry has that identity.
pub proof fn lemma_latest_entry_in_ascending(s: Seq<EntryView>, i: int)
    requires
        ascending::<Entry>(s),
        0 <= i < s.len(),
    ensures
        is_latest_entry(s.to_set(), s[i]) <==> !exists|j: int|
            i < j < s.len() && (#[trigger] s[j]).metadata.identity == s[i].metadata.identity,
{
    let all = s.to_set();
    assert(all.contains(s[i])) by {
        assert(s.contains(s[i]));
    }
    if exists|j: int|
        i < j < s.len() && (#[trigger] s[j]).metadata.identity == s[i].metadata.identity {
        let j = choose|j: int|
            i < j < s.len() && (#[trigger] s[j]).metadata.identity == s[i].metadata.identity;
        assert(Entry::below(s[i], s[j]));
        lemma_asymmetric::<Entry>(s[i], s[j]);
        assert(s.contains(s[j]));
        assert(all.contains(s[j]));
    } else {
        assert forall|o: EntryView| #[trigger]
            all.contains(o) && o.metadata.identity == s[i].metadata.identity implies o == s[i]
            || o.precedes(s[i]) by {
            assert(s.contains(o));
            let k = choose|k: int| 0 <= k < s.len() && s[k] == o;
            if k < i {
                assert(Entry::below(s[k], s[i]));
            }
        }
    }
}

/// A set of entries, in ascending order.
#[derive(Clone, Debug, PartialEq, Eq)]
pub struct Entries {
    entries: SortedSet<Entry>,
}

impl View for Entries {
    type V = Seq<EntryView>;

    closed spec fn view(&self) -> Seq<EntryView> {
        self.entries@
    }
}

impl Entries {
    /// The entries are in strictly ascending order.
    pub open spec fn wf(&self) -> bool {
        ascending::<Entry>(self@)
    }

    /// No entries.
    pub fn new() -> (r: Entries)
        ensures
            r.wf(),
            r@ == Seq::<EntryView>::empty(),
    {
        Entries { entries: SortedSet::new() }
    }

    /// The entries of `v`, which are in ascending order.
    pub fn from_ascending(v: Vec<Entry>) -> (r: Entries)
        requires
            ascending::<Entry>(views(v@)),
        ensures
            r.wf(),
            r@ == views(v@),
    {
        Entries { entries: SortedSet::from_ascending(v) }
    }

    /// The entries of `v`, in whatever order they come.
    pub fn from_vec(v: Vec<Entry>) -> (r: Entries)
        ensures
            r.wf(),
            r@.to_set() == views(v@).to_set(),
    {
        Entries { entries: SortedSet::from_vec(v) }
    }

    /// The number of entries.
    pub fn len(&self) -> (n: usize)
        ensures
            n == self@.len(),
    {
        self.entries.len()
    }

    /// Whether there is no entry.
    pub fn is_empty(&self) -> (r: bool)
        ensures
            r == (self@.len() == 0),
    {
        self.entries.is_empty()
    }

    /// The entry at position `i` of the ascending order.
    pub fn get(&self, i: usize) -> (r: &Entry)
        requires
            i < self@.len(),
        ensures
            r@ == self@[i as int],
    {
        self.entries.get(i)
    }

    /// Adds `entry` unless it is there already; says whether it was added.
    pub fn insert(&mut self, entry: Entry) -> (added: bool)
        requires
            old(self).wf(),
        ensures
            final(self).wf(),
            added == !old(self)@.contains(entry@),
            final(self)@.to_set() == old(self)@.to_set().insert(entry@),
            !added ==> final(self)@ == old(self)@,
            added ==> final(self)@.len() == old(self)@.len() + 1,
    {
        self.entries.insert(entry)
    }

    /// Takes `entry` out if it is there; says whether it was.
    pub fn remove(&mut self, entry: &Entry) -> (removed: bool)
        requires
            old(self).wf(),
        ensures
            final(self).wf(),
            removed == old(self)@.contains(entry@),
            final(self)@.to_set() == old(self)@.to_set().remove(entry@),
            !removed ==> final(self)@ == old(self)@,
            removed ==> final(self)@.len() + 1 == old(self)@.len(),
    {
        self.entries.remove(entry)
    }

    /// The entries as a vector, in ascending order.
    pub fn into_inner(self) -> (v: Vec<Entry>)
        ensures
            views(v@) == self@,
    {
        self.entries.into_vec()
    }

    /// The entries that are active, or those that are done.
    fn by_state(self, active: bool) -> (r: Entries)
        requires
            self.wf(),
        ensures
            r.wf(),
            r@ == self@.filter(|e: EntryView| e.is_active() == active),
    {
        let ghost all = self@;
        let ghost keep = |e: EntryView| e.is_active() == active;
        let items = self.entries.into_vec();
        let mut out: Vec<Entry> = Vec::new();
        let mut i: usize = 0;
        assert(all.take(0).filter(keep) =~= Seq::<EntryView>::empty()) by {
            reveal(Seq::filter);
        }
        while i < items.len()
            invariant
                i <= items.len(),
                all == views(items@),
                keep == |e: EntryView| e.is_active() == active,
                views(out@) == all.take(i as int).filter(keep),
            decreases items.len() - i,
        {
            proof {
                assert(all.take(i + 1) =~= all.take(i as int).push(all[i as int]));
                all.take(i as int).lemma_filter_push(all[i as int], keep);
            }
            if items[i].is_active() == active {
                out.push(items[i].clone());
                assert(views(out@) =~= all.take(i as int).filter(keep).push(all[i as int]));
            }
            i += 1;
        }
        proof {
            assert(all.take(i as int) =~= all);
            lemma_filter_ascending::<Entry>(all, keep);
        }
        Entries::from_ascending(out)
    }

    /// The entries that are not finished.
    pub fn get_active(self) -> (r: Entries)
        requires
            self.wf(),
        ensures
            r.wf(),
            r@ == self@.filter(|e: EntryView| e.is_active() == true),
    {
        self.by_state(true)
    }

    /// The entries that are finished.
    pub fn get_done(self) -> (r: Entries)
        requires
            self.wf(),
        ensures
            r.wf(),
            r@ == self@.filter(|e: EntryView| e.is_active() == false),
    {
        self.by_state(false)
    }

    /// The active entry at position `id` of the ascending order, counted
    /// from 1.
    pub fn entry_by_id(self, id: usize) -> (r: Result<Entry, Error>)
        requires
            self.wf(),
        ensures
            match r {
                Ok(e) => 1 <= id <= active_of(self@).len() && e@ == active_of(self@)[id - 1],
                Err(e) => !(1 <= id <= active_of(self@).len()) && e == Error::EntryNotFound,
            },
    {
        let active = self.get_active();
        if id == 0 || active.len() < id {
            return Err(Error::EntryNotFound);
        }
        Ok(active.get(id - 1).clone())
    }

    /// For each identity the greatest of the entries that have it.
    pub fn latest_entries(self) -> (r: Entries)
        requires
            self.wf(),
        ensures
            r.wf(),
            r@ == self@.filter(|e: EntryView| is_latest_entry(self@.to_set(), e)),
    {
        let ghost all = self@;
        let ghost keep = |e: EntryView| is_latest_entry(all.to_set(), e);
        let items = self.entries.into_vec();
        let mut out: Vec<Entry> = Vec::new();
        let mut i: usize = 0;
        assert(all.take(0).filter(keep) =~= Seq::<EntryView>::empty()) by {
            reveal(Seq::filter);
        }
        while i < items.len()
            invariant
                i <= items.len(),
                all == views(items@),
                ascending::<Entry>(all),
                keep == |e: EntryView| is_latest_entry(all.to_set(), e),
                views(out@) == all.take(i as int).filter(keep),
            decreases items.len() - i,
        {
            let later = has_later_entry(&items, i);
            proof {
                lemma_latest_entry_in_ascending(all, i as int);
                assert(all.take(i + 1) =~= all.take(i as int).push(all[i as int]));
                all.take(i as int).lemma_filter_push(all[i as int], keep);
            }
            if !later {
                out.push(items[i].clone());
                assert(views(out@) =~= all.take(i as int).filter(keep).push(all[i as int]));
            }
            i += 1;
        }
        proof {
            assert(all.take(i as int) =~= all);
            lemma_filter_ascending::<Entry>(all, keep);
        }
        Entries::from_ascending(out)
    }
}

/// The active entries of `s`, in the order of `s`.
pub open spec fn active_of(s: Seq<EntryView>) -> Seq<EntryView> {
    s.filter(|e: EntryView| e.is_active() == true)
}

/// The finished entries of `s`, in the order of `s`.
pub open spec fn done_of(s: Seq<EntryView>) -> Seq<EntryView> {
    s.filter(|e: EntryView| e.is_active() == false)
}

/// Whether an entry after position `i` has the identity of the entry at `i`.
fn has_later_entry(items: &Vec<Entry>, i: usize) -> (r: bool)
    requires
        i < items.len(),
    ensures
        r == exists|j: int|
            i < j < items.len() && (#[trigger] views(items@)[j]).metadata.identity == views(
                items@,
            )[i as int].metadata.identity,
{
    let id = items[i].metadata.identity;
    let n = items.len();
    let mut j: usize = i + 1;
    while j < n
        invariant
            i < j <= n,
            n == items.len(),
            id == items@[i as int].metadata.identity,
            forall|k: int| i < k < j ==> (#[trigger] views(items@)[k]).metadata.identity != id,
        decreases n - j,
    {
        if items[j].metadata.identity.value == id.value {
            assert(views(items@)[j as int].metadata.identity == id);
            return true;
        }
        assert(views(items@)[j as int].metadata.identity != id);
        j += 1;
    }
    false
}

/// How many current entries a project has.
#[derive(Clone, Debug, PartialEq, Eq, PartialOrd, Ord)]
pub struct ProjectCount {
    pub project: String,
    pub active_count: usize,
    pub done_count: usize,
    pub total_count: usize,
}

/// What a [`ProjectCount`] holds.
pub struct ProjectCountView {
    pub project: Seq<char>,
    pub active_count: nat,
    pub done_count: nat,
    pub total_count: nat,
}

impl View for ProjectCount {
    type V = ProjectCountView;

    open spec fn view(&self) -> ProjectCountView {
        ProjectCountView {
            project: self.project@,
            active_count: self.active_count as nat,
            done_count: self.done_count as nat,
            total_count: self.total_count as nat,
        }
    }
}

impl Default for ProjectCount {
    fn default() -> (r: Self)
        ensures
            r@ == (ProjectCountView {
                project: Seq::empty(),
                active_count: 0,
                done_count: 0,
                total_count: 0,
            }),
    {
        ProjectCount { project: String::new(), active_count: 0, done_count: 0, total_count: 0 }
    }
}

impl ProjectCount {
    /// The sum of two counts, under the project of the second.
    pub fn add(self, other: ProjectCount) -> (r: ProjectCount)
        requires
            self.active_count + other.active_count <= usize::MAX,
            self.done_count + other.done_count <= usize::MAX,
            self.total_count + other.total_count <= usize::MAX,
        ensures
            r@ == (ProjectCountView {
                project: other@.project,
                active_count: self@.active_count + other@.active_count,
                done_count: self@.done_count + other@.done_count,
                total_count: self@.total_count + other@.total_count,
            }),
    {
        ProjectCount {
            project: other.project,
            active_count: self.active_count + other.active_count,
            done_count: self.done_count + other.done_count,
            total_count: self.total_count + other.total_count,
        }
    }

    /// Adds `other` to this count, which takes the project of `other`.
    pub fn add_assign(&mut self, other: ProjectCount)
        requires
            old(self).active_count + other.active_count <= usize::MAX,
            old(self).done_count + other.done_count <= usize::MAX,
            old(self).total_count + other.total_count <= usize::MAX,
        ensures
            final(self)@ == (ProjectCountView {
                project: other@.project,
                active_count: old(self)@.active_count + other@.active_count,
                done_count: old(self)@.done_count + other@.done_count,
                total_count: old(self)@.total_count + other@.total_count,
            }),
    {
        self.active_count = self.active_count + other.active_count;
        self.done_count = self.done_count + other.done_count;
        self.total_count = self.total_count + other.total_count;
        self.project = other.project;
    }
}

} // verus!
