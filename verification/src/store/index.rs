//! The index: an append-only log of metadata rows, sharded by writer and
//! day, with an optional compacted file beside the shards.
//!
//! Each writer appends to its own shard of the day, so writers never touch
//! the same file. Reading merges every shard and the compacted file and
//! keeps, for each identity, the greatest row.

use crate::entry::{Metadata, MetadataView};
use crate::error::Error;
use crate::identity::Identity;
use crate::order::{
    ascending, lemma_ascending_unique, lemma_asymmetric, lemma_enumeration,
    lemma_filter_ascending, views, Ordered, SortedSet,
};
use crate::seqs::lemma_filter_set;
use crate::record::{
    decode, encode_file, encode_header, encode_row, file_bytes, file_rows, header_bytes,
    row_bytes, FormatError,
};
use crate::stamp::{format_day_of, instant_day_text, Timestamp};
use crate::store::effect::{Effect, EffectView};
use crate::store::layout::{
    index_file, index_file_path, shard_file, shard_file_path, shards_folder, shards_folder_path,
    writer_folder, writer_folder_path,
};
use crate::text::text_same;
use vstd::prelude::*;
use vstd::seq_lib::seq_to_set_distributes_over_add;

verus! {

/// The rows of one shard file, in the order in which they were appended.
#[derive(Clone, Debug, PartialEq, Eq)]
pub struct Shard {
    pub writer: String,
    pub day: String,
    pub rows: Vec<Metadata>,
}

/// What a [`Shard`] holds.
pub struct ShardView {
    pub writer: Seq<char>,
    pub day: Seq<char>,
    pub rows: Seq<MetadataView>,
}

impl View for Shard {
    type V = ShardView;

    open spec fn view(&self) -> ShardView {
        ShardView { writer: self.writer@, day: self.day@, rows: views(self.rows@) }
    }
}

/// The image of the index folder, as seen by the writer `identifier`.
#[derive(Clone, Debug, PartialEq, Eq)]
pub struct Index {
    pub identifier: String,
    pub shards: Vec<Shard>,
    pub compacted: Option<Vec<Metadata>>,
}

/// What an [`Index`] holds.
pub struct IndexView {
    pub identifier: Seq<char>,
    pub shards: Seq<ShardView>,
    pub compacted: Option<Seq<MetadataView>>,
}

impl View for Index {
    type V = IndexView;

    open spec fn view(&self) -> IndexView {
        IndexView {
            identifier: self.identifier@,
            shards: views(self.shards@),
            compacted: match self.compacted {
                Some(rows) => Some(views(rows@)),
                None => None,
            },
        }
    }
}

/// The rows of all of `shards`, shard after shard.
pub open spec fn shard_rows(shards: Seq<ShardView>) -> Seq<MetadataView>
    decreases shards.len(),
{
    if shards.len() == 0 {
        Seq::empty()
    } else {
        shard_rows(shards.drop_last()) + shards.last().rows
    }
}

/// `m` is in `rows` and no row of `rows` with its identity is greater.
pub open spec fn is_latest(rows: Set<MetadataView>, m: MetadataView) -> bool {
    &&& rows.contains(m)
    &&& forall|o: MetadataView| #[trigger]
        rows.contains(o) && o.identity == m.identity ==> o.at_most(m)
}

/// The current rows among `rows`: for each identity the greatest row.
pub open spec fn latest_of(rows: Set<MetadataView>) -> Set<MetadataView> {
    Set::new(|m: MetadataView| is_latest(rows, m))
}

/// The projects that the rows of `rows` name.
pub open spec fn projects_of(rows: Set<MetadataView>) -> Set<Seq<char>> {
    Set::new(|p: Seq<char>| exists|m: MetadataView| #[trigger] rows.contains(m) && m.project == p)
}

impl IndexView {
    /// The rows of the compacted file; none where there is no such file.
    pub open spec fn compacted_rows(self) -> Seq<MetadataView> {
        match self.compacted {
            Some(rows) => rows,
            None => Seq::empty(),
        }
    }

    /// Every row of every shard, then the rows of the compacted file.
    pub open spec fn rows(self) -> Seq<MetadataView> {
        shard_rows(self.shards) + self.compacted_rows()
    }

    /// The set of all rows.
    pub open spec fn records(self) -> Set<MetadataView> {
        self.rows().to_set()
    }

    /// The current row of every identity.
    pub open spec fn latest(self) -> Set<MetadataView> {
        latest_of(self.records())
    }

    /// The current row of `identity`, if the index holds a row of it.
    pub open spec fn row_of(self, identity: Identity) -> Option<MetadataView> {
        if exists|m: MetadataView| #[trigger] self.latest().contains(m) && m.identity == identity {
            Some(
                choose|m: MetadataView| #[trigger]
                    self.latest().contains(m) && m.identity == identity,
            )
        } else {
            None
        }
    }

    /// `s` holds the current rows in ascending order.
    pub open spec fn has_order(self, s: Seq<MetadataView>) -> bool {
        ascending::<Metadata>(s) && s.to_set() == self.latest()
    }

    /// The current rows in ascending order.
    pub open spec fn current(self) -> Seq<MetadataView> {
        choose|s: Seq<MetadataView>| self.has_order(s)
    }

    /// The shard at `i` is the first one of this writer for `day`.
    pub open spec fn is_todays_shard(self, day: Seq<char>, i: int) -> bool {
        &&& 0 <= i < self.shards.len()
        &&& self.shards[i].writer == self.identifier
        &&& self.shards[i].day == day
        &&& forall|j: int|
            0 <= j < i ==> !(#[trigger] self.shards[j].writer == self.identifier && self.shards[j].day
                == day)
    }

    /// This writer has a shard for `day`.
    pub open spec fn has_todays_shard(self, day: Seq<char>) -> bool {
        exists|i: int| self.is_todays_shard(day, i)
    }

    /// The index after this writer has appended `m` on `day`: the row is the
    /// last of the writer's shard of the day, which is created if absent.
    pub open spec fn append(self, m: MetadataView, day: Seq<char>) -> IndexView {
        if self.has_todays_shard(day) {
            let i = choose|i: int| self.is_todays_shard(day, i);
            let shard = self.shards[i];
            IndexView {
                shards: self.shards.update(i, ShardView { rows: shard.rows.push(m), ..shard }),
                ..self
            }
        } else {
            IndexView {
                shards: self.shards.push(
                    ShardView { writer: self.identifier, day, rows: seq![m] },
                ),
                ..self
            }
        }
    }

    /// The index after compaction: no shards, and a compacted file that
    /// holds the current rows in ascending order.
    pub open spec fn compact(self) -> IndexView {
        IndexView {
            identifier: self.identifier,
            shards: Seq::empty(),
            compacted: Some(self.current()),
        }
    }
}

/// What appending `m` at the instant `now` asks of the caller: the folder of
/// the writer is made sure of, and the row goes to the end of the writer's
/// shard of the day, after the header where the shard is new.
pub open spec fn append_plan(index: IndexView, m: MetadataView, now: Timestamp) -> Result<
    Seq<EffectView>,
    Error,
> {
    match instant_day_text(now.secs, now.nanos) {
        None => Err(Error::InvalidTime),
        Some(day) => match row_bytes(m) {
            Err(e) => Err(Error::Serialization(e)),
            Ok(row) => if index.has_todays_shard(day) {
                Ok(
                    seq![
                        EffectView::CreateDir { path: writer_folder(index.identifier) },
                        EffectView::AppendFile {
                            path: shard_file(index.identifier, day),
                            bytes: row,
                        },
                    ],
                )
            } else {
                match header_bytes() {
                    Err(e) => Err(Error::Serialization(e)),
                    Ok(head) => Ok(
                        seq![
                            EffectView::CreateDir { path: writer_folder(index.identifier) },
                            EffectView::AppendFile {
                                path: shard_file(index.identifier, day),
                                bytes: head + row,
                            },
                        ],
                    ),
                }
            },
        },
    }
}

/// What compaction asks of the caller: the compacted file is replaced by one
/// that holds the current rows, then the shards of all writers are removed.
pub open spec fn compact_plan(index: IndexView) -> Result<Seq<EffectView>, Error> {
    match file_bytes(index.current()) {
        Err(e) => Err(Error::Serialization(e)),
        Ok(bytes) => Ok(
            seq![
                EffectView::ReplaceFile { path: index_file(), bytes },
                EffectView::RemoveTree { path: shards_folder() },
            ],
        ),
    }
}

/// The rows of an index are finitely many.
pub proof fn lemma_latest_finite(index: IndexView)
    ensures
        index.records().finite(),
        index.latest().finite(),
        index.latest().subset_of(index.records()),
{
    vstd::seq_lib::seq_to_set_is_finite(index.rows());
    assert(index.latest().subset_of(index.records()));
    vstd::set_lib::lemma_len_subset(index.latest(), index.records());
}

/// The current rows have exactly one ascending order.
pub proof fn lemma_current(index: IndexView)
    ensures
        index.has_order(index.current()),
        forall|s: Seq<MetadataView>| index.has_order(s) ==> s == index.current(),
{
    lemma_latest_finite(index);
    let w = lemma_enumeration::<Metadata>(index.latest());
    assert(index.has_order(w));
    assert forall|s: Seq<MetadataView>| index.has_order(s) implies s == index.current() by {
        lemma_ascending_unique::<Metadata>(s, index.current());
    }
}

/// The rows of shards are the rows of the first ones and of the last.
pub proof fn lemma_shard_rows_push(shards: Seq<ShardView>, shard: ShardView)
    ensures
        shard_rows(shards.push(shard)) == shard_rows(shards) + shard.rows,
{
    assert(shards.push(shard).drop_last() =~= shards);
}

/// A row is among the rows of shards exactly if one of the shards holds it.
pub proof fn lemma_shard_rows_contains(shards: Seq<ShardView>, m: MetadataView)
    ensures
        shard_rows(shards).contains(m) <==> exists|i: int|
            0 <= i < shards.len() && (#[trigger] shards[i]).rows.contains(m),
    decreases shards.len(),
{
    if shards.len() == 0 {
    } else {
        let front = shards.drop_last();
        lemma_shard_rows_contains(front, m);
        let all = shard_rows(shards);
        if all.contains(m) {
            let k = choose|k: int| 0 <= k < all.len() && all[k] == m;
            if k < shard_rows(front).len() {
                assert(shard_rows(front)[k] == m);
                assert(shard_rows(front).contains(m));
                let i = choose|i: int| 0 <= i < front.len() && (#[trigger] front[i]).rows.contains(m);
                assert(shards[i].rows.contains(m));
            } else {
                assert(shards.last().rows[k - shard_rows(front).len()] == m);
                assert(shards[shards.len() - 1].rows.contains(m));
            }
        }
        if exists|i: int| 0 <= i < shards.len() && (#[trigger] shards[i]).rows.contains(m) {
            let i = choose|i: int| 0 <= i < shards.len() && (#[trigger] shards[i]).rows.contains(m);
            if i < front.len() {
                assert(front[i].rows.contains(m));
                assert(shard_rows(front).contains(m));
                let k = choose|k: int| 0 <= k < shard_rows(front).len() && shard_rows(front)[k] == m;
                assert(all[k] == m);
            } else {
                let k = choose|k: int| 0 <= k < shards.last().rows.len() && shards.last().rows[k] == m;
                assert(all[shard_rows(front).len() + k] == m);
            }
        }
    }
}

impl Index {
    /// The image of an index folder without files, for the writer
    /// `identifier`.
    pub fn new(identifier: String) -> (r: Index)
        ensures
            r@ == (IndexView { identifier: identifier@, shards: Seq::empty(), compacted: None }),
    {
        let r = Index { identifier, shards: Vec::new(), compacted: None };
        assert(r@.shards =~= Seq::empty());
        r
    }

    /// Takes the bytes of the shard file of `writer` for `day` into the
    /// image. One record that cannot be read refuses the whole file, and the
    /// image stays as it was.
    pub fn load_shard(&mut self, writer: String, day: String, bytes: &Vec<u8>) -> (r: Result<
        (),
        FormatError,
    >)
        ensures
            match r {
                Ok(()) => file_rows(bytes@) matches Ok(rows) && final(self)@ == (IndexView {
                    shards: old(self)@.shards.push(ShardView { writer: writer@, day: day@, rows }),
                    ..old(self)@
                }),
                Err(e) => file_rows(bytes@) == Err::<Seq<MetadataView>, _>(e) && *final(self)
                    == *old(self),
            },
    {
        match decode(bytes) {
            Ok(rows) => {
                self.shards.push(Shard { writer, day, rows });
                assert(self@.shards =~= old(self)@.shards.push(
                    ShardView { writer: writer@, day: day@, rows: views(rows@) },
                ));
                Ok(())
            },
            Err(e) => Err(e),
        }
    }

    /// Takes the bytes of the compacted file into the image, in the place of
    /// any earlier one. One record that cannot be read refuses the whole
    /// file, and the image stays as it was.
    pub fn load_compacted(&mut self, bytes: &Vec<u8>) -> (r: Result<(), FormatError>)
        ensures
            match r {
                Ok(()) => file_rows(bytes@) matches Ok(rows) && final(self)@ == (IndexView {
                    compacted: Some(rows),
                    ..old(self)@
                }),
                Err(e) => file_rows(bytes@) == Err::<Seq<MetadataView>, _>(e) && *final(self)
                    == *old(self),
            },
    {
        match decode(bytes) {
            Ok(rows) => {
                self.compacted = Some(rows);
                Ok(())
            },
            Err(e) => Err(e),
        }
    }

    /// Every row of the index, each once, in ascending order.
    pub fn metadata(&self) -> (r: SortedSet<Metadata>)
        ensures
            r.wf(),
            r@.to_set() == self@.records(),
    {
        let mut all: SortedSet<Metadata> = SortedSet::new();
        let mut i: usize = 0;
        assert(self@.shards.take(0) =~= Seq::<ShardView>::empty());
        while i < self.shards.len()
            invariant
                i <= self.shards.len(),
                all.wf(),
                all@.to_set() == shard_rows(self@.shards.take(i as int)).to_set(),
            decreases self.shards.len() - i,
        {
            insert_all(&mut all, &self.shards[i].rows);
            proof {
                let front = self@.shards.take(i as int);
                assert(self@.shards.take(i + 1) =~= front.push(self@.shards[i as int]));
                lemma_shard_rows_push(front, self@.shards[i as int]);
                seq_to_set_distributes_over_add(shard_rows(front), self@.shards[i as int].rows);
            }
            i += 1;
        }
        assert(self@.shards.take(i as int) =~= self@.shards);
        match &self.compacted {
            Some(rows) => {
                insert_all(&mut all, rows);
            },
            None => {
                assert(all@.to_set().union(Seq::<MetadataView>::empty().to_set()) =~= all@.to_set());
            },
        }
        proof {
            seq_to_set_distributes_over_add(shard_rows(self@.shards), self@.compacted_rows());
        }
        all
    }

    /// The current row of every identity, in ascending order.
    pub fn metadata_most_recent(&self) -> (r: SortedSet<Metadata>)
        ensures
            r.wf(),
            r@.to_set() == self@.latest(),
            r@ == self@.current(),
    {
        let all = self.metadata();
        let ghost keep = |m: MetadataView| is_latest(all@.to_set(), m);
        let mut out: Vec<Metadata> = Vec::new();
        let mut i: usize = 0;
        assert(all@.take(0).filter(keep) =~= Seq::<MetadataView>::empty()) by {
            reveal(Seq::filter);
        }
        while i < all.len()
            invariant
                i <= all@.len(),
                all.wf(),
                keep == |m: MetadataView| is_latest(all@.to_set(), m),
                views(out@) == all@.take(i as int).filter(keep),
            decreases all@.len() - i,
        {
            let later = has_later_version(&all, i);
            proof {
                lemma_latest_in_ascending(all@, i as int);
                assert(all@.take(i + 1) =~= all@.take(i as int).push(all@[i as int]));
                all@.take(i as int).lemma_filter_push(all@[i as int], keep);
            }
            if !later {
                out.push(all.get(i).clone());
                assert(views(out@) =~= all@.take(i as int).filter(keep).push(all@[i as int]));
            }
            i += 1;
        }
        proof {
            assert(all@.take(i as int) =~= all@);
            lemma_filter_ascending::<Metadata>(all@, keep);
            lemma_filter_set(all@, keep);
            assert(all@.filter(keep).to_set() =~= latest_of(all@.to_set()));
            assert(self@.has_order(views(out@)));
            lemma_current(self@);
        }
        SortedSet::from_ascending(out)
    }

    /// The current row of `identity`, if the index holds a row of it.
    pub fn find(&self, identity: &Identity) -> (r: Option<Metadata>)
        ensures
            match r {
                Some(m) => self@.row_of(*identity) == Some(m@),
                None => self@.row_of(*identity) is None,
            },
    {
        let latest = self.metadata_most_recent();
        let mut i: usize = 0;
        while i < latest.len()
            invariant
                i <= latest@.len(),
                latest@.to_set() == self@.latest(),
                forall|k: int| 0 <= k < i ==> (#[trigger] latest@[k]).identity != *identity,
            decreases latest@.len() - i,
        {
            if latest.get(i).identity.value == identity.value {
                proof {
                    let found = latest@[i as int];
                    assert(latest@.contains(found));
                    assert(self@.latest().contains(found));
                    let m = self@.row_of(*identity).unwrap();
                    lemma_latest_unique(self@.records(), found, m);
                }
                return Some(latest.get(i).clone());
            }
            i += 1;
        }
        proof {
            if exists|m: MetadataView| #[trigger]
                self@.latest().contains(m) && m.identity == *identity {
                let m = choose|m: MetadataView| #[trigger]
                    self@.latest().contains(m) && m.identity == *identity;
                assert(latest@.contains(m));
                let k = choose|k: int| 0 <= k < latest@.len() && latest@[k] == m;
                assert(latest@[k].identity != *identity);
            }
        }
        None
    }

    /// The names of the projects of the current rows, each once, in
    /// ascending order.
    pub fn projects(&self) -> (r: Vec<String>)
        ensures
            ascending::<String>(views(r@)),
            views(r@).to_set() == projects_of(self@.latest()),
    {
        let latest = self.metadata_most_recent();
        let mut names: SortedSet<String> = SortedSet::new();
        let mut i: usize = 0;
        while i < latest.len()
            invariant
                i <= latest@.len(),
                names.wf(),
                forall|p: Seq<char>|
                    names@.to_set().contains(p) <==> exists|k: int|
                        0 <= k < i && (#[trigger] latest@[k]).project == p,
            decreases latest@.len() - i,
        {
            let ghost before = names@.to_set();
            names.insert(latest.get(i).project.clone());
            proof {
                let added = latest@[i as int].project;
                assert forall|p: Seq<char>|
                    names@.to_set().contains(p) <==> exists|k: int|
                        0 <= k < i + 1 && (#[trigger] latest@[k]).project == p by {
                    if names@.to_set().contains(p) {
                        if p == added {
                            assert(latest@[i as int].project == p);
                        } else {
                            assert(before.contains(p));
                            let k = choose|k: int| 0 <= k < i && (#[trigger] latest@[k]).project == p;
                            assert(latest@[k].project == p);
                        }
                    }
                    if exists|k: int| 0 <= k < i + 1 && (#[trigger] latest@[k]).project == p {
                        let k = choose|k: int|
                            0 <= k < i + 1 && (#[trigger] latest@[k]).project == p;
                        if k < i {
                            assert(before.contains(p));
                        }
                    }
                }
            }
            i += 1;
        }
        proof {
            let rows = self@.latest();
            assert(names@.to_set() =~= projects_of(rows)) by {
                assert forall|p: Seq<char>| names@.to_set().contains(p) <==> projects_of(
                    rows,
                ).contains(p) by {
                    if names@.to_set().contains(p) {
                        let k = choose|k: int| 0 <= k < i && (#[trigger] latest@[k]).project == p;
                        assert(latest@.contains(latest@[k]));
                        assert(rows.contains(latest@[k]));
                    }
                    if projects_of(rows).contains(p) {
                        let m = choose|m: MetadataView| #[trigger] rows.contains(m) && m.project == p;
                        assert(latest@.contains(m));
                        let k = choose|k: int| 0 <= k < latest@.len() && latest@[k] == m;
                        assert(latest@[k].project == p);
                    }
                }
            }
        }
        names.into_vec()
    }

    /// The path of the folder of this writer's shards.
    pub fn identifier_folder_path(&self) -> (r: Vec<String>)
        ensures
            views(r@) == writer_folder(self@.identifier),
    {
        writer_folder_path(self.identifier.as_str())
    }

    /// The path of this writer's shard for `day`.
    pub fn todays_index_path(&self, day: &str) -> (r: Vec<String>)
        ensures
            views(r@) == shard_file(self@.identifier, day@),
    {
        shard_file_path(self.identifier.as_str(), day)
    }

    /// The position of this writer's shard for `day`, if there is one.
    fn todays_shard(&self, day: &str) -> (r: Option<usize>)
        ensures
            match r {
                Some(i) => self@.is_todays_shard(day@, i as int),
                None => !self@.has_todays_shard(day@),
            },
    {
        let mut i: usize = 0;
        while i < self.shards.len()
            invariant
                i <= self.shards.len(),
                forall|j: int|
                    0 <= j < i ==> !(#[trigger] self@.shards[j].writer == self@.identifier
                        && self@.shards[j].day == day@),
            decreases self.shards.len() - i,
        {
            if text_same(self.shards[i].writer.as_str(), self.identifier.as_str()) && text_same(
                self.shards[i].day.as_str(),
                day,
            ) {
                assert(self@.shards[i as int] == self.shards@[i as int]@);
                return Some(i);
            }
            assert(self@.shards[i as int] == self.shards@[i as int]@);
            i += 1;
        }
        proof {
            assert forall|k: int| !self@.is_todays_shard(day@, k) by {
                if 0 <= k < self@.shards.len() {
                    assert(!(self@.shards[k].writer == self@.identifier && self@.shards[k].day
                        == day@));
                }
            }
        }
        None
    }

    /// Appends `metadata` to this writer's shard of the day on which `now`
    /// falls, creating the shard if it is absent.
    pub fn metadata_add(&mut self, metadata: &Metadata, now: &Timestamp) -> (r: Result<
        Vec<Effect>,
        Error,
    >)
        ensures
            match r {
                Ok(effects) => {
                    &&& append_plan(old(self)@, metadata@, *now) == Ok::<_, Error>(views(effects@))
                    &&& instant_day_text(now.secs, now.nanos) matches Some(day)
                    &&& final(self)@ == old(self)@.append(metadata@, day)
                },
                Err(e) => {
                    &&& append_plan(old(self)@, metadata@, *now) == Err::<Seq<EffectView>, _>(e)
                    &&& *final(self) == *old(self)
                },
            },
    {
        let day = match format_day_of(now) {
            Some(day) => day,
            None => { return Err(Error::InvalidTime); },
        };
        let mut bytes = match encode_row(metadata) {
            Ok(bytes) => bytes,
            Err(e) => { return Err(Error::Serialization(e)); },
        };
        let folder = self.identifier_folder_path();
        let path = self.todays_index_path(day.as_str());
        match self.todays_shard(day.as_str()) {
            Some(i) => {
                proof {
                    let k = choose|k: int| old(self)@.is_todays_shard(day@, k);
                    assert(k == i) by {
                        if k < i {
                            assert(!(self@.shards[k].writer == self@.identifier
                                && self@.shards[k].day == day@));
                        }
                        if i < k {
                            assert(!(self@.shards[i as int].writer == self@.identifier
                                && self@.shards[i as int].day == day@));
                        }
                    }
                }
                let mut shard = self.shards.remove(i);
                let ghost taken = shard;
                shard.rows.push(metadata.clone());
                let ghost grown = shard;
                self.shards.insert(i, shard);
                proof {
                    let before = old(self)@.shards;
                    let held = before[i as int];
                    assert(held == taken@);
                    assert(views(grown.rows@) =~= views(taken.rows@).push(metadata@));
                    assert(grown@ == (ShardView { rows: held.rows.push(metadata@), ..held }));
                    assert(self.shards@ =~= old(self).shards@.update(i as int, grown));
                    assert(self@.shards =~= before.update(i as int, grown@));
                }
            },
            None => {
                let mut head = match encode_header() {
                    Ok(head) => head,
                    Err(e) => { return Err(Error::Serialization(e)); },
                };
                head.append(&mut bytes);
                bytes = head;
                let mut rows: Vec<Metadata> = Vec::new();
                rows.push(metadata.clone());
                self.shards.push(Shard { writer: self.identifier.clone(), day, rows });
                proof {
                    assert(views(rows@) =~= seq![metadata@]);
                    assert(self@.shards =~= old(self)@.shards.push(
                        ShardView { writer: old(self)@.identifier, day: day@, rows: seq![metadata@] },
                    ));
                }
            },
        }
        let mut effects: Vec<Effect> = Vec::new();
        effects.push(Effect::CreateDir { path: folder });
        effects.push(Effect::AppendFile { path, bytes });
        proof {
            assert(views(effects@) =~= append_plan(old(self)@, metadata@, *now).unwrap());
        }
        Ok(effects)
    }

    /// Replaces every file of the index by one compacted file that holds the
    /// current rows. What is current stays what it was.
    pub fn compact(&mut self) -> (r: Result<Vec<Effect>, Error>)
        ensures
            match r {
                Ok(effects) => {
                    &&& compact_plan(old(self)@) == Ok::<_, Error>(views(effects@))
                    &&& final(self)@ == old(self)@.compact()
                },
                Err(e) => {
                    &&& compact_plan(old(self)@) == Err::<Seq<EffectView>, _>(e)
                    &&& *final(self) == *old(self)
                },
            },
    {
        let rows = self.metadata_most_recent().into_vec();
        let bytes = match encode_file(&rows) {
            Ok(bytes) => bytes,
            Err(e) => { return Err(Error::Serialization(e)); },
        };
        self.shards = Vec::new();
        self.compacted = Some(rows);
        let mut effects: Vec<Effect> = Vec::new();
        effects.push(Effect::ReplaceFile { path: index_file_path(), bytes });
        effects.push(Effect::RemoveTree { path: shards_folder_path() });
        proof {
            assert(self@.shards =~= Seq::empty());
            assert(views(effects@) =~= compact_plan(old(self)@).unwrap());
        }
        Ok(effects)
    }
}

/// Compaction keeps what is current: the current rows of the compacted index
/// are the current rows of the index.
pub proof fn lemma_compact_keeps_latest(index: IndexView)
    ensures
        index.compact().latest() == index.latest(),
        index.compact().current() == index.current(),
        forall|id: Identity| index.compact().row_of(id) == index.row_of(id),
{
    lemma_current(index);
    let after = index.compact();
    let kept = index.latest();
    assert(shard_rows(after.shards) =~= Seq::<MetadataView>::empty());
    assert(after.rows() =~= index.current());
    assert(after.records() == kept);
    assert(after.latest() =~= kept) by {
        assert forall|m: MetadataView| kept.contains(m) implies is_latest(kept, m) by {
            assert forall|o: MetadataView| #[trigger]
                kept.contains(o) && o.identity == m.identity implies o.at_most(m) by {
                assert(index.records().contains(o));
            }
        }
    }
    lemma_current(after);
    assert(after.has_order(index.current()));
    assert forall|id: Identity| after.row_of(id) == index.row_of(id) by {
    }
}

/// Whether one of the rows of `rows` has `identity`.
pub fn has_row_of(rows: &SortedSet<Metadata>, identity: &Identity) -> (r: bool)
    ensures
        r == exists|k: int| 0 <= k < rows@.len() && (#[trigger] rows@[k]).identity == *identity,
{
    let mut i: usize = 0;
    while i < rows.len()
        invariant
            i <= rows@.len(),
            forall|k: int| 0 <= k < i ==> (#[trigger] rows@[k]).identity != *identity,
        decreases rows@.len() - i,
    {
        if rows.get(i).identity.value == identity.value {
            return true;
        }
        i += 1;
    }
    false
}

/// An identity has a current row exactly if the ascending sequence of the
/// current rows holds one.
pub proof fn lemma_row_of(index: IndexView, id: Identity)
    ensures
        index.row_of(id) is Some <==> exists|k: int|
            0 <= k < index.current().len() && (#[trigger] index.current()[k]).identity == id,
        index.row_of(id) matches Some(m) ==> index.latest().contains(m) && m.identity == id,
{
    lemma_current(index);
    let s = index.current();
    if index.row_of(id) is Some {
        let m = index.row_of(id).unwrap();
        assert(s.contains(m));
        let k = choose|k: int| 0 <= k < s.len() && s[k] == m;
        assert(s[k].identity == id);
    }
    if exists|k: int| 0 <= k < s.len() && (#[trigger] s[k]).identity == id {
        let k = choose|k: int| 0 <= k < s.len() && (#[trigger] s[k]).identity == id;
        assert(s.contains(s[k]));
        assert(index.latest().contains(s[k]));
    }
}

/// An identity has at most one current row.
pub proof fn lemma_latest_unique(rows: Set<MetadataView>, a: MetadataView, b: MetadataView)
    requires
        latest_of(rows).contains(a),
        latest_of(rows).contains(b),
        a.identity == b.identity,
    ensures
        a == b,
{
    assert(rows.contains(a) && rows.contains(b));
    assert(a.at_most(b));
    assert(b.at_most(a));
    if a != b {
        lemma_asymmetric::<Metadata>(a, b);
    }
}

/// In an ascending sequence a row is current exactly if no later row has
/// its identity.
pub proof fn lemma_latest_in_ascending(s: Seq<MetadataView>, i: int)
    requires
        ascending::<Metadata>(s),
        0 <= i < s.len(),
    ensures
        is_latest(s.to_set(), s[i]) <==> !exists|j: int|
            i < j < s.len() && (#[trigger] s[j]).identity == s[i].identity,
{
    let rows = s.to_set();
    assert(rows.contains(s[i])) by {
        assert(s.contains(s[i]));
    }
    if exists|j: int| i < j < s.len() && (#[trigger] s[j]).identity == s[i].identity {
        let j = choose|j: int| i < j < s.len() && (#[trigger] s[j]).identity == s[i].identity;
        assert(Metadata::below(s[i], s[j]));
        lemma_asymmetric::<Metadata>(s[i], s[j]);
        assert(s.contains(s[j]));
        assert(rows.contains(s[j]));
        assert(!s[j].at_most(s[i]));
    } else {
        assert forall|o: MetadataView| #[trigger]
            rows.contains(o) && o.identity == s[i].identity implies o.at_most(s[i]) by {
            assert(s.contains(o));
            let k = choose|k: int| 0 <= k < s.len() && s[k] == o;
            if k < i {
                assert(Metadata::below(s[k], s[i]));
            }
        }
    }
}

/// Whether a row after position `i` has the identity of the row at `i`.
fn has_later_version(all: &SortedSet<Metadata>, i: usize) -> (r: bool)
    requires
        i < all@.len(),
    ensures
        r == exists|j: int| i < j < all@.len() && (#[trigger] all@[j]).identity == all@[i as int].identity,
{
    let id = all.get(i).identity;
    let n = all.len();
    let mut j: usize = i + 1;
    while j < n
        invariant
            i < j <= all@.len(),
            n == all@.len(),
            id == all@[i as int].identity,
            forall|k: int| i < k < j ==> (#[trigger] all@[k]).identity != id,
        decreases all@.len() - j,
    {
        if all.get(j).identity.value == id.value {
            return true;
        }
        j += 1;
    }
    false
}

/// Adds every row of `rows` to `set`.
fn insert_all(set: &mut SortedSet<Metadata>, rows: &Vec<Metadata>)
    requires
        old(set).wf(),
    ensures
        final(set).wf(),
        final(set)@.to_set() == old(set)@.to_set().union(views(rows@).to_set()),
{
    let mut j: usize = 0;
    let ghost added = views(rows@);
    assert(set@.to_set().union(added.take(0).to_set()) =~= set@.to_set());
    while j < rows.len()
        invariant
            j <= rows.len(),
            set.wf(),
            added == views(rows@),
            set@.to_set() == old(set)@.to_set().union(added.take(j as int).to_set()),
        decreases rows.len() - j,
    {
        set.insert(rows[j].clone());
        proof {
            assert(added.take(j + 1) =~= added.take(j as int).push(added[j as int]));
            added.take(j as int).lemma_push_to_set_commute(added[j as int]);
            assert(set@.to_set() =~= old(set)@.to_set().union(added.take(j + 1).to_set()));
        }
        j += 1;
    }
    assert(added.take(j as int) =~= added);
}

} // verus!
