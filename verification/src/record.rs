//! The row format of the index files: one CSV record of six fields per
//! metadata row, after a header record that names the columns.
//!
//! `csv` frames the records; `chrono` and `uuid` write and read the fields.

use crate::entry::{Metadata, MetadataView};
use crate::identity::{format_identity, identity_text, parse_identity, text_identity, Identity};
use crate::order::views;
use crate::stamp::{
    day_text, format_day, format_instant, instant_text, parse_day, parse_instant, text_day,
    text_instant, Date, Timestamp,
};
use crate::text::text_same;
use vstd::prelude::*;

verus! {

/// Why bytes are not an index file, or a row cannot be written as one.
#[derive(Clone, Copy, Debug, PartialEq, Eq, Structural)]
pub enum FormatError {
    /// `csv` rejects the bytes, or refuses to write the record.
    Csv,
    /// The first record is not the header.
    Header,
    /// The record at `index` (the header is record 0) is not a row.
    Row { index: usize },
    /// An instant or a day of the row has no text form.
    Unrepresentable,
}

/// The bytes `csv` writes for one record with these fields, or `None` where
/// it refuses to write it.
pub uninterp spec fn csv_line(fields: Seq<Seq<char>>) -> Option<Seq<u8>>;

/// The records `csv` reads from `bytes`, each a sequence of fields, or `None`
/// where it rejects the bytes.
pub uninterp spec fn csv_records(bytes: Seq<u8>) -> Option<Seq<Seq<Seq<char>>>>;

/// The fields of each record of `rows`.
pub open spec fn records_text(rows: Seq<Vec<String>>) -> Seq<Seq<Seq<char>>> {
    rows.map_values(|r: Vec<String>| views(r@))
}

/// Calls `csv::Writer::write_record` on a writer into an empty buffer and
/// takes the buffer back with `into_inner`. The contract only names the
/// result: the bytes are `csv_line` of the fields, and an error comes exactly
/// where `csv` gives one.
#[verifier::external_body]
fn write_record(fields: &Vec<String>) -> (r: Result<Vec<u8>, ()>)
    ensures
        match r {
            Ok(bytes) => csv_line(views(fields@)) == Some(bytes@),
            Err(_) => csv_line(views(fields@)) is None,
        },
{
    let mut writer = csv::Writer::from_writer(Vec::new());
    writer.write_record(fields).map_err(|_| ())?;
    writer.into_inner().map_err(|_| ())
}

/// Calls `csv::Reader::records` on a reader over `bytes` that takes every
/// record as data. The contract only names the result: the records are
/// `csv_records` of the bytes, and an error comes exactly where `csv` gives
/// one.
#[verifier::external_body]
fn read_records(bytes: &Vec<u8>) -> (r: Result<Vec<Vec<String>>, ()>)
    ensures
        match r {
            Ok(rows) => csv_records(bytes@) == Some(records_text(rows@)),
            Err(_) => csv_records(bytes@) is None,
        },
{
    let mut reader = csv::ReaderBuilder::new().has_headers(false).from_reader(bytes.as_slice());
    reader.records().map(|rec| match rec {
        Ok(fields) => Ok(fields.iter().map(String::from).collect()),
        Err(_) => Err(()),
    }).collect()
}

/// The header record: the names of the six columns, in their fixed order.
pub open spec fn header_text() -> Seq<Seq<char>> {
    seq!["last_change"@, "due"@, "started"@, "project"@, "finished"@, "uuid"@]
}

/// The day an optional field holds: none where the field is empty.
pub open spec fn field_day(text: Seq<char>) -> Option<Option<Date>> {
    if text.len() == 0 {
        Some(None)
    } else {
        match text_day(text) {
            Some(days) => Some(Some(Date { days })),
            None => None,
        }
    }
}

/// The instant a field holds.
pub open spec fn field_instant(text: Seq<char>) -> Option<Timestamp> {
    match text_instant(text) {
        Some((secs, nanos)) => Some(Timestamp { secs, nanos }),
        None => None,
    }
}

/// The instant an optional field holds: none where the field is empty.
pub open spec fn field_optional_instant(text: Seq<char>) -> Option<Option<Timestamp>> {
    if text.len() == 0 {
        Some(None)
    } else {
        match field_instant(text) {
            Some(t) => Some(Some(t)),
            None => None,
        }
    }
}

/// The row that a record of six fields stands for: `last_change`, `due`,
/// `started`, `project`, `finished`, identity. `None` where the record has
/// another number of fields or one of them cannot be read.
pub open spec fn row_metadata(fields: Seq<Seq<char>>) -> Option<MetadataView> {
    if fields.len() != 6 {
        None
    } else {
        match (
            field_instant(fields[0]),
            field_day(fields[1]),
            field_instant(fields[2]),
            field_optional_instant(fields[4]),
            text_identity(fields[5]),
        ) {
            (Some(last_change), Some(due), Some(started), Some(finished), Some(value)) => Some(
                MetadataView {
                    last_change,
                    due,
                    started,
                    project: fields[3],
                    finished,
                    identity: Identity { value },
                },
            ),
            _ => None,
        }
    }
}

/// The text of an optional day: empty where there is none.
pub open spec fn day_field(due: Option<Date>) -> Option<Seq<char>> {
    match due {
        None => Some(Seq::empty()),
        Some(d) => day_text(d.days),
    }
}

/// The text of an optional instant: empty where there is none.
pub open spec fn optional_instant_field(t: Option<Timestamp>) -> Option<Seq<char>> {
    match t {
        None => Some(Seq::empty()),
        Some(t) => instant_text(t.secs, t.nanos),
    }
}

/// The six fields of the record that stands for `m`, or `None` where one of
/// its instants or its day has no text form.
pub open spec fn row_fields(m: MetadataView) -> Option<Seq<Seq<char>>> {
    match (
        instant_text(m.last_change.secs, m.last_change.nanos),
        day_field(m.due),
        instant_text(m.started.secs, m.started.nanos),
        optional_instant_field(m.finished),
    ) {
        (Some(last_change), Some(due), Some(started), Some(finished)) => Some(
            seq![
                last_change,
                due,
                started,
                m.project,
                finished,
                identity_text(m.identity.value),
            ],
        ),
        _ => None,
    }
}

/// The bytes of the record that stands for `m`.
pub open spec fn row_bytes(m: MetadataView) -> Result<Seq<u8>, FormatError> {
    match row_fields(m) {
        None => Err(FormatError::Unrepresentable),
        Some(fields) => match csv_line(fields) {
            None => Err(FormatError::Csv),
            Some(bytes) => Ok(bytes),
        },
    }
}

/// The bytes of the records that stand for `rows`, one after the other; the
/// error of the first row that has none.
pub open spec fn rows_bytes(rows: Seq<MetadataView>) -> Result<Seq<u8>, FormatError>
    decreases rows.len(),
{
    if rows.len() == 0 {
        Ok(Seq::empty())
    } else {
        match rows_bytes(rows.drop_last()) {
            Err(e) => Err(e),
            Ok(front) => match row_bytes(rows.last()) {
                Err(e) => Err(e),
                Ok(last) => Ok(front + last),
            },
        }
    }
}

/// The bytes of the header record.
pub open spec fn header_bytes() -> Result<Seq<u8>, FormatError> {
    match csv_line(header_text()) {
        None => Err(FormatError::Csv),
        Some(bytes) => Ok(bytes),
    }
}

/// The bytes of a whole index file that holds `rows`: nothing for no rows,
/// else the header and then the rows.
pub open spec fn file_bytes(rows: Seq<MetadataView>) -> Result<Seq<u8>, FormatError> {
    if rows.len() == 0 {
        Ok(Seq::empty())
    } else {
        match header_bytes() {
            Err(e) => Err(e),
            Ok(head) => match rows_bytes(rows) {
                Err(e) => Err(e),
                Ok(body) => Ok(head + body),
            },
        }
    }
}

/// The rows that the records after the header stand for.
pub open spec fn body_rows(records: Seq<Seq<Seq<char>>>) -> Seq<MetadataView> {
    Seq::new((records.len() - 1) as nat, |i: int| row_metadata(records[i + 1]).unwrap())
}

/// The record at `k` is the first after the header that is not a row.
pub open spec fn first_bad_record(records: Seq<Seq<Seq<char>>>, k: int) -> bool {
    &&& 1 <= k < records.len()
    &&& row_metadata(records[k]) is None
    &&& forall|j: int| 1 <= j < k ==> row_metadata(#[trigger] records[j]) is Some
}

/// What reading the records of an index file gives: no rows for no records;
/// else the header must come first and every later record must be a row.
pub open spec fn records_rows(records: Seq<Seq<Seq<char>>>) -> Result<
    Seq<MetadataView>,
    FormatError,
> {
    if records.len() == 0 {
        Ok(Seq::empty())
    } else if records[0] != header_text() {
        Err(FormatError::Header)
    } else if exists|k: int| first_bad_record(records, k) {
        Err(FormatError::Row { index: (choose|k: int| first_bad_record(records, k)) as usize })
    } else {
        Ok(body_rows(records))
    }
}

/// What reading an index file gives.
pub open spec fn file_rows(bytes: Seq<u8>) -> Result<Seq<MetadataView>, FormatError> {
    match csv_records(bytes) {
        None => Err(FormatError::Csv),
        Some(records) => records_rows(records),
    }
}

/// The header record.
pub fn header() -> (r: Vec<String>)
    ensures
        views(r@) == header_text(),
{
    let mut r: Vec<String> = Vec::new();
    r.push("last_change".to_owned());
    r.push("due".to_owned());
    r.push("started".to_owned());
    r.push("project".to_owned());
    r.push("finished".to_owned());
    r.push("uuid".to_owned());
    assert(views(r@) =~= header_text());
    r
}

/// Whether `fields` is the header record.
pub fn is_header(fields: &Vec<String>) -> (r: bool)
    ensures
        r == (views(fields@) == header_text()),
{
    let h = header();
    if fields.len() != h.len() {
        assert(views(fields@).len() != header_text().len());
        return false;
    }
    let mut i: usize = 0;
    while i < h.len()
        invariant
            i <= h.len(),
            fields.len() == h.len(),
            views(h@) == header_text(),
            forall|k: int| 0 <= k < i ==> fields@[k]@ == h@[k]@,
        decreases h.len() - i,
    {
        if !text_same(fields[i].as_str(), h[i].as_str()) {
            assert(views(fields@)[i as int] != views(h@)[i as int]);
            return false;
        }
        i += 1;
    }
    assert(views(fields@) =~= views(h@));
    true
}

/// Reads one record as a row.
pub fn read_row(fields: &Vec<String>) -> (r: Option<Metadata>)
    ensures
        match r {
            Some(m) => row_metadata(views(fields@)) == Some(m@),
            None => row_metadata(views(fields@)) is None,
        },
{
    if fields.len() != 6 {
        return None;
    }
    let ghost f = views(fields@);
    assert(forall|k: int| 0 <= k < 6 ==> f[k] == fields@[k]@);
    let last_change = match parse_instant(fields[0].as_str()) {
        Some(t) => t,
        None => { return None; },
    };
    let due = if fields[1].as_str().is_empty() {
        None
    } else {
        match parse_day(fields[1].as_str()) {
            Some(d) => Some(d),
            None => { return None; },
        }
    };
    let started = match parse_instant(fields[2].as_str()) {
        Some(t) => t,
        None => { return None; },
    };
    let finished = if fields[4].as_str().is_empty() {
        None
    } else {
        match parse_instant(fields[4].as_str()) {
            Some(t) => Some(t),
            None => { return None; },
        }
    };
    let identity = match parse_identity(fields[5].as_str()) {
        Some(id) => id,
        None => { return None; },
    };
    Some(Metadata { last_change, due, started, project: fields[3].clone(), finished, identity })
}

/// Reads the records of an index file as rows.
pub fn read_rows(records: &Vec<Vec<String>>) -> (r: Result<Vec<Metadata>, FormatError>)
    ensures
        match r {
            Ok(rows) => records_rows(records_text(records@)) == Ok::<_, FormatError>(views(rows@)),
            Err(e) => records_rows(records_text(records@)) == Err::<Seq<MetadataView>, _>(e),
        },
{
    let ghost text = records_text(records@);
    let mut rows: Vec<Metadata> = Vec::new();
    if records.len() == 0 {
        assert(views(rows@) =~= Seq::<MetadataView>::empty());
        return Ok(rows);
    }
    assert(text[0] == views(records@[0]@));
    if !is_header(&records[0]) {
        return Err(FormatError::Header);
    }
    let mut i: usize = 1;
    while i < records.len()
        invariant
            1 <= i <= records.len(),
            text == records_text(records@),
            text[0] == header_text(),
            rows@.len() == i - 1,
            forall|k: int| 1 <= k < i ==> row_metadata(#[trigger] text[k]) == Some(rows@[k - 1]@),
        decreases records.len() - i,
    {
        assert(text[i as int] == views(records@[i as int]@));
        match read_row(&records[i]) {
            Some(m) => {
                rows.push(m);
            },
            None => {
                proof {
                    assert(first_bad_record(text, i as int));
                    let k = choose|k: int| first_bad_record(text, k);
                    assert(k == i) by {
                        if k < i {
                            assert(row_metadata(text[k]) is Some);
                        }
                        if i < k {
                            assert(row_metadata(text[i as int]) is Some);
                        }
                    }
                }
                return Err(FormatError::Row { index: i });
            },
        }
        i += 1;
    }
    proof {
        assert forall|k: int| !first_bad_record(text, k) by {
            if 1 <= k < text.len() {
                assert(row_metadata(text[k]) is Some);
            }
        }
        assert(views(rows@) =~= body_rows(text));
    }
    Ok(rows)
}

/// Reads the bytes of an index file as rows. A file without bytes holds no
/// rows; any other must start with the header, and one record that is not a
/// row makes the whole file unreadable.
pub fn decode(bytes: &Vec<u8>) -> (r: Result<Vec<Metadata>, FormatError>)
    ensures
        match r {
            Ok(rows) => file_rows(bytes@) == Ok::<_, FormatError>(views(rows@)),
            Err(e) => file_rows(bytes@) == Err::<Seq<MetadataView>, _>(e),
        },
{
    match read_records(bytes) {
        Ok(records) => read_rows(&records),
        Err(_) => Err(FormatError::Csv),
    }
}

/// The six fields of the record that stands for `m`.
pub fn write_fields(m: &Metadata) -> (r: Option<Vec<String>>)
    ensures
        match r {
            Some(fields) => row_fields(m@) == Some(views(fields@)),
            None => row_fields(m@) is None,
        },
{
    let last_change = match format_instant(&m.last_change) {
        Some(s) => s,
        None => { return None; },
    };
    let due = match &m.due {
        None => String::new(),
        Some(d) => match format_day(d) {
            Some(s) => s,
            None => { return None; },
        },
    };
    let started = match format_instant(&m.started) {
        Some(s) => s,
        None => { return None; },
    };
    let finished = match &m.finished {
        None => String::new(),
        Some(t) => match format_instant(t) {
            Some(s) => s,
            None => { return None; },
        },
    };
    let identity = format_identity(&m.identity);
    let mut fields: Vec<String> = Vec::new();
    fields.push(last_change);
    fields.push(due);
    fields.push(started);
    fields.push(m.project.clone());
    fields.push(finished);
    fields.push(identity);
    assert(views(fields@) =~= row_fields(m@).unwrap());
    Some(fields)
}

/// The bytes of the record that stands for `m`.
pub fn encode_row(m: &Metadata) -> (r: Result<Vec<u8>, FormatError>)
    ensures
        match r {
            Ok(bytes) => row_bytes(m@) == Ok::<_, FormatError>(bytes@),
            Err(e) => row_bytes(m@) == Err::<Seq<u8>, _>(e),
        },
{
    match write_fields(m) {
        None => Err(FormatError::Unrepresentable),
        Some(fields) => match write_record(&fields) {
            Ok(bytes) => Ok(bytes),
            Err(_) => Err(FormatError::Csv),
        },
    }
}

/// The bytes of the header record.
pub fn encode_header() -> (r: Result<Vec<u8>, FormatError>)
    ensures
        match r {
            Ok(bytes) => header_bytes() == Ok::<_, FormatError>(bytes@),
            Err(e) => header_bytes() == Err::<Seq<u8>, _>(e),
        },
{
    let h = header();
    match write_record(&h) {
        Ok(bytes) => Ok(bytes),
        Err(_) => Err(FormatError::Csv),
    }
}

/// The bytes of a whole index file that holds `rows`.
pub fn encode_file(rows: &Vec<Metadata>) -> (r: Result<Vec<u8>, FormatError>)
    ensures
        match r {
            Ok(bytes) => file_bytes(views(rows@)) == Ok::<_, FormatError>(bytes@),
            Err(e) => file_bytes(views(rows@)) == Err::<Seq<u8>, _>(e),
        },
{
    let ghost all = views(rows@);
    if rows.len() == 0 {
        return Ok(Vec::new());
    }
    let mut out = encode_header()?;
    let ghost head = out@;
    let mut i: usize = 0;
    assert(all.take(0) =~= Seq::<MetadataView>::empty());
    while i < rows.len()
        invariant
            i <= rows.len(),
            all == views(rows@),
            header_bytes() == Ok::<_, FormatError>(head),
            rows_bytes(all.take(i as int)) matches Ok(body) && out@ == head + body,
        decreases rows.len() - i,
    {
        proof {
            assert(all.take(i + 1).drop_last() =~= all.take(i as int));
            assert(all.take(i + 1).last() == rows@[i as int]@);
            lemma_rows_bytes_prefix(all, i + 1);
        }
        let mut line = match encode_row(&rows[i]) {
            Ok(line) => line,
            Err(e) => { return Err(e); },
        };
        out.append(&mut line);
        i += 1;
    }
    assert(all.take(i as int) =~= all);
    Ok(out)
}

/// Where a prefix of `rows` cannot be written, neither can `rows`, and for
/// the same reason.
pub proof fn lemma_rows_bytes_prefix(rows: Seq<MetadataView>, n: int)
    requires
        0 <= n <= rows.len(),
    ensures
        rows_bytes(rows.take(n)) matches Err(e) ==> rows_bytes(rows) == Err::<Seq<u8>, _>(e),
    decreases rows.len(),
{
    if n < rows.len() {
        assert(rows.drop_last().take(n) =~= rows.take(n));
        lemma_rows_bytes_prefix(rows.drop_last(), n);
    } else {
        assert(rows.take(n) =~= rows);
    }
}

} // verus!
