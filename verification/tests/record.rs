use todust::entry::Metadata;
use todust::identity::Identity;
use todust::record::{
    decode, encode_file, encode_header, encode_row, header, is_header, read_row, read_rows,
    write_fields, FormatError,
};
use todust::stamp::{Date, Timestamp};

const A: u128 = 0x67e55044_10b1_426f_9247_bb680e5fe0c8;
// 2021-03-04T05:06:07Z
const T0: i64 = 1_614_834_367;

fn row() -> Metadata {
    Metadata {
        last_change: Timestamp::new(T0 + 1, 500_000_000),
        // 2021-03-10
        due: Some(Date::new(737_859)),
        started: Timestamp::new(T0, 0),
        project: "work, \"home\"".to_string(),
        finished: Some(Timestamp::new(T0 + 2, 0)),
        identity: Identity::new(A),
    }
}

fn strings(fields: &[&str]) -> Vec<String> {
    fields.iter().map(|f| f.to_string()).collect()
}

#[test]
fn header_names_the_six_columns() {
    assert_eq!(
        header(),
        strings(&["last_change", "due", "started", "project", "finished", "uuid"])
    );
    assert!(is_header(&header()));
    assert!(!is_header(&strings(&["last_change", "due", "started", "project", "finished"])));
    assert!(!is_header(&strings(&["last_change", "due", "started", "project", "finished", "id"])));
    assert_eq!(
        encode_header().unwrap(),
        b"last_change,due,started,project,finished,uuid\n".to_vec()
    );
}

#[test]
fn fields_of_a_full_row() {
    assert_eq!(
        write_fields(&row()).unwrap(),
        strings(&[
            "2021-03-04T05:06:08.500Z",
            "2021-03-10",
            "2021-03-04T05:06:07Z",
            "work, \"home\"",
            "2021-03-04T05:06:09Z",
            "67e55044-10b1-426f-9247-bb680e5fe0c8",
        ])
    );
}

#[test]
fn row_bytes_quote_what_needs_quoting() {
    assert_eq!(
        encode_row(&row()).unwrap(),
        b"2021-03-04T05:06:08.500Z,2021-03-10,2021-03-04T05:06:07Z,\"work, \"\"home\"\"\",2021-03-04T05:06:09Z,67e55044-10b1-426f-9247-bb680e5fe0c8\n"
            .to_vec()
    );
}

#[test]
fn absent_day_and_finish_are_empty_fields() {
    let m = Metadata::new(Identity::new(A), "p".to_string(), Timestamp::new(T0, 0));
    let fields = write_fields(&m).unwrap();
    assert_eq!(fields[1], "");
    assert_eq!(fields[4], "");
    assert_eq!(read_row(&fields), Some(m));
}

#[test]
fn file_round_trip_keeps_the_rows() {
    let mut other = row();
    other.identity = Identity::new(9);
    other.due = None;
    other.finished = None;
    other.project = "multi\nline".to_string();
    let rows = vec![row(), other];
    let bytes = encode_file(&rows).unwrap();
    assert_eq!(decode(&bytes).unwrap(), rows);
}

#[test]
fn file_of_no_rows_is_empty_and_reads_as_no_rows() {
    assert_eq!(encode_file(&Vec::new()).unwrap(), Vec::<u8>::new());
    assert_eq!(decode(&Vec::new()).unwrap(), Vec::<Metadata>::new());
    assert_eq!(read_rows(&Vec::new()).unwrap(), Vec::<Metadata>::new());
}

#[test]
fn header_alone_reads_as_no_rows() {
    assert_eq!(decode(&encode_header().unwrap()).unwrap(), Vec::<Metadata>::new());
}

#[test]
fn read_row_takes_other_offsets_as_utc() {
    let fields = strings(&[
        "2021-03-04T07:06:07+02:00",
        "",
        "2021-03-04 05:06:07Z",
        "p",
        "",
        "67E5504410B1426F9247BB680E5FE0C8",
    ]);
    let m = read_row(&fields).unwrap();
    assert_eq!(m.last_change, Timestamp::new(T0, 0));
    assert_eq!(m.started, Timestamp::new(T0, 0));
    assert_eq!(m.identity, Identity::new(A));
}

#[test]
fn read_row_refuses_bad_fields() {
    let good = write_fields(&row()).unwrap();
    assert!(read_row(&good).is_some());
    for (index, bad) in [(0, "yesterday"), (1, "2021-13-01"), (2, ""), (4, "x"), (5, "67e5")] {
        let mut fields = good.clone();
        fields[index] = bad.to_string();
        assert_eq!(read_row(&fields), None, "field {}", index);
    }
    let mut short = good.clone();
    short.pop();
    assert_eq!(read_row(&short), None);
    let mut long = good.clone();
    long.push("more".to_string());
    assert_eq!(read_row(&long), None);
}

#[test]
fn decode_without_header_fails() {
    let bytes = encode_row(&row()).unwrap();
    assert_eq!(decode(&bytes).unwrap_err(), FormatError::Header);
}

#[test]
fn decode_names_the_first_bad_record() {
    let mut bytes = encode_header().unwrap();
    bytes.extend(encode_row(&row()).unwrap());
    bytes.extend(b"a,b,c,d,e,f\n");
    bytes.extend(b"g,h,i,j,k,l\n");
    assert_eq!(decode(&bytes).unwrap_err(), FormatError::Row { index: 2 });
}

#[test]
fn decode_refuses_what_is_no_csv() {
    let mut uneven = encode_header().unwrap();
    uneven.extend(b"only,three,fields\n");
    assert_eq!(decode(&uneven).unwrap_err(), FormatError::Csv);
    assert_eq!(decode(&vec![0xff, 0xfe, b'\n']).unwrap_err(), FormatError::Csv);
}

#[test]
fn instant_out_of_range_cannot_be_written() {
    let mut m = row();
    m.started = Timestamp::new(i64::MAX, 0);
    assert_eq!(write_fields(&m), None);
    assert_eq!(encode_row(&m).unwrap_err(), FormatError::Unrepresentable);
    assert_eq!(encode_file(&vec![row(), m]).unwrap_err(), FormatError::Unrepresentable);
    let mut late = row();
    late.due = Some(Date::new(i32::MAX));
    assert_eq!(encode_row(&late).unwrap_err(), FormatError::Unrepresentable);
    let mut odd = row();
    odd.finished = Some(Timestamp::new(0, 2_000_000_000));
    assert_eq!(encode_row(&odd).unwrap_err(), FormatError::Unrepresentable);
}
