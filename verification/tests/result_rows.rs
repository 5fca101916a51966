use probe_runner::sink::{add_encoded, encode_records, header_row, records_for};
use probe_runner::sink::{ResultRecord, SinkError};

fn strings(items: &[&str]) -> Vec<String> {
    items.iter().map(|s| s.to_string()).collect()
}

fn record(target: &str, description: &str) -> ResultRecord {
    ResultRecord { target: target.to_string(), description: description.to_string() }
}

fn encoded(target: &str, description: &str) -> Vec<u8> {
    encode_records(&vec![record(target, description)]).unwrap()
}

#[test]
fn the_header_names_the_two_columns() {
    assert_eq!(header_row(), Ok(b"IP Address,Successful Exploit\n".to_vec()));
}

#[test]
fn a_plain_row_is_two_fields_and_a_line_feed() {
    assert_eq!(encoded("10.0.0.1", "telnet open"), b"10.0.0.1,telnet open\n".to_vec());
    assert_eq!(encoded("10.0.0.1", ": backdoor admin panel"), b"10.0.0.1,: backdoor admin panel\n".to_vec());
}

#[test]
fn empty_fields_stay_empty() {
    assert_eq!(encoded("10.0.0.1", ""), b"10.0.0.1,\n".to_vec());
    assert_eq!(encoded("", "x"), b",x\n".to_vec());
    assert_eq!(encoded("", ""), b",\n".to_vec());
}

#[test]
fn a_field_with_a_comma_is_quoted() {
    assert_eq!(encoded("10.0.0.1", "a,b"), b"10.0.0.1,\"a,b\"\n".to_vec());
    assert_eq!(encoded("1,2", "x"), b"\"1,2\",x\n".to_vec());
}

#[test]
fn quotes_in_a_field_are_doubled() {
    assert_eq!(encoded("h", "say \"hi\""), b"h,\"say \"\"hi\"\"\"\n".to_vec());
    assert_eq!(encoded("h", "\""), b"h,\"\"\"\"\n".to_vec());
}

#[test]
fn a_field_with_a_line_end_is_quoted() {
    assert_eq!(encoded("h", "a\nb"), b"h,\"a\nb\"\n".to_vec());
    assert_eq!(encoded("h", "a\rb"), b"h,\"a\rb\"\n".to_vec());
}

#[test]
fn other_characters_need_no_quotes() {
    assert_eq!(encoded("h", " a b "), b"h, a b \n".to_vec());
    assert_eq!(encoded("h", "a;b\t#c'd"), b"h,a;b\t#c'd\n".to_vec());
    assert_eq!(encoded("h", "\u{e9}t\u{e9}"), "h,\u{e9}t\u{e9}\n".as_bytes().to_vec());
}

#[test]
fn a_long_field_is_written_whole() {
    let long: String = "x\"y,".repeat(10_000);
    let bytes = encoded("h", &long);
    let mut expected: Vec<u8> = b"h,\"".to_vec();
    expected.extend_from_slice("x\"\"y,".repeat(10_000).as_bytes());
    expected.extend_from_slice(b"\"\n");
    assert_eq!(bytes, expected);
}

#[test]
fn rows_follow_one_another_in_order() {
    let records = vec![record("h", "one"), record("h", "two,2"), record("g", "three")];
    assert_eq!(encode_records(&records), Ok(b"h,one\nh,\"two,2\"\ng,three\n".to_vec()));
}

#[test]
fn no_records_give_no_bytes() {
    assert_eq!(encode_records(&Vec::new()), Ok(Vec::new()));
}

#[test]
fn every_description_gets_a_record_with_the_target() {
    let records = records_for("10.0.0.1", &strings(&["a", "b", "a"]));
    assert_eq!(records.len(), 3);
    for r in &records {
        assert_eq!(r.target, "10.0.0.1");
    }
    let descriptions: Vec<&str> = records.iter().map(|r| r.description.as_str()).collect();
    assert_eq!(descriptions, vec!["a", "b", "a"]);
    assert_eq!(records_for("10.0.0.1", &strings(&[])).len(), 0);
}

#[test]
fn rows_can_be_read_back() {
    let records = records_for("10.0.0.1", &strings(&["plain", "with, comma", "with \"quote\"", "two\nlines", ""]));
    let mut bytes = header_row().unwrap();
    bytes.extend(encode_records(&records).unwrap());
    let mut reader = csv::Reader::from_reader(bytes.as_slice());
    let headers: Vec<String> = reader.headers().unwrap().iter().map(|s| s.to_string()).collect();
    assert_eq!(headers, strings(&["IP Address", "Successful Exploit"]));
    let mut read: Vec<(String, String)> = Vec::new();
    for row in reader.records() {
        let row = row.unwrap();
        assert_eq!(row.len(), 2);
        read.push((row[0].to_string(), row[1].to_string()));
    }
    let expected: Vec<(String, String)> =
        records.iter().map(|r| (r.target.clone(), r.description.clone())).collect();
    assert_eq!(read, expected);
}

#[test]
fn an_encoded_row_is_added_at_the_end() {
    let mut buffer: Vec<u8> = b"a,b\n".to_vec();
    assert_eq!(add_encoded(&mut buffer, Ok(b"c,d\n".to_vec())), Ok(()));
    assert_eq!(buffer, b"a,b\nc,d\n".to_vec());
    assert_eq!(add_encoded(&mut buffer, Ok(Vec::new())), Ok(()));
    assert_eq!(buffer, b"a,b\nc,d\n".to_vec());
}

#[test]
fn a_refused_row_leaves_the_buffer_alone() {
    let mut buffer: Vec<u8> = b"a,b\n".to_vec();
    let refusal = csv::Error::from(std::io::Error::new(std::io::ErrorKind::Other, "refused"));
    assert_eq!(add_encoded(&mut buffer, Err(refusal)), Err(SinkError::Encoding));
    assert_eq!(buffer, b"a,b\n".to_vec());
}

#[test]
fn two_findings_give_two_rows_for_the_target() {
    let records = records_for("10.0.0.1", &strings(&["a", "b"]));
    let mut file = header_row().unwrap();
    file.extend(encode_records(&records).unwrap());
    assert_eq!(
        String::from_utf8(file).unwrap(),
        "IP Address,Successful Exploit\n10.0.0.1,a\n10.0.0.1,b\n"
    );
}

#[test]
fn one_finding_gives_one_row_for_the_target() {
    let records = records_for("10.0.0.1", &strings(&["backdoor admin panel"]));
    let mut file = header_row().unwrap();
    file.extend(encode_records(&records).unwrap());
    assert_eq!(
        String::from_utf8(file).unwrap(),
        "IP Address,Successful Exploit\n10.0.0.1,backdoor admin panel\n"
    );
}

#[test]
fn encoding_succeeds_whatever_the_fields_hold() {
    let fields: [&str; 8] = ["", ",", "\"", "\r\n", "a,\"b\"\nc", "\u{0}", "\u{1f600}", " "];
    for target in fields {
        for description in fields {
            let records = vec![record(target, description)];
            let bytes = encode_records(&records).unwrap();
            let mut reader = csv::ReaderBuilder::new()
                .has_headers(false)
                .from_reader(bytes.as_slice());
            let rows: Vec<csv::StringRecord> = reader.records().map(|r| r.unwrap()).collect();
            if target.is_empty() && description.is_empty() {
                assert_eq!(bytes, b",\n".to_vec());
            } else {
                assert_eq!(rows.len(), 1);
                assert_eq!(&rows[0][0], target);
                assert_eq!(&rows[0][1], description);
            }
        }
    }
}
