use orbslam::reader::{read_header, read_until, Header, Record, HEADER_FIELDS};

#[test]
fn read_until_stops_behind_the_delimiter() {
    let data = b"ab=cd=e";
    assert_eq!(read_until(data, 0, b'='), 3);
    assert_eq!(read_until(data, 3, b'='), 6);
    assert_eq!(read_until(data, 6, b'='), 7);
    assert_eq!(read_until(data, 7, b'='), 7);
    assert_eq!(read_until(data, 2, b'='), 3);
}

#[test]
fn read_until_on_empty_input() {
    assert_eq!(read_until(b"", 0, b'\n'), 0);
}

#[test]
fn header_is_cut_into_version_and_ten_pieces() {
    let data = b"#ROSBAG V2.0\na=1b=2c=3d=4e=5f=6g=7h=8i=9j=10rest";
    let head = read_header(data);
    assert_eq!(head.version, b"#ROSBAG V2.0\n".to_vec());
    assert_eq!(head.fields.len(), HEADER_FIELDS);
    assert_eq!(head.fields[0], b"a=".to_vec());
    assert_eq!(head.fields[1], b"1b=".to_vec());
    assert_eq!(head.fields[9], b"9j=".to_vec());
    assert_eq!(head.consumed, data.len() - b"10rest".len());
}

#[test]
fn header_of_a_short_input_ends_with_empty_pieces() {
    let head = read_header(b"#ROSBAG V2.0\nop=3x");
    assert_eq!(head.version, b"#ROSBAG V2.0\n".to_vec());
    assert_eq!(head.fields.len(), 10);
    assert_eq!(head.fields[0], b"op=".to_vec());
    assert_eq!(head.fields[1], b"3x".to_vec());
    for k in 2..10 {
        assert!(head.fields[k].is_empty());
    }
    assert_eq!(head.consumed, 18);
}

#[test]
fn header_without_a_line_feed_is_all_version() {
    let head = read_header(b"no newline = here");
    assert_eq!(head.version, b"no newline = here".to_vec());
    assert!(head.fields.iter().all(|f| f.is_empty()));
    assert_eq!(head.consumed, 17);
}

#[test]
fn header_of_nothing() {
    let head = read_header(b"");
    assert!(head.version.is_empty());
    assert_eq!(head.fields.len(), 10);
    assert_eq!(head.consumed, 0);
}

#[test]
fn header_and_record_hold_their_fields() {
    let h = Header { index_pos: 4117, chunk_count: 2, connection_count: 3 };
    assert_eq!(h, Header { index_pos: 4117, chunk_count: 2, connection_count: 3 });
    let r = Record { length: 3, data: vec![1, 2, 3] };
    assert_eq!(r.length as usize, r.data.len());
}
