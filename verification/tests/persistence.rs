use bytes::BytesMut;
use cubicle::persistence::{
    apply_checked, record_with_checksum, replay_log, restore_state, snapshot_record, wal_record,
    SNAPSHOT, WAL,
};
use cubicle::resp::Frame;
use cubicle::session::{entries, lookup};
use cubicle::value::Value;

fn bulk(s: &str) -> Frame {
    Frame::BulkString(Some(s.as_bytes().to_vec()))
}

fn request(items: &[&str]) -> Vec<u8> {
    Frame::Array(Some(items.iter().map(|s| bulk(s)).collect())).to_bytes()
}

fn log(records: &[Vec<u8>]) -> BytesMut {
    let mut all = Vec::new();
    for r in records {
        all.extend_from_slice(&wal_record(r));
    }
    BytesMut::from(&all[..])
}

fn pairs(map: &im::OrdMap<String, Value>) -> Vec<(String, Value)> {
    entries(map)
}

#[test]
fn file_names() {
    assert_eq!(WAL, "cubicle.wal");
    assert_eq!(SNAPSHOT, "cubicle.snap");
}

#[test]
fn a_record_is_the_checksum_in_hex_then_the_payload() {
    assert_eq!(wal_record(b"123456789"), b"cbf43926 123456789".to_vec());
    assert_eq!(wal_record(b""), b"00000000 ".to_vec());
    let payload = request(&["SET", "k", "v"]);
    let mut expected = format!("{:08x} ", crc32fast::hash(&payload)).into_bytes();
    expected.extend_from_slice(&payload);
    assert_eq!(wal_record(&payload), expected);
}

#[test]
fn a_snapshot_record_holds_a_set_command() {
    let mut expected = wal_record(&request(&["SET", "user:1", "Alice"]));
    assert_eq!(snapshot_record("user:1", "Alice"), expected);
    expected.clear();
}

#[test]
fn replaying_a_log_rebuilds_the_store() {
    let wal = log(&[
        request(&["SET", "a", "1"]),
        request(&["set", "b", "[x, 2]"]),
        request(&["GET", "a"]),
        request(&["DEL", "a"]),
        request(&["SET", "c", "\"q\""]),
    ]);
    let map = restore_state(None, Some(wal));
    assert_eq!(
        pairs(&map),
        vec![
            ("b".to_string(), Value::List(vec![Value::String("x".to_string()), Value::Integer(2)])),
            ("c".to_string(), Value::String("q".to_string())),
        ]
    );
}

#[test]
fn the_log_replays_after_the_snapshot() {
    let mut snap = snapshot_record("a", "1");
    snap.extend_from_slice(&snapshot_record("b", "true"));
    let wal = log(&[request(&["SET", "a", "2"]), request(&["DEL", "b"])]);
    let map = restore_state(Some(BytesMut::from(&snap[..])), Some(wal));
    assert_eq!(pairs(&map), vec![("a".to_string(), Value::Integer(2))]);
    assert_eq!(lookup(&map, &"a".to_string()), Some(Value::Integer(2)));
    assert_eq!(lookup(&map, &"b".to_string()), None);
}

#[test]
fn nothing_to_restore() {
    assert!(pairs(&restore_state(None, None)).is_empty());
    assert!(pairs(&restore_state(Some(BytesMut::new()), None)).is_empty());
}

#[test]
fn replay_stops_at_a_bad_checksum() {
    let mut data = wal_record(&request(&["SET", "a", "1"]));
    let mut bad = wal_record(&request(&["SET", "b", "2"]));
    bad[0] = if bad[0] == b'0' { b'1' } else { b'0' };
    data.extend_from_slice(&bad);
    data.extend_from_slice(&wal_record(&request(&["SET", "c", "3"])));
    let map = restore_state(None, Some(BytesMut::from(&data[..])));
    assert_eq!(pairs(&map), vec![("a".to_string(), Value::Integer(1))]);
}

#[test]
fn replay_stops_at_a_bad_header_or_frame() {
    let mut data = wal_record(&request(&["SET", "a", "1"]));
    data.extend_from_slice(b"zzzzzzzz *1\r\n$3\r\nSEE\r\n");
    data.extend_from_slice(&wal_record(&request(&["SET", "c", "3"])));
    let map = restore_state(None, Some(BytesMut::from(&data[..])));
    assert_eq!(pairs(&map), vec![("a".to_string(), Value::Integer(1))]);

    let mut data = wal_record(&request(&["SET", "a", "1"]));
    data.extend_from_slice(b"00000000 ?oops\r\n");
    let map = restore_state(None, Some(BytesMut::from(&data[..])));
    assert_eq!(pairs(&map), vec![("a".to_string(), Value::Integer(1))]);
}

#[test]
fn a_torn_last_record_is_left_out() {
    let mut data = wal_record(&request(&["SET", "a", "1"]));
    let torn = wal_record(&request(&["SET", "b", "2"]));
    data.extend_from_slice(&torn[..torn.len() - 3]);
    let map = restore_state(None, Some(BytesMut::from(&data[..])));
    assert_eq!(pairs(&map), vec![("a".to_string(), Value::Integer(1))]);
}

#[test]
fn a_header_may_start_with_plus_and_use_upper_case() {
    let payload = request(&["SET", "k", "v"]);
    let hex = format!("{:08X}", crc32fast::hash(&payload));
    let mut data = hex.into_bytes();
    data.push(b' ');
    data.extend_from_slice(&payload);
    let map = restore_state(None, Some(BytesMut::from(&data[..])));
    assert_eq!(pairs(&map), vec![("k".to_string(), Value::String("v".to_string()))]);

    let small = request(&["SEE"]);
    let crc = crc32fast::hash(&small);
    if crc < 0x1000_0000 {
        let mut data = format!("+{:07x} ", crc).into_bytes();
        data.extend_from_slice(&small);
        let map = restore_state(None, Some(BytesMut::from(&data[..])));
        assert!(pairs(&map).is_empty());
    }
}

#[test]
fn replay_into_an_existing_store() {
    let mut map = restore_state(None, Some(log(&[request(&["SET", "x", "1"])])));
    let mut more = log(&[request(&["SET", "y", "2"])]);
    replay_log(&mut map, &mut more);
    assert_eq!(
        pairs(&map),
        vec![("x".to_string(), Value::Integer(1)), ("y".to_string(), Value::Integer(2))]
    );
}

#[test]
fn a_record_with_a_given_checksum() {
    assert_eq!(record_with_checksum(0xdeadbeef, b"x"), b"deadbeef x".to_vec());
    assert_eq!(record_with_checksum(0x1f, b""), b"0000001f ".to_vec());
}

#[test]
fn a_frame_is_applied_only_when_its_checksum_matches() {
    let mut map = restore_state(None, None);
    let set = Frame::Array(Some(vec![bulk("SET"), bulk("k"), bulk("7")]));
    assert!(!apply_checked(&mut map, 1, 2, set));
    assert!(pairs(&map).is_empty());
    let set = Frame::Array(Some(vec![bulk("SET"), bulk("k"), bulk("7")]));
    assert!(apply_checked(&mut map, 5, 5, set));
    assert_eq!(pairs(&map), vec![("k".to_string(), Value::Integer(7))]);
    let get = Frame::Array(Some(vec![bulk("GET"), bulk("k")]));
    assert!(apply_checked(&mut map, 5, 5, get));
    assert_eq!(pairs(&map), vec![("k".to_string(), Value::Integer(7))]);
}

#[test]
fn a_snapshot_of_values_restores_them() {
    let texts = [("a", "[1, x]"), ("b", "2.5"), ("c", "hello"), ("d", "false")];
    let mut snap = Vec::new();
    for (k, t) in texts {
        snap.extend_from_slice(&snapshot_record(k, t));
    }
    let map = restore_state(Some(BytesMut::from(&snap[..])), None);
    let expected: Vec<(String, Value)> = texts
        .iter()
        .map(|(k, t)| (k.to_string(), Value::from_str(t).unwrap()))
        .collect();
    assert_eq!(pairs(&map), expected);
}

#[test]
fn a_torn_record_written_another_way_is_left_out() {
    let whole = wal_record(&request(&["SET", "a", "1"]));
    let odd = wal_record(b"*3\r\n$03\r\nSET\r\n$1\r\nc\r\n$+1\r\n7\r\n");
    let mut both = whole.clone();
    both.extend_from_slice(&odd);
    let map = restore_state(None, Some(BytesMut::from(&both[..])));
    assert_eq!(
        pairs(&map),
        vec![("a".to_string(), Value::Integer(1)), ("c".to_string(), Value::Integer(7))]
    );
    for k in 0..odd.len() {
        let mut data = whole.clone();
        data.extend_from_slice(&odd[..k]);
        let map = restore_state(None, Some(BytesMut::from(&data[..])));
        assert_eq!(pairs(&map), vec![("a".to_string(), Value::Integer(1))]);
    }
}
