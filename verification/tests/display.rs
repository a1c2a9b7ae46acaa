use bytes::BytesMut;
use cubicle::display::value_text;
use cubicle::persistence::{restore_state, snapshot_contents, snapshot_record};
use cubicle::resp::Frame;
use cubicle::session::{
    entries, lookup, see_lines, see_reply, step, store_snapshot, value_reply,
    Action, Event, Request,
};
use cubicle::value::Value;

fn bulk(s: &str) -> Frame {
    Frame::BulkString(Some(s.as_bytes().to_vec()))
}

fn array(items: &[&str]) -> Frame {
    Frame::Array(Some(items.iter().map(|s| bulk(s)).collect()))
}

#[test]
fn values_are_written_as_display_writes_them() {
    assert_eq!(value_text(&Value::String("Alice".to_string())), Some("Alice".to_string()));
    assert_eq!(value_text(&Value::Integer(30)), Some("30".to_string()));
    assert_eq!(value_text(&Value::Integer(-7)), Some("-7".to_string()));
    assert_eq!(value_text(&Value::Integer(i64::MIN)), Some(i64::MIN.to_string()));
    assert_eq!(value_text(&Value::Boolean(true)), Some("true".to_string()));
    assert_eq!(value_text(&Value::Boolean(false)), Some("false".to_string()));
    assert_eq!(value_text(&Value::List(vec![])), Some("[]".to_string()));
    let list = Value::List(vec![
        Value::Integer(1),
        Value::String("x".to_string()),
        Value::List(vec![Value::Boolean(false)]),
    ]);
    assert_eq!(value_text(&list), Some("[1, x, [false]]".to_string()));
    assert_eq!(value_text(&Value::Float("2.5".to_string())), None);
    assert_eq!(value_text(&Value::List(vec![Value::Float("1".to_string())])), None);
}

#[test]
fn texts_of_integers_booleans_and_their_lists_read_back() {
    let values = vec![
        Value::Integer(0),
        Value::Integer(-42),
        Value::Integer(i64::MAX),
        Value::Boolean(true),
        Value::List(vec![]),
        Value::List(vec![Value::Integer(1), Value::Boolean(false), Value::Integer(-3)]),
    ];
    for v in values {
        let text = value_text(&v).unwrap();
        assert_eq!(Value::from_str(&text), Ok(v));
    }
}

#[test]
fn the_snapshot_file_of_a_store() {
    let mut map = restore_state(None, None);
    assert_eq!(store_snapshot(&map), Some(vec![]));
    step(&mut map, false, Event::StoreLogged { key: "a".to_string(), value: Value::Integer(1), logged: true });
    let payload = b"*3\r\n$3\r\nSET\r\n$1\r\na\r\n$1\r\n1\r\n";
    let mut expected = format!("{:08x} ", crc32fast::hash(payload)).into_bytes();
    expected.extend_from_slice(payload);
    assert_eq!(store_snapshot(&map), Some(expected.clone()));

    step(&mut map, false, Event::StoreLogged { key: "B".to_string(), value: Value::Boolean(true), logged: true });
    let mut both = snapshot_record("B", "true");
    both.extend_from_slice(&expected);
    let file = store_snapshot(&map).unwrap();
    assert_eq!(file, both);
    let restored = restore_state(Some(BytesMut::from(&file[..])), None);
    assert_eq!(entries(&restored), entries(&map));

    step(&mut map, false, Event::StoreLogged { key: "f".to_string(), value: Value::Float("2.5".to_string()), logged: true });
    assert_eq!(store_snapshot(&map), None);
}

#[test]
fn snapshot_contents_joins_the_records() {
    let texts = vec![("a".to_string(), "1".to_string()), ("b".to_string(), "x y".to_string())];
    let mut expected = snapshot_record("a", "1");
    expected.extend_from_slice(&snapshot_record("b", "x y"));
    assert_eq!(snapshot_contents(&texts), expected);
    assert_eq!(snapshot_contents(&vec![]), Vec::<u8>::new());
}

#[test]
fn get_replies_with_the_value_text() {
    assert_eq!(value_reply(&None), Some(Frame::Null));
    assert_eq!(value_reply(&Some(Value::Integer(30))), Some(bulk("30")));
    assert_eq!(
        value_reply(&Some(Value::List(vec![Value::Integer(1), Value::Integer(2)]))),
        Some(bulk("[1, 2]"))
    );
    assert_eq!(value_reply(&Some(Value::Float("2".to_string()))), None);
}

#[test]
fn see_lines_of_entries() {
    let es = vec![
        ("a".to_string(), Value::Integer(1)),
        ("b".to_string(), Value::String("hi".to_string())),
    ];
    assert_eq!(see_lines(&es), Some(vec!["a: 1".to_string(), "b: hi".to_string()]));
    assert_eq!(see_lines(&vec![]), Some(vec![]));
    assert_eq!(see_lines(&vec![("f".to_string(), Value::Float("1.5".to_string()))]), None);
}

fn serve(map: &mut im::OrdMap<String, Value>, wal: &mut Vec<u8>, frame: Frame) -> Vec<u8> {
    let request = match step(map, false, Event::Request(frame)).1 {
        Action::Serve(request) => request,
        other => panic!("expected a plan, not {:?}", other),
    };
    let reply = match request {
        Request::Reply(reply) => reply,
        Request::Get(key) => value_reply(&lookup(map, &key)).unwrap(),
        Request::Store { key, value, record } => {
            wal.extend_from_slice(&record);
            match step(map, false, Event::StoreLogged { key, value, logged: true }).1 {
                Action::Reply(r) => r,
                other => panic!("expected a reply, not {:?}", other),
            }
        }
        Request::Delete { key, record } => {
            wal.extend_from_slice(&record);
            match step(map, false, Event::DeleteLogged { key, logged: true }).1 {
                Action::Reply(r) => r,
                other => panic!("expected a reply, not {:?}", other),
            }
        }
        Request::See => see_reply(see_lines(&entries(map)).unwrap()),
        Request::Snapshot => panic!("no snapshot in this walk"),
    };
    reply.to_bytes()
}

#[test]
fn the_quick_start_walk_through() {
    let mut map = restore_state(None, None);
    let mut wal = Vec::new();
    let mut out = Vec::new();
    for frame in [
        array(&["SET", "user:1", "Alice"]),
        array(&["SET", "user:1:age", "30"]),
        array(&["GET", "user:1"]),
        array(&["DEL", "user:1"]),
        array(&["SEE"]),
    ] {
        out.extend_from_slice(&serve(&mut map, &mut wal, frame));
    }
    assert_eq!(out, b"+OK\r\n+OK\r\n$5\r\nAlice\r\n:1\r\n*1\r\n$14\r\nuser:1:age: 30\r\n".to_vec());
    assert_eq!(entries(&map), vec![("user:1:age".to_string(), Value::Integer(30))]);
    let restored = restore_state(None, Some(BytesMut::from(&wal[..])));
    assert_eq!(entries(&restored), entries(&map));
}
