use cubicle::persistence::{restore_state, wal_record};
use cubicle::resp::Frame;
use cubicle::session::{
    apply_delete, apply_set, entries, get_reply, lookup, plan_request, see_item, see_reply,
    snapshot_done, snapshot_failure, step, truncate_failure, wal_failure, Action, Event, Request,
};
use cubicle::value::Value;

fn bulk(s: &str) -> Frame {
    Frame::BulkString(Some(s.as_bytes().to_vec()))
}

fn array(items: &[&str]) -> Frame {
    Frame::Array(Some(items.iter().map(|s| bulk(s)).collect()))
}

#[test]
fn plans_for_each_command() {
    assert_eq!(plan_request(array(&["GET", "k"])), Request::Get("k".to_string()));
    let set = array(&["SET", "k", "5"]);
    let record = wal_record(&set.to_bytes());
    assert_eq!(
        plan_request(set),
        Request::Store { key: "k".to_string(), value: Value::Integer(5), record }
    );
    let del = array(&["del", "k"]);
    let record = wal_record(&del.to_bytes());
    assert_eq!(plan_request(del), Request::Delete { key: "k".to_string(), record });
    assert_eq!(plan_request(array(&["SEE"])), Request::See);
    assert_eq!(plan_request(array(&["SAVE"])), Request::Snapshot);
    assert_eq!(
        plan_request(array(&["nope"])),
        Request::Reply(Frame::Error("ERR unknown command 'NOPE'".to_string()))
    );
    assert_eq!(
        plan_request(Frame::Integer(3)),
        Request::Reply(Frame::Error("ERR Protocol error: expected array".to_string()))
    );
}

#[test]
fn set_then_get_then_delete() {
    let mut map = restore_state(None, None);
    assert_eq!(
        apply_set(&mut map, "k".to_string(), Value::Integer(1)),
        Frame::SimpleString("OK".to_string())
    );
    assert_eq!(lookup(&map, &"k".to_string()), Some(Value::Integer(1)));
    apply_set(&mut map, "k".to_string(), Value::Boolean(false));
    assert_eq!(lookup(&map, &"k".to_string()), Some(Value::Boolean(false)));
    assert_eq!(apply_delete(&mut map, &"k".to_string()), (Frame::Integer(1), true));
    assert_eq!(apply_delete(&mut map, &"k".to_string()), (Frame::Integer(0), false));
    assert_eq!(lookup(&map, &"k".to_string()), None);
}

#[test]
fn entries_come_in_key_order() {
    let mut map = restore_state(None, None);
    for k in ["b", "a", "é", "B", "ab"] {
        apply_set(&mut map, k.to_string(), Value::Integer(k.len() as i64));
    }
    let keys: Vec<String> = entries(&map).into_iter().map(|(k, _)| k).collect();
    assert_eq!(keys, vec!["B", "a", "ab", "b", "é"]);
}

#[test]
fn replies() {
    assert_eq!(get_reply(Some("Alice".to_string())), bulk("Alice"));
    assert_eq!(get_reply(None), Frame::Null);
    assert_eq!(get_reply(Some("Alice".to_string())).to_bytes(), b"$5\r\nAlice\r\n".to_vec());
    assert_eq!(wal_failure(), Frame::Error("ERR Failed to write to WAL".to_string()));
    assert_eq!(truncate_failure(), Frame::Error("ERR Failed to truncate WAL".to_string()));
    assert_eq!(
        snapshot_failure("disk full"),
        Frame::Error("ERR creating snapshot: disk full".to_string())
    );
    assert_eq!(snapshot_done().to_bytes(), b"+OK\r\n".to_vec());
}

#[test]
fn see_lists_each_entry() {
    assert_eq!(see_item("user:1:age", "30"), "user:1:age: 30");
    assert_eq!(see_reply(vec![]), Frame::SimpleString("Cubicle is empty".to_string()));
    assert_eq!(
        see_reply(vec!["user:1:age: 30".to_string()]).to_bytes(),
        b"*1\r\n$14\r\nuser:1:age: 30\r\n".to_vec()
    );
}

#[test]
fn requests_change_nothing_until_logged() {
    let mut map = restore_state(None, None);
    let (dirty, action) = step(&mut map, false, Event::Request(array(&["DEL", "a"])));
    assert!(!dirty);
    let record = wal_record(&array(&["DEL", "a"]).to_bytes());
    assert_eq!(action, Action::Serve(Request::Delete { key: "a".to_string(), record }));
    let (dirty, action) =
        step(&mut map, false, Event::DeleteLogged { key: "a".to_string(), logged: true });
    assert!(!dirty);
    assert_eq!(action, Action::Reply(Frame::Integer(0)));
    assert_eq!(action_bytes(&action), b":0\r\n".to_vec());
    let (dirty, action) = step(&mut map, false, Event::Request(array(&["GET", "a"])));
    assert!(!dirty);
    assert_eq!(action, Action::Serve(Request::Get("a".to_string())));
    let (dirty, _) = step(&mut map, false, Event::Request(array(&["nope"])));
    assert!(!dirty);
    assert!(entries(&map).is_empty());
}

fn action_bytes(action: &Action) -> Vec<u8> {
    match action {
        Action::Reply(f) => f.to_bytes(),
        _ => vec![],
    }
}

#[test]
fn a_logged_set_is_applied_and_marks_the_store_changed() {
    let mut map = restore_state(None, None);
    let (dirty, action) = step(
        &mut map,
        false,
        Event::StoreLogged { key: "k".to_string(), value: Value::Integer(4), logged: true },
    );
    assert!(dirty);
    assert_eq!(action_bytes(&action), b"+OK\r\n".to_vec());
    assert_eq!(lookup(&map, &"k".to_string()), Some(Value::Integer(4)));
    let (dirty, action) =
        step(&mut map, false, Event::DeleteLogged { key: "k".to_string(), logged: true });
    assert!(dirty);
    assert_eq!(action_bytes(&action), b":1\r\n".to_vec());
}

#[test]
fn a_failed_log_write_changes_nothing() {
    let mut map = restore_state(None, None);
    apply_set(&mut map, "k".to_string(), Value::Integer(1));
    for dirty in [false, true] {
        let (next, action) = step(
            &mut map,
            dirty,
            Event::StoreLogged { key: "k".to_string(), value: Value::Integer(9), logged: false },
        );
        assert_eq!(next, dirty);
        assert_eq!(action_bytes(&action), b"-ERR Failed to write to WAL\r\n".to_vec());
        let (next, action) =
            step(&mut map, dirty, Event::DeleteLogged { key: "k".to_string(), logged: false });
        assert_eq!(next, dirty);
        assert_eq!(action_bytes(&action), b"-ERR Failed to write to WAL\r\n".to_vec());
    }
    assert_eq!(lookup(&map, &"k".to_string()), Some(Value::Integer(1)));
}

#[test]
fn snapshot_outcomes() {
    let mut map = restore_state(None, None);
    let (dirty, action) =
        step(&mut map, true, Event::SnapshotWritten(Err("disk full".to_string())));
    assert!(dirty);
    assert_eq!(action_bytes(&action), b"-ERR creating snapshot: disk full\r\n".to_vec());
    let (dirty, action) = step(&mut map, true, Event::SnapshotWritten(Ok(())));
    assert!(dirty);
    assert_eq!(action, Action::TruncateLog);
    let (dirty, action) = step(&mut map, true, Event::LogTruncated(true));
    assert!(!dirty);
    assert_eq!(action_bytes(&action), b"+OK\r\n".to_vec());
    let (dirty, action) = step(&mut map, true, Event::LogTruncated(false));
    assert!(dirty);
    assert_eq!(action_bytes(&action), b"-ERR Failed to truncate WAL\r\n".to_vec());
}

#[test]
fn the_timer_snapshots_only_a_changed_store() {
    let mut map = restore_state(None, None);
    assert_eq!(step(&mut map, false, Event::Tick), (false, Action::Nothing));
    assert_eq!(step(&mut map, true, Event::Tick), (false, Action::TakeSnapshot));
    assert_eq!(
        step(&mut map, false, Event::TimedSnapshotWritten(true)),
        (false, Action::TruncateLogQuietly)
    );
    assert_eq!(step(&mut map, true, Event::TimedSnapshotWritten(false)), (true, Action::Nothing));
}

#[test]
fn an_acknowledged_change_is_restored_from_the_log() {
    let mut wal = wal_record(&array(&["SET", "a", "1"]).to_bytes());
    wal.extend_from_slice(&wal_record(&array(&["SET", "b", "true"]).to_bytes()));
    let mut map = restore_state(None, Some(bytes::BytesMut::from(&wal[..])));
    for request in [array(&["SET", "c", "[1, 2]"]), array(&["DEL", "a"]), array(&["DEL", "zz"])] {
        let event = match step(&mut map, false, Event::Request(request)).1 {
            Action::Serve(Request::Store { key, value, record }) => {
                wal.extend_from_slice(&record);
                Event::StoreLogged { key, value, logged: true }
            }
            Action::Serve(Request::Delete { key, record }) => {
                wal.extend_from_slice(&record);
                Event::DeleteLogged { key, logged: true }
            }
            other => panic!("expected a change, not {:?}", other),
        };
        step(&mut map, false, event);
        let restored = restore_state(None, Some(bytes::BytesMut::from(&wal[..])));
        assert_eq!(entries(&restored), entries(&map));
    }
    assert_eq!(
        entries(&map),
        vec![
            ("b".to_string(), Value::Boolean(true)),
            ("c".to_string(), Value::List(vec![Value::Integer(1), Value::Integer(2)])),
        ]
    );
}
