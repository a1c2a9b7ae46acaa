//! What the server decides for each request; the caller does the I/O.
use vstd::prelude::*;
use im::OrdMap;
use crate::cmd::{Cmd, CmdView, command_of};
use crate::persistence::{record_of, replay, whole_records, law_append_record, Entries, snapshot_of,
    snapshot_contents, texts_view, texts_fit, law_snapshot_restores};
use crate::display::{display_of, has_float, value_text, reads_back, law_display_roundtrip};
use crate::store::{bytes_before, key_before};
use crate::resp_laws::frame_wf;
use crate::store::no_entries;
use crate::persistence::wal_record;
use crate::resp::{Frame, FrameView, encode};
use crate::store::{store_entries, store_insert, store_remove, store_get, store_pairs, pairs_view, lists_entries};
use crate::value::{Value, ValueView};
use vstd::string::StringExecFns;

verus! {

/// What the server does about one request frame.
#[derive(Debug, PartialEq)]
pub enum Request {
    /// Send this reply at once.
    Reply(Frame),
    /// Look the key up: reply with its value's text, or with `Null`.
    Get(String),
    /// Append `record` to the log; once it is written, store the value and
    /// reply `OK`.
    Store { key: String, value: Value, record: Vec<u8> },
    /// Append `record` to the log; once it is written, remove the key and
    /// reply whether it was there.
    Delete { key: String, record: Vec<u8> },
    /// Reply with every entry.
    See,
    /// Write a snapshot, then empty the log.
    Snapshot,
}

/// The plan for a request frame: the command it stands for, with the log
/// record of the frame for a change, or the error reply.
pub open spec fn plan_of(f: FrameView, r: Request) -> bool {
    match command_of(f) {
        Err(e) => r matches Request::Reply(Frame::Error(m)) && m@ == e,
        Ok(CmdView::Get(k)) => r matches Request::Get(x) && x@ == k,
        Ok(CmdView::SetValue(k, v)) => r matches Request::Store { key, value, record } && key@ == k
            && value@ == v && record@ == record_of(encode(f)),
        Ok(CmdView::Delete(k)) => r matches Request::Delete { key, record } && key@ == k && record@
            == record_of(encode(f)),
        Ok(CmdView::See) => r is See,
        Ok(CmdView::Snapshot) => r is Snapshot,
    }
}

/// Decides what to do about a request frame.
pub fn plan_request(frame: Frame) -> (r: Request)
    ensures
        plan_of(frame@, r),
{
    let ghost f = frame@;
    let bytes = frame.to_bytes();
    match Cmd::try_from(frame) {
        Ok(Cmd::Get(key)) => Request::Get(key),
        Ok(Cmd::SetValue(key, value)) => Request::Store {
            key,
            value,
            record: wal_record(bytes.as_slice()),
        },
        Ok(Cmd::Delete(key)) => Request::Delete { key, record: wal_record(bytes.as_slice()) },
        Ok(Cmd::See) => Request::See,
        Ok(Cmd::Snapshot) => Request::Snapshot,
        Err(e) => Request::Reply(Frame::Error(e)),
    }
}

/// Stores a value once its log record is written; the reply is `OK`.
pub fn apply_set(map: &mut OrdMap<String, Value>, key: String, value: Value) -> (r: Frame)
    ensures
        store_entries(*final(map)) == store_entries(*old(map)).insert(key@, value@),
        r@ == FrameView::Simple("OK"@),
{
    store_insert(map, key, value);
    Frame::SimpleString("OK".to_owned())
}

/// Removes a key once its log record is written; the reply is `1` when the
/// key was there and `0` when it was not, and the flag says whether the store
/// changed.
pub fn apply_delete(map: &mut OrdMap<String, Value>, key: &String) -> (r: (Frame, bool))
    ensures
        store_entries(*final(map)) == store_entries(*old(map)).remove(key@),
        r.1 == store_entries(*old(map)).contains_key(key@),
        r.0@ == FrameView::Integer(if r.1 { 1 } else { 0 }),
{
    match store_remove(map, key) {
        Some(_) => (Frame::Integer(1), true),
        None => (Frame::Integer(0), false),
    }
}

/// The reply when the log could not be written.
pub fn wal_failure() -> (r: Frame)
    ensures
        r@ == FrameView::Error("ERR Failed to write to WAL"@),
{
    Frame::Error("ERR Failed to write to WAL".to_owned())
}

/// The reply when the log could not be emptied after a snapshot.
pub fn truncate_failure() -> (r: Frame)
    ensures
        r@ == FrameView::Error("ERR Failed to truncate WAL"@),
{
    Frame::Error("ERR Failed to truncate WAL".to_owned())
}

/// The reply when a snapshot could not be written, with the reason.
pub fn snapshot_failure(reason: &str) -> (r: Frame)
    ensures
        r@ == FrameView::Error("ERR creating snapshot: "@ + reason@),
{
    let mut msg = "ERR creating snapshot: ".to_owned();
    msg.append(reason);
    Frame::Error(msg)
}

/// The reply to a successful snapshot.
pub fn snapshot_done() -> (r: Frame)
    ensures
        r@ == FrameView::Simple("OK"@),
{
    Frame::SimpleString("OK".to_owned())
}

/// A copy of the value of a key.
pub fn lookup(map: &OrdMap<String, Value>, key: &String) -> (r: Option<Value>)
    ensures
        r is Some <==> store_entries(*map).contains_key(key@),
        r matches Some(v) ==> v@ == store_entries(*map)[key@],
{
    match store_get(map, key) {
        Some(v) => Some(v.duplicate()),
        None => None,
    }
}

/// The reply to `GET`: the text of the value as a bulk string, or `Null`.
pub fn get_reply(value_text: Option<String>) -> (r: Frame)
    ensures
        r@ == match value_text {
            Some(t) => FrameView::Bulk(Some(vstd::utf8::encode_utf8(t@))),
            None => FrameView::Null,
        },
{
    match value_text {
        Some(t) => {
            let mut bytes: Vec<u8> = Vec::new();
            crate::text::append_bytes(&mut bytes, t.as_str().as_bytes());
            Frame::BulkString(Some(bytes))
        },
        None => Frame::Null,
    }
}

/// The entries of the store from the lowest key to the highest, copied out.
pub fn entries(map: &OrdMap<String, Value>) -> (r: Vec<(String, Value)>)
    ensures
        lists_entries(r@.map_values(|p: (String, Value)| (p.0@, p.1@)), store_entries(*map)),
{
    let pairs = store_pairs(map);
    let mut out: Vec<(String, Value)> = Vec::new();
    let mut i: usize = 0;
    while i < pairs.len()
        invariant
            i <= pairs@.len(),
            out@.len() == i,
            forall|j: int|
                0 <= j < i ==> (#[trigger] out@[j]).0@ == pairs@[j].0@ && out@[j].1@ == pairs@[j].1@,
        decreases pairs@.len() - i,
    {
        let (k, v) = pairs[i];
        out.push((k.clone(), v.duplicate()));
        i = i + 1;
    }
    assert(out@.map_values(|p: (String, Value)| (p.0@, p.1@)) =~= pairs_view(pairs@));
    out
}

/// The line that `SEE` lists for one entry: the key, `": "`, then the text of
/// its value.
pub fn see_item(key: &str, value_text: &str) -> (r: String)
    ensures
        r@ == key@ + ": "@ + value_text@,
{
    let mut s = key.to_owned();
    s.append(": ");
    s.append(value_text);
    s
}

/// The reply to `SEE`: each listed line as a bulk string, or the note that the
/// store is empty.
pub fn see_reply(items: Vec<String>) -> (r: Frame)
    ensures
        items@.len() == 0 ==> r@ == FrameView::Simple("Cubicle is empty"@),
        items@.len() > 0 ==> r@ == FrameView::Array(
            Some(
                items@.map_values(
                    |t: String| FrameView::Bulk(Some(vstd::utf8::encode_utf8(t@))),
                ),
            ),
        ),
{
    if items.len() == 0 {
        return Frame::SimpleString("Cubicle is empty".to_owned());
    }
    let mut frames: Vec<Frame> = Vec::new();
    let mut i: usize = 0;
    while i < items.len()
        invariant
            i <= items@.len(),
            frames@.len() == i,
            forall|j: int|
                0 <= j < i ==> crate::resp::frame_view(#[trigger] frames@[j]) == FrameView::Bulk(
                    Some(vstd::utf8::encode_utf8(items@[j]@)),
                ),
        decreases items@.len() - i,
    {
        let mut bytes: Vec<u8> = Vec::new();
        crate::text::append_bytes(&mut bytes, items[i].as_str().as_bytes());
        frames.push(Frame::BulkString(Some(bytes)));
        i = i + 1;
    }
    proof {
        crate::resp::lemma_frames_view_len(frames@);
        assert(crate::resp::frames_view(frames@) =~= items@.map_values(
            |t: String| FrameView::Bulk(Some(vstd::utf8::encode_utf8(t@))),
        ));
    }
    Frame::Array(Some(frames))
}


/// Something that happened, to which the server answers.
#[derive(Debug, PartialEq)]
pub enum Event {
    /// A request frame arrived.
    Request(Frame),
    /// The log record of a `SET` was written and flushed, or it was not.
    StoreLogged { key: String, value: Value, logged: bool },
    /// The log record of a `DEL` was written and flushed, or it was not.
    DeleteLogged { key: String, logged: bool },
    /// A snapshot that a request asked for was written, or failed for this reason.
    SnapshotWritten(Result<(), String>),
    /// After a requested snapshot, the log was emptied, or it was not.
    LogTruncated(bool),
    /// The snapshot timer fired.
    Tick,
    /// A snapshot that the timer asked for was written, or it was not.
    TimedSnapshotWritten(bool),
}

/// What the server does next.
#[derive(Debug, PartialEq)]
pub enum Action {
    /// Carry out the request as planned; a change is logged first and then
    /// reported back with `StoreLogged` or `DeleteLogged`, a snapshot with
    /// `SnapshotWritten`.
    Serve(Request),
    /// Send this reply.
    Reply(Frame),
    /// Empty the log, then report back with `LogTruncated`.
    TruncateLog,
    /// Write a snapshot of the store, then report back with `TimedSnapshotWritten`.
    TakeSnapshot,
    /// Empty the log; nothing is reported back.
    TruncateLogQuietly,
    /// Nothing to do.
    Nothing,
}

/// The server's step: from the store, the flag that says whether the store
/// changed since the last snapshot, and an event, to the next store, the next
/// flag and the action. The store changes only once a change is logged.
pub fn step(map: &mut OrdMap<String, Value>, dirty: bool, event: Event) -> (r: (bool, Action))
    ensures
        (match event {
            Event::Request(f) => {
                &&& store_entries(*final(map)) == store_entries(*old(map))
                &&& r.0 == dirty
                &&& r.1 matches Action::Serve(q) && plan_of(f@, q)
            },
            Event::StoreLogged { key, value, logged } => if logged {
                &&& store_entries(*final(map)) == store_entries(*old(map)).insert(key@, value@)
                &&& r.0 == true
                &&& r.1 matches Action::Reply(x) && x@ == FrameView::Simple("OK"@)
            } else {
                &&& store_entries(*final(map)) == store_entries(*old(map))
                &&& r.0 == dirty
                &&& r.1 matches Action::Reply(x) && x@ == FrameView::Error(
                    "ERR Failed to write to WAL"@,
                )
            },
            Event::DeleteLogged { key, logged } => if logged {
                &&& store_entries(*final(map)) == store_entries(*old(map)).remove(key@)
                &&& r.0 == (dirty || store_entries(*old(map)).contains_key(key@))
                &&& r.1 matches Action::Reply(x) && x@ == FrameView::Integer(
                    if store_entries(*old(map)).contains_key(key@) {
                        1
                    } else {
                        0
                    },
                )
            } else {
                &&& store_entries(*final(map)) == store_entries(*old(map))
                &&& r.0 == dirty
                &&& r.1 matches Action::Reply(x) && x@ == FrameView::Error(
                    "ERR Failed to write to WAL"@,
                )
            },
            Event::SnapshotWritten(res) => {
                &&& store_entries(*final(map)) == store_entries(*old(map))
                &&& r.0 == dirty
                &&& match res {
                    Ok(_) => r.1 is TruncateLog,
                    Err(e) => r.1 matches Action::Reply(x) && x@ == FrameView::Error(
                        "ERR creating snapshot: "@ + e@,
                    ),
                }
            },
            Event::LogTruncated(ok) => {
                &&& store_entries(*final(map)) == store_entries(*old(map))
                &&& r.0 == (if ok {
                    false
                } else {
                    dirty
                })
                &&& if ok {
                    r.1 matches Action::Reply(x) && x@ == FrameView::Simple("OK"@)
                } else {
                    r.1 matches Action::Reply(x) && x@ == FrameView::Error(
                        "ERR Failed to truncate WAL"@,
                    )
                }
            },
            Event::Tick => {
                &&& store_entries(*final(map)) == store_entries(*old(map))
                &&& r.0 == false
                &&& if dirty {
                    r.1 is TakeSnapshot
                } else {
                    r.1 is Nothing
                }
            },
            Event::TimedSnapshotWritten(ok) => {
                &&& store_entries(*final(map)) == store_entries(*old(map))
                &&& r.0 == dirty
                &&& if ok {
                    r.1 is TruncateLogQuietly
                } else {
                    r.1 is Nothing
                }
            },
        }),
{
    match event {
        Event::Request(frame) => (dirty, Action::Serve(plan_request(frame))),
        Event::StoreLogged { key, value, logged } => {
            if logged {
                let reply = apply_set(map, key, value);
                (true, Action::Reply(reply))
            } else {
                (dirty, Action::Reply(wal_failure()))
            }
        },
        Event::DeleteLogged { key, logged } => {
            if logged {
                let (reply, changed) = apply_delete(map, &key);
                (dirty || changed, Action::Reply(reply))
            } else {
                (dirty, Action::Reply(wal_failure()))
            }
        },
        Event::SnapshotWritten(res) => match res {
            Ok(()) => (dirty, Action::TruncateLog),
            Err(reason) => (dirty, Action::Reply(snapshot_failure(reason.as_str()))),
        },
        Event::LogTruncated(ok) => {
            if ok {
                (false, Action::Reply(snapshot_done()))
            } else {
                (dirty, Action::Reply(truncate_failure()))
            }
        },
        Event::Tick => {
            if dirty {
                (false, Action::TakeSnapshot)
            } else {
                (false, Action::Nothing)
            }
        },
        Event::TimedSnapshotWritten(ok) => {
            if ok {
                (dirty, Action::TruncateLogQuietly)
            } else {
                (dirty, Action::Nothing)
            }
        },
    }
}

/// Law: after a value is stored under a key, looking the key up gives that
/// value; after the key is removed, looking it up finds nothing; other keys
/// are untouched by either.
pub proof fn law_read_after_write(m: Map<Seq<char>, ValueView>, k: Seq<char>, v: ValueView, other: Seq<char>)
    requires
        other != k,
    ensures
        m.insert(k, v).contains_key(k),
        m.insert(k, v)[k] == v,
        !m.remove(k).contains_key(k),
        m.insert(k, v).contains_key(other) == m.contains_key(other),
        m.contains_key(other) ==> m.insert(k, v)[other] == m[other],
        m.remove(k).contains_key(other) == m.contains_key(other),
        m.contains_key(other) ==> m.remove(k)[other] == m[other],
{
}


/// The log record that a planned change appends, or no bytes for a request
/// that changes nothing.
pub open spec fn log_record(q: Request) -> Seq<u8> {
    match q {
        Request::Store { record, .. } => record@,
        Request::Delete { record, .. } => record@,
        _ => seq![],
    }
}

/// The entries once the record of a planned change is written: what `step`
/// makes of them on `StoreLogged` or `DeleteLogged` with `logged` true.
pub open spec fn logged_change(m: Entries, q: Request) -> Entries {
    match q {
        Request::Store { key, value, .. } => m.insert(key@, value@),
        Request::Delete { key, .. } => m.remove(key@),
        _ => m,
    }
}

/// Law: a change the server acknowledges is restored along with the log it
/// was appended to. Appending the record of the change planned for a request
/// frame to a log of whole records keeps the log whole, and a snapshot with
/// the longer log restores the entries that the change leaves of what the
/// snapshot with the shorter log restores.
pub proof fn law_acknowledged_change_restores(snapshot: Seq<u8>, wal: Seq<u8>, f: FrameView, q: Request)
    requires
        whole_records(wal),
        frame_wf(f),
        plan_of(f, q),
        q is Store || q is Delete,
    ensures
        whole_records(wal + log_record(q)),
        replay(replay(no_entries(), snapshot), wal + log_record(q)) == logged_change(
            replay(replay(no_entries(), snapshot), wal),
            q,
        ),
{
    law_append_record(replay(no_entries(), snapshot), wal, f);
}


/// The entries, each key with the text of its value.
pub open spec fn shown(ps: Seq<(Seq<char>, ValueView)>) -> Seq<(Seq<char>, Seq<char>)> {
    ps.map_values(|p: (Seq<char>, ValueView)| (p.0, display_of(p.1)))
}

/// Some value of the entries holds a floating-point number.
pub open spec fn holds_float(m: Entries) -> bool {
    exists|k: Seq<char>| m.contains_key(k) && #[trigger] has_float(m[k])
}

/// Each entry with the text of its value, in the order listed; `None` when a
/// value holds a floating-point number.
fn shown_entries(es: &Vec<(String, Value)>) -> (r: Option<Vec<(String, String)>>)
    ensures
        r is None <==> exists|i: int| 0 <= i < es@.len() && #[trigger] has_float(es@[i].1@),
        r matches Some(ps) ==> ps@.len() == es@.len() && texts_view(ps@) == shown(
            es@.map_values(|p: (String, Value)| (p.0@, p.1@)),
        ),
{
    let mut ps: Vec<(String, String)> = Vec::new();
    let mut i: usize = 0;
    while i < es.len()
        invariant
            i <= es@.len(),
            ps@.len() == i,
            forall|j: int|
                0 <= j < i ==> (#[trigger] ps@[j]).0@ == es@[j].0@ && ps@[j].1@ == display_of(
                    es@[j].1@,
                ),
            forall|j: int| 0 <= j < i ==> !#[trigger] has_float(es@[j].1@),
        decreases es@.len() - i,
    {
        match value_text(&es[i].1) {
            None => {
                return None;
            },
            Some(t) => {
                ps.push((es[i].0.clone(), t));
            },
        }
        i = i + 1;
    }
    assert(texts_view(ps@) =~= shown(es@.map_values(|p: (String, Value)| (p.0@, p.1@))));
    Some(ps)
}

/// The snapshot file of a store: for each entry from the lowest key up, the
/// snapshot record of its key and its value's text; `None` when a value holds
/// a floating-point number, whose text is `f64`'s own formatting.
pub fn store_snapshot(map: &OrdMap<String, Value>) -> (r: Option<Vec<u8>>)
    ensures
        r is None <==> holds_float(store_entries(*map)),
        r matches Some(b) ==> exists|ps: Seq<(Seq<char>, ValueView)>|
            lists_entries(ps, store_entries(*map)) && b@ == snapshot_of(#[trigger] shown(ps)),
{
    let es = entries(map);
    let ghost ev = es@.map_values(|p: (String, Value)| (p.0@, p.1@));
    let ghost m = store_entries(*map);
    match shown_entries(&es) {
        None => {
            proof {
                let i = choose|i: int| 0 <= i < es@.len() && #[trigger] has_float(es@[i].1@);
                assert(ev[i] == (es@[i].0@, es@[i].1@));
                assert(m.contains_key(ev[i].0) && m[ev[i].0] == ev[i].1);
                assert(has_float(m[ev[i].0]));
            }
            None
        },
        Some(ps) => {
            proof {
                assert forall|k: Seq<char>| m.contains_key(k) implies !#[trigger] has_float(m[k]) by {
                    let i = choose|i: int| 0 <= i < ev.len() && ev[i].0 == k;
                    assert(ev[i] == (es@[i].0@, es@[i].1@));
                    assert(!has_float(es@[i].1@));
                }
            }
            let bytes = snapshot_contents(&ps);
            proof {
                assert(lists_entries(ev, m));
                assert(bytes@ == snapshot_of(shown(ev)));
            }
            Some(bytes)
        },
    }
}

/// The reply to `GET` for what the lookup found: `Null` for nothing, and the
/// text of the value as a bulk string; `None` when the value holds a
/// floating-point number.
pub fn value_reply(value: &Option<Value>) -> (r: Option<Frame>)
    ensures
        match value {
            None => r matches Some(f) && f@ == FrameView::Null,
            Some(v) => if has_float(v@) {
                r is None
            } else {
                r matches Some(f) && f@ == FrameView::Bulk(
                    Some(vstd::utf8::encode_utf8(display_of(v@))),
                )
            },
        },
{
    match value {
        None => Some(get_reply(None)),
        Some(v) => match value_text(v) {
            Some(t) => Some(get_reply(Some(t))),
            None => None,
        },
    }
}

/// The lines that `SEE` lists for entries: each key, `": "`, then the text of
/// its value; `None` when a value holds a floating-point number.
pub fn see_lines(es: &Vec<(String, Value)>) -> (r: Option<Vec<String>>)
    ensures
        r is None <==> exists|i: int| 0 <= i < es@.len() && #[trigger] has_float(es@[i].1@),
        r matches Some(ls) ==> ls@.len() == es@.len() && forall|i: int|
            0 <= i < es@.len() ==> (#[trigger] ls@[i])@ == es@[i].0@ + ": "@ + display_of(
                es@[i].1@,
            ),
{
    let ps = match shown_entries(es) {
        Some(ps) => ps,
        None => return None,
    };
    let mut ls: Vec<String> = Vec::new();
    let mut i: usize = 0;
    while i < ps.len()
        invariant
            i <= ps@.len(),
            ps@.len() == es@.len(),
            texts_view(ps@) == shown(es@.map_values(|p: (String, Value)| (p.0@, p.1@))),
            ls@.len() == i,
            forall|j: int|
                0 <= j < i ==> (#[trigger] ls@[j])@ == es@[j].0@ + ": "@ + display_of(es@[j].1@),
        decreases ps@.len() - i,
    {
        proof {
            assert(texts_view(ps@)[i as int] == (ps@[i as int].0@, ps@[i as int].1@));
        }
        let line = see_item(ps[i].0.as_str(), ps[i].1.as_str());
        ls.push(line);
        i = i + 1;
    }
    Some(ls)
}


proof fn lemma_bytes_before_irreflexive(a: Seq<u8>)
    ensures
        !bytes_before(a, a),
    decreases a.len(),
{
    if a.len() > 0 {
        lemma_bytes_before_irreflexive(a.drop_first());
    }
}

/// Law: the snapshot file of a store whose values are integers, booleans and
/// lists of them restores exactly that store from an empty one: each value's
/// text reads back as the value.
pub proof fn law_store_snapshot_restores(m: Entries, ps: Seq<(Seq<char>, ValueView)>)
    requires
        lists_entries(ps, m),
        forall|k: Seq<char>| #[trigger] m.contains_key(k) ==> reads_back(m[k]),
        texts_fit(shown(ps)),
    ensures
        replay(no_entries(), snapshot_of(shown(ps))) == m,
{
    let qs = shown(ps);
    assert forall|i: int, j: int| 0 <= i < j < qs.len() implies #[trigger] qs[i].0
        != #[trigger] qs[j].0 by {
        assert(key_before(ps[i].0, ps[j].0));
        lemma_bytes_before_irreflexive(vstd::utf8::encode_utf8(ps[i].0));
    }
    assert forall|k: Seq<char>| #[trigger] m.contains_key(k) <==> exists|i: int|
        0 <= i < qs.len() && qs[i].0 == k by {
        if m.contains_key(k) {
            let i = choose|i: int| 0 <= i < ps.len() && ps[i].0 == k;
            assert(qs[i].0 == k);
        }
        if exists|i: int| 0 <= i < qs.len() && qs[i].0 == k {
            let i = choose|i: int| 0 <= i < qs.len() && qs[i].0 == k;
            assert(ps[i].0 == k);
        }
    }
    assert forall|i: int| 0 <= i < qs.len() implies m.contains_key(#[trigger] qs[i].0)
        && crate::value::value_of(qs[i].1) == m[qs[i].0] by {
        assert(qs[i] == (ps[i].0, display_of(ps[i].1)));
        assert(m.contains_key(ps[i].0));
        law_display_roundtrip(ps[i].1);
    }
    law_snapshot_restores(m, qs);
}

} // verus!
