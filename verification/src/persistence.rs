//! The write-ahead log and the snapshot: records of RESP commands, each behind
//! a checksum header, and the replay that rebuilds the store from them.
use vstd::prelude::*;
use vstd::utf8::{encode_utf8, encode_utf8_valid_utf8, encode_utf8_decode_utf8};
use bytes::BytesMut;
use im::OrdMap;
use vstd::slice::slice_subrange;
use crate::buffer::{buffer_bytes, buffer_len, buffer_slice, buffer_advance, buffer_from_slice};
use crate::checksum::{crc32, checksum, header_of, parse_hex_u32, parse_header, push_header, law_header_roundtrip};
use crate::cmd::{Cmd, CmdView, command_of, command_of_name, string_of_frame, upper_text, ascii_upper};
use crate::resp::{Frame, FrameView, Outcome, encode, parse_frame, lemma_parse_frame_bounds};
use crate::resp_laws::{frame_wf, frames_wf, law_encode_then_parse, lemma_parsed_wf,
    law_cut_short_is_incomplete, lemma_parse_extend};
use crate::store::{store_entries, no_entries, store_new, store_insert, store_remove};
use crate::text::append_bytes;
use crate::value::{Value, ValueView, value_of};

verus! {

/// The file that logs every change since the last snapshot.
pub const WAL: &'static str = "cubicle.wal";

/// The file that holds the last snapshot.
pub const SNAPSHOT: &'static str = "cubicle.snap";

/// The entries of a store.
pub type Entries = Map<Seq<char>, ValueView>;

/// What a logged frame does to the entries: a `SET` maps its key to its value,
/// a `DEL` takes its key out, and anything else leaves them as they are.
pub open spec fn apply(m: Entries, f: FrameView) -> Entries {
    match command_of(f) {
        Ok(CmdView::SetValue(k, v)) => m.insert(k, v),
        Ok(CmdView::Delete(k)) => m.remove(k),
        _ => m,
    }
}

/// The entries after replaying a log: while a whole record stands at its front
/// (a header of eight hex digits and one byte, then a RESP frame whose CRC32
/// is the header's), the frame is applied and the record taken off. Replay
/// stops at the first place where no such record stands.
pub open spec fn replay(m: Entries, data: Seq<u8>) -> Entries
    decreases data.len(),
{
    if data.len() < 9 {
        m
    } else {
        match parse_hex_u32(data.subrange(0, 8)) {
            None => m,
            Some(expected) => match parse_frame(data.skip(9), 0) {
                Outcome::Done(f, n) => {
                    proof {
                        lemma_parse_frame_bounds(data.skip(9), 0);
                    }
                    if crc32(data.subrange(9, 9 + n)) != expected {
                        m
                    } else {
                        replay(apply(m, f), data.skip(9 + n))
                    }
                },
                _ => m,
            },
        }
    }
}

/// A record of the log: the header of the payload's checksum, then the payload.
pub open spec fn record_of(payload: Seq<u8>) -> Seq<u8> {
    header_of(crc32(payload)) + payload
}

/// The frame by which a snapshot records that `key` holds the value whose text
/// is `text`: `SET key text`, each as a bulk string.
pub open spec fn set_frame(key: Seq<char>, text: Seq<char>) -> FrameView {
    FrameView::Array(
        Some(
            seq![
                FrameView::Bulk(Some(encode_utf8("SET"@))),
                FrameView::Bulk(Some(encode_utf8(key))),
                FrameView::Bulk(Some(encode_utf8(text))),
            ],
        ),
    )
}

/// The log record of a payload: its checksum header, then the payload.
pub fn wal_record(payload: &[u8]) -> (r: Vec<u8>)
    ensures
        r@ == record_of(payload@),
{
    record_with_checksum(checksum(payload), payload)
}

/// The record of a payload whose checksum is `crc`: the header of `crc`, then
/// the payload.
pub fn record_with_checksum(crc: u32, payload: &[u8]) -> (r: Vec<u8>)
    ensures
        r@ == header_of(crc) + payload@,
{
    let mut out: Vec<u8> = Vec::new();
    push_header(crc, &mut out);
    append_bytes(&mut out, payload);
    assert(out@ =~= header_of(crc) + payload@);
    out
}

/// The snapshot record of one entry: the record of `SET key text`.
pub fn snapshot_record(key: &str, value_text: &str) -> (r: Vec<u8>)
    ensures
        r@ == record_of(encode(set_frame(key@, value_text@))),
{
    let mut set: Vec<u8> = Vec::new();
    append_bytes(&mut set, "SET".as_bytes());
    let mut k: Vec<u8> = Vec::new();
    append_bytes(&mut k, key.as_bytes());
    let mut v: Vec<u8> = Vec::new();
    append_bytes(&mut v, value_text.as_bytes());
    let mut items: Vec<Frame> = Vec::new();
    items.push(Frame::BulkString(Some(set)));
    items.push(Frame::BulkString(Some(k)));
    items.push(Frame::BulkString(Some(v)));
    let frame = Frame::Array(Some(items));
    proof {
        let fs = items@;
        let v0 = crate::resp::frame_view(fs[0]);
        let v1 = crate::resp::frame_view(fs[1]);
        let v2 = crate::resp::frame_view(fs[2]);
        assert(fs.drop_last().drop_last().drop_last() =~= Seq::<Frame>::empty());
        assert(fs.drop_last().drop_last() =~= seq![fs[0]]);
        assert(fs.drop_last() =~= seq![fs[0], fs[1]]);
        assert(crate::resp::frames_view(fs.drop_last().drop_last().drop_last()) =~= Seq::<
            FrameView,
        >::empty());
        assert(crate::resp::frames_view(fs.drop_last().drop_last()) =~= seq![v0]);
        assert(crate::resp::frames_view(fs.drop_last()) =~= seq![v0, v1]);
        assert(crate::resp::frames_view(fs) =~= seq![v0, v1, v2]);
    }
    let bytes = frame.to_bytes();
    wal_record(bytes.as_slice())
}

/// Applies the frame of a record when the checksum of its payload is the one
/// its header gives; says whether it did.
pub fn apply_checked(map: &mut OrdMap<String, Value>, expected: u32, actual: u32, frame: Frame) -> (applied: bool)
    ensures
        applied == (expected == actual),
        applied ==> store_entries(*final(map)) == apply(store_entries(*old(map)), frame@),
        !applied ==> store_entries(*final(map)) == store_entries(*old(map)),
{
    if actual != expected {
        return false;
    }
    apply_frame(map, frame);
    true
}

/// Applies a logged frame to the store.
fn apply_frame(map: &mut OrdMap<String, Value>, frame: Frame)
    ensures
        store_entries(*final(map)) == apply(store_entries(*old(map)), frame@),
{
    match Cmd::try_from(frame) {
        Ok(Cmd::SetValue(key, value)) => {
            store_insert(map, key, value);
        },
        Ok(Cmd::Delete(key)) => {
            store_remove(map, &key);
        },
        _ => {},
    }
}

/// Replays the records at the front of `buffer` into `map`, as `replay`
/// describes.
pub fn replay_log(map: &mut OrdMap<String, Value>, buffer: &mut BytesMut)
    ensures
        store_entries(*final(map)) == replay(store_entries(*old(map)), buffer_bytes(*old(buffer))),
{
    loop
        invariant
            replay(store_entries(*map), buffer_bytes(*buffer)) == replay(
                store_entries(*old(map)),
                buffer_bytes(*old(buffer)),
            ),
        decreases buffer_bytes(*buffer).len(),
    {
        let len = buffer_len(buffer);
        if len < 9 {
            return;
        }
        let ghost data = buffer_bytes(*buffer);
        let bytes = buffer_slice(buffer);
        let expected = match parse_header(slice_subrange(bytes, 0, 8)) {
            Some(c) => c,
            None => return,
        };
        let mut frame_buf = buffer_from_slice(slice_subrange(bytes, 9, len));
        proof {
            assert(buffer_bytes(frame_buf) =~= data.skip(9));
        }
        match Frame::parser(&mut frame_buf) {
            Ok(Some(frame)) => {
                proof {
                    lemma_parse_frame_bounds(data.skip(9), 0);
                }
                let frame_len = (len - 9) - buffer_len(&frame_buf);
                let payload = slice_subrange(bytes, 9, 9 + frame_len);
                if !apply_checked(map, expected, checksum(payload), frame) {
                    return;
                }
                buffer_advance(buffer, 9 + frame_len);
            },
            _ => {
                return;
            },
        }
    }
}

/// The contents of a file, or no bytes when it is missing.
pub open spec fn file_bytes(file: Option<BytesMut>) -> Seq<u8> {
    match file {
        Some(b) => buffer_bytes(b),
        None => seq![],
    }
}

/// Rebuilds the store from the contents of the snapshot file and then of the
/// log file, either of which may be missing.
pub fn restore_state(snapshot: Option<BytesMut>, wal: Option<BytesMut>) -> (r: OrdMap<String, Value>)
    ensures
        store_entries(r) == replay(replay(no_entries(), file_bytes(snapshot)), file_bytes(wal)),
{
    let mut map = store_new();
    if let Some(mut buffer) = snapshot {
        replay_log(&mut map, &mut buffer);
    }
    if let Some(mut buffer) = wal {
        replay_log(&mut map, &mut buffer);
    }
    map
}

/// Law: a record of the encoding of a well-formed frame, whatever follows it
/// in the log, replays as that frame applied to the entries.
pub proof fn law_replay_record(m: Entries, f: FrameView, rest: Seq<u8>)
    requires
        frame_wf(f),
    ensures
        replay(m, record_of(encode(f)) + rest) == replay(apply(m, f), rest),
{
    let e = encode(f);
    let data = record_of(e) + rest;
    let c = crc32(e);
    law_header_roundtrip(c);
    assert(data.subrange(0, 8) =~= header_of(c).subrange(0, 8));
    assert(data.skip(9) =~= e + rest);
    law_encode_then_parse(f, rest);
    assert(data.subrange(9, 9 + e.len() as int) =~= e);
    assert(data.skip(9 + e.len() as int) =~= rest);
}


/// Law: a frame read from a client and logged as the record of its encoding
/// replays, whatever follows it in the log, as that frame applied.
pub proof fn law_replay_logged_request(m: Entries, s: Seq<u8>, p: int, rest: Seq<u8>)
    requires
        parse_frame(s, p) is Done,
    ensures
        parse_frame(s, p) matches Outcome::Done(f, _) && replay(m, record_of(encode(f)) + rest)
            == replay(apply(m, f), rest),
{
    lemma_parsed_wf(s, p);
    if let Outcome::Done(f, _) = parse_frame(s, p) {
        law_replay_record(m, f, rest);
    }
}

/// Law: the snapshot record of a key and a value's text replays, whatever
/// follows it, as the key mapped to the value read from that text.
pub proof fn law_replay_snapshot_record(m: Entries, key: Seq<char>, text: Seq<char>, rest: Seq<u8>)
    requires
        encode_utf8(key).len() <= i64::MAX,
        encode_utf8(text).len() <= i64::MAX,
    ensures
        replay(m, record_of(encode(set_frame(key, text))) + rest) == replay(
            m.insert(key, value_of(text)),
            rest,
        ),
{
    let f = set_frame(key, text);
    let fs = seq![
        FrameView::Bulk(Some(encode_utf8("SET"@))),
        FrameView::Bulk(Some(encode_utf8(key))),
        FrameView::Bulk(Some(encode_utf8(text))),
    ];
    encode_utf8_valid_utf8("SET"@);
    encode_utf8_decode_utf8("SET"@);
    reveal_strlit("SET");
    assert(vstd::utf8::is_ascii_chars("SET"@));
    vstd::utf8::is_ascii_chars_encode_utf8("SET"@);
    encode_utf8_valid_utf8(key);
    encode_utf8_decode_utf8(key);
    encode_utf8_valid_utf8(text);
    encode_utf8_decode_utf8(text);
    let d1 = fs.drop_last();
    let d2 = d1.drop_last();
    let d3 = d2.drop_last();
    assert(d1 =~= seq![fs[0], fs[1]]);
    assert(d2 =~= seq![fs[0]]);
    assert(d3 =~= Seq::<FrameView>::empty());
    assert(frame_wf(fs[0]));
    assert(frame_wf(fs[1]));
    assert(frame_wf(fs[2]));
    assert(frames_wf(d3));
    assert(d2.last() == fs[0]);
    assert(frames_wf(d2));
    assert(d1.last() == fs[1]);
    assert(frames_wf(d1));
    assert(frames_wf(fs));
    assert(frame_wf(f));
    law_replay_record(m, f, rest);
    assert(string_of_frame(fs[0]) == Ok::<Seq<char>, Seq<char>>("SET"@));
    assert(upper_text("SET"@) == "SET"@) by {
        assert("SET"@.map_values(|c: char| ascii_upper(c)) =~= "SET"@);
    }
    {
        reveal_strlit("GET");
        assert("SET"@ != "GET"@) by {
            assert("SET"@[0] != "GET"@[0]);
        }
        assert(string_of_frame(fs[1]) == Ok::<Seq<char>, Seq<char>>(key));
        assert(string_of_frame(fs[2]) == Ok::<Seq<char>, Seq<char>>(text));
        assert(command_of(f) == command_of_name("SET"@, fs));
        assert(command_of_name("SET"@, fs) == Ok::<CmdView, Seq<char>>(
            CmdView::SetValue(key, value_of(text)),
        ));
    }
}


/// The log that records each of the frames in turn.
pub open spec fn records_of(fs: Seq<FrameView>) -> Seq<u8>
    decreases fs.len(),
{
    if fs.len() == 0 {
        seq![]
    } else {
        record_of(encode(fs[0])) + records_of(fs.skip(1))
    }
}

/// The entries after applying each of the frames in turn.
pub open spec fn apply_all(m: Entries, fs: Seq<FrameView>) -> Entries
    decreases fs.len(),
{
    if fs.len() == 0 {
        m
    } else {
        apply_all(apply(m, fs[0]), fs.skip(1))
    }
}

/// Law: replaying a log of records of well-formed frames applies the frames
/// in the order they were logged, whatever follows them.
pub proof fn law_replay_log(m: Entries, fs: Seq<FrameView>, rest: Seq<u8>)
    requires
        forall|i: int| 0 <= i < fs.len() ==> frame_wf(#[trigger] fs[i]),
    ensures
        replay(m, records_of(fs) + rest) == replay(apply_all(m, fs), rest),
    decreases fs.len(),
{
    if fs.len() == 0 {
        assert(records_of(fs) + rest =~= rest);
    } else {
        let tail = fs.skip(1);
        assert forall|i: int| 0 <= i < tail.len() implies frame_wf(#[trigger] tail[i]) by {
            assert(tail[i] == fs[i + 1]);
        }
        law_replay_log(apply(m, fs[0]), tail, rest);
        assert(records_of(fs) + rest =~= record_of(encode(fs[0])) + (records_of(tail) + rest));
        law_replay_record(m, fs[0], records_of(tail) + rest);
    }
}


/// Law: a record cut short, as a crash in the middle of writing it leaves it,
/// replays as nothing: the entries stay as they were.
pub proof fn law_torn_record(m: Entries, f: FrameView, k: int)
    requires
        frame_wf(f),
        0 <= k < record_of(encode(f)).len(),
    ensures
        replay(m, record_of(encode(f)).take(k)) == m,
{
    let e = encode(f);
    let data = record_of(e).take(k);
    let c = crc32(e);
    law_header_roundtrip(c);
    if k >= 9 {
        assert(data.subrange(0, 8) =~= header_of(c).subrange(0, 8));
        assert(data.skip(9) =~= e.take(k - 9));
        law_cut_short_is_incomplete(f, k - 9);
    }
}


/// A snapshot file: the snapshot record of each key and value text, in order.
pub open spec fn snapshot_of(ps: Seq<(Seq<char>, Seq<char>)>) -> Seq<u8>
    decreases ps.len(),
{
    if ps.len() == 0 {
        seq![]
    } else {
        record_of(encode(set_frame(ps[0].0, ps[0].1))) + snapshot_of(ps.skip(1))
    }
}

/// The entries after mapping each key, in order, to the value read from its text.
pub open spec fn insert_all(m: Entries, ps: Seq<(Seq<char>, Seq<char>)>) -> Entries
    decreases ps.len(),
{
    if ps.len() == 0 {
        m
    } else {
        insert_all(m.insert(ps[0].0, value_of(ps[0].1)), ps.skip(1))
    }
}

/// Every key and text of the list fits in memory as a `String` does.
pub open spec fn texts_fit(ps: Seq<(Seq<char>, Seq<char>)>) -> bool {
    forall|i: int|
        0 <= i < ps.len() ==> encode_utf8(#[trigger] ps[i].0).len() <= i64::MAX && encode_utf8(
            ps[i].1,
        ).len() <= i64::MAX
}

/// Law: replaying a snapshot maps each of its keys, in order, to the value
/// read from its text.
pub proof fn law_replay_snapshot(m: Entries, ps: Seq<(Seq<char>, Seq<char>)>, rest: Seq<u8>)
    requires
        texts_fit(ps),
    ensures
        replay(m, snapshot_of(ps) + rest) == replay(insert_all(m, ps), rest),
    decreases ps.len(),
{
    if ps.len() == 0 {
        assert(snapshot_of(ps) + rest =~= rest);
    } else {
        let tail = ps.skip(1);
        assert forall|i: int| 0 <= i < tail.len() implies encode_utf8(#[trigger] tail[i].0).len()
            <= i64::MAX && encode_utf8(tail[i].1).len() <= i64::MAX by {
            assert(tail[i] == ps[i + 1]);
        }
        law_replay_snapshot(m.insert(ps[0].0, value_of(ps[0].1)), tail, rest);
        assert(snapshot_of(ps) + rest =~= record_of(encode(set_frame(ps[0].0, ps[0].1))) + (
        snapshot_of(tail) + rest));
        law_replay_snapshot_record(m, ps[0].0, ps[0].1, snapshot_of(tail) + rest);
    }
}

proof fn lemma_insert_all(m: Entries, ps: Seq<(Seq<char>, Seq<char>)>, k: Seq<char>)
    requires
        forall|i: int, j: int| 0 <= i < j < ps.len() ==> #[trigger] ps[i].0 != #[trigger] ps[j].0,
    ensures
        (exists|i: int| 0 <= i < ps.len() && ps[i].0 == k) ==> insert_all(m, ps).contains_key(k)
            && forall|i: int|
            0 <= i < ps.len() && #[trigger] ps[i].0 == k ==> insert_all(m, ps)[k] == value_of(
                ps[i].1,
            ),
        !(exists|i: int| 0 <= i < ps.len() && ps[i].0 == k) ==> (insert_all(m, ps).contains_key(k)
            == m.contains_key(k) && (m.contains_key(k) ==> insert_all(m, ps)[k] == m[k])),
    decreases ps.len(),
{
    if ps.len() > 0 {
        let tail = ps.skip(1);
        let m2 = m.insert(ps[0].0, value_of(ps[0].1));
        assert forall|i: int, j: int| 0 <= i < j < tail.len() implies #[trigger] tail[i].0
            != #[trigger] tail[j].0 by {
            assert(tail[i] == ps[i + 1]);
            assert(tail[j] == ps[j + 1]);
        }
        lemma_insert_all(m2, tail, k);
        if exists|i: int| 0 <= i < tail.len() && tail[i].0 == k {
            let i0 = choose|i: int| 0 <= i < tail.len() && tail[i].0 == k;
            assert(ps[i0 + 1].0 == k);
            assert forall|i: int| 0 <= i < ps.len() && #[trigger] ps[i].0 == k implies insert_all(
                m,
                ps,
            )[k] == value_of(ps[i].1) by {
                if i == 0 {
                    assert(ps[0].0 != ps[i0 + 1].0);
                } else {
                    assert(tail[i - 1] == ps[i]);
                }
            }
        } else {
            assert forall|i: int| 1 <= i < ps.len() implies #[trigger] ps[i].0 != k by {
                assert(tail[i - 1] == ps[i]);
            }
        }
    }
}

/// Law: a snapshot of distinct keys, each with a text that reads back as the
/// key's value in `map`, and of no other keys, restores exactly `map` from an
/// empty store.
pub proof fn law_snapshot_restores(map: Entries, ps: Seq<(Seq<char>, Seq<char>)>)
    requires
        texts_fit(ps),
        forall|i: int, j: int| 0 <= i < j < ps.len() ==> #[trigger] ps[i].0 != #[trigger] ps[j].0,
        forall|k: Seq<char>|
            #[trigger] map.contains_key(k) <==> exists|i: int| 0 <= i < ps.len() && ps[i].0 == k,
        forall|i: int| 0 <= i < ps.len() ==> map.contains_key(#[trigger] ps[i].0) && value_of(
            ps[i].1,
        ) == map[ps[i].0],
    ensures
        replay(no_entries(), snapshot_of(ps)) == map,
{
    law_replay_snapshot(no_entries(), ps, seq![]);
    assert(snapshot_of(ps) + seq![] =~= snapshot_of(ps));
    let r = insert_all(no_entries(), ps);
    assert forall|k: Seq<char>| #[trigger] r.contains_key(k) == map.contains_key(k) && (
    map.contains_key(k) ==> r[k] == map[k]) by {
        lemma_insert_all(no_entries(), ps, k);
        if exists|i: int| 0 <= i < ps.len() && ps[i].0 == k {
            let i0 = choose|i: int| 0 <= i < ps.len() && ps[i].0 == k;
            assert(ps[i0].0 == k);
        }
    }
    assert(r =~= map);
    assert(replay(r, seq![]) == r);
}


/// The log is whole records and nothing else: replay reads it to its end.
pub open spec fn whole_records(data: Seq<u8>) -> bool
    decreases data.len(),
{
    if data.len() == 0 {
        true
    } else if data.len() < 9 {
        false
    } else {
        match parse_hex_u32(data.subrange(0, 8)) {
            None => false,
            Some(expected) => match parse_frame(data.skip(9), 0) {
                Outcome::Done(f, n) => {
                    proof {
                        lemma_parse_frame_bounds(data.skip(9), 0);
                    }
                    crc32(data.subrange(9, 9 + n)) == expected && whole_records(data.skip(9 + n))
                },
                _ => false,
            },
        }
    }
}

/// One whole record, however its frame is written: a header of eight hex
/// digits and one byte, then a RESP frame that takes up the rest and whose
/// CRC32 is the header's.
pub open spec fn valid_record(r: Seq<u8>) -> bool {
    &&& r.len() >= 9
    &&& parse_hex_u32(r.subrange(0, 8)) is Some
    &&& crc32(r.skip(9)) == parse_hex_u32(r.subrange(0, 8))->0
    &&& parse_frame(r.skip(9), 0) matches Outcome::Done(_, n) && n == r.len() - 9
}

proof fn lemma_replay_concat(m: Entries, w: Seq<u8>, t: Seq<u8>)
    requires
        whole_records(w),
    ensures
        replay(m, w + t) == replay(replay(m, w), t),
    decreases w.len(),
{
    if w.len() == 0 {
        assert(w + t =~= t);
    } else {
        let u = w + t;
        assert(u.subrange(0, 8) =~= w.subrange(0, 8));
        assert(u.skip(9) =~= w.skip(9) + t);
        lemma_parse_extend(w.skip(9), t, 0);
        lemma_parse_frame_bounds(w.skip(9), 0);
        if let Outcome::Done(f, n) = parse_frame(w.skip(9), 0) {
            assert(u.subrange(9, 9 + n) =~= w.subrange(9, 9 + n));
            assert(u.skip(9 + n) =~= w.skip(9 + n) + t);
            lemma_replay_concat(apply(m, f), w.skip(9 + n), t);
        }
    }
}

proof fn lemma_whole_concat(a: Seq<u8>, b: Seq<u8>)
    requires
        whole_records(a),
        whole_records(b),
    ensures
        whole_records(a + b),
    decreases a.len(),
{
    if a.len() == 0 {
        assert(a + b =~= b);
    } else {
        let u = a + b;
        assert(u.subrange(0, 8) =~= a.subrange(0, 8));
        assert(u.skip(9) =~= a.skip(9) + b);
        lemma_parse_extend(a.skip(9), b, 0);
        lemma_parse_frame_bounds(a.skip(9), 0);
        if let Outcome::Done(f, n) = parse_frame(a.skip(9), 0) {
            assert(u.subrange(9, 9 + n) =~= a.subrange(9, 9 + n));
            assert(u.skip(9 + n) =~= a.skip(9 + n) + b);
            lemma_whole_concat(a.skip(9 + n), b);
        }
    }
}

proof fn lemma_record_whole(f: FrameView)
    requires
        frame_wf(f),
    ensures
        whole_records(record_of(encode(f))),
{
    let e = encode(f);
    let data = record_of(e);
    let c = crc32(e);
    law_header_roundtrip(c);
    assert(data.subrange(0, 8) =~= header_of(c).subrange(0, 8));
    assert(data.skip(9) =~= e + Seq::<u8>::empty());
    law_encode_then_parse(f, Seq::<u8>::empty());
    assert(parse_frame(data.skip(9), 0) == Outcome::Done(f, e.len() as int));
    assert(data.subrange(9, 9 + e.len() as int) =~= e);
    assert(data.skip(9 + e.len() as int) =~= Seq::<u8>::empty());
    assert(whole_records(Seq::<u8>::empty()));
    assert(data.len() >= 9);
    assert(parse_hex_u32(data.subrange(0, 8)) == Some(c));
}

/// A record cut short replays as nothing, however its frame is written.
proof fn lemma_torn_alone(x: Entries, r: Seq<u8>, k: int)
    requires
        valid_record(r),
        0 <= k < r.len(),
    ensures
        replay(x, r.take(k)) == x,
{
    let s = r.take(k);
    if k >= 9 {
        let body = r.skip(9);
        let head = body.take(k - 9);
        assert(s.skip(9) =~= head);
        if parse_frame(head, 0) is Done {
            lemma_parse_extend(head, body.skip(k - 9), 0);
            assert(head + body.skip(k - 9) =~= body);
            lemma_parse_frame_bounds(head, 0);
            assert(false);
        }
    }
}

/// Law: a log of whole records followed by one record that a crash cut short
/// replays as the whole records alone: the torn tail is skipped, however the
/// frames of the records are written.
pub proof fn law_torn_tail(m: Entries, w: Seq<u8>, r: Seq<u8>, k: int)
    requires
        whole_records(w),
        valid_record(r),
        0 <= k < r.len(),
    ensures
        replay(m, w + r.take(k)) == replay(m, w),
{
    lemma_replay_concat(m, w, r.take(k));
    lemma_torn_alone(replay(m, w), r, k);
}

/// Law: appending the record of a well-formed frame to a log of whole records
/// keeps it whole, and the longer log replays as the frame applied to what
/// the shorter one replays to.
pub proof fn law_append_record(m: Entries, w: Seq<u8>, f: FrameView)
    requires
        whole_records(w),
        frame_wf(f),
    ensures
        whole_records(w + record_of(encode(f))),
        replay(m, w + record_of(encode(f))) == apply(replay(m, w), f),
{
    let rec = record_of(encode(f));
    lemma_replay_concat(m, w, rec);
    law_replay_record(replay(m, w), f, Seq::<u8>::empty());
    assert(rec + Seq::<u8>::empty() =~= rec);
    lemma_record_whole(f);
    lemma_whole_concat(w, rec);
}


/// The key and text pairs, read as texts.
pub open spec fn texts_view(ps: Seq<(String, String)>) -> Seq<(Seq<char>, Seq<char>)> {
    ps.map_values(|p: (String, String)| (p.0@, p.1@))
}

proof fn lemma_snapshot_of_push(ps: Seq<(Seq<char>, Seq<char>)>, x: (Seq<char>, Seq<char>))
    ensures
        snapshot_of(ps.push(x)) == snapshot_of(ps) + record_of(encode(set_frame(x.0, x.1))),
    decreases ps.len(),
{
    let rec = record_of(encode(set_frame(x.0, x.1)));
    if ps.len() == 0 {
        assert(ps.push(x).skip(1) =~= Seq::<(Seq<char>, Seq<char>)>::empty());
        assert(ps.push(x)[0] == x);
        assert(snapshot_of(Seq::<(Seq<char>, Seq<char>)>::empty()) == Seq::<u8>::empty());
        assert(snapshot_of(ps) == Seq::<u8>::empty());
        assert(snapshot_of(ps.push(x)) =~= rec + Seq::<u8>::empty());
        assert(snapshot_of(ps) + rec =~= rec);
    } else {
        lemma_snapshot_of_push(ps.skip(1), x);
        assert(ps.push(x).skip(1) =~= ps.skip(1).push(x));
        assert(ps.push(x)[0] == ps[0]);
        let head = record_of(encode(set_frame(ps[0].0, ps[0].1)));
        assert(snapshot_of(ps.push(x)) =~= head + (snapshot_of(ps.skip(1)) + rec));
    }
}

/// The bytes of a snapshot file: the snapshot record of each key and value
/// text, in order.
pub fn snapshot_contents(ps: &Vec<(String, String)>) -> (r: Vec<u8>)
    ensures
        r@ == snapshot_of(texts_view(ps@)),
{
    let mut out: Vec<u8> = Vec::new();
    let mut i: usize = 0;
    while i < ps.len()
        invariant
            i <= ps@.len(),
            out@ == snapshot_of(texts_view(ps@.take(i as int))),
        decreases ps@.len() - i,
    {
        let record = snapshot_record(ps[i].0.as_str(), ps[i].1.as_str());
        proof {
            let x = (ps@[i as int].0@, ps@[i as int].1@);
            lemma_snapshot_of_push(texts_view(ps@.take(i as int)), x);
            assert(texts_view(ps@.take(i + 1)) =~= texts_view(ps@.take(i as int)).push(x));
        }
        append_bytes(&mut out, record.as_slice());
        i = i + 1;
    }
    assert(ps@.take(ps@.len() as int) =~= ps@);
    out
}

} // verus!
