//! What the RESP encoder and reader promise of each other.
use vstd::prelude::*;
use vstd::utf8::{valid_utf8, decode_utf8, encode_utf8, encode_utf8_valid_utf8,
    encode_utf8_decode_utf8, decode_utf8_encode_utf8, pop_first_scalar, codepoint_width_1};
use crate::decimal::{decimal, law_decimal_roundtrip, nat_digits,
    lemma_nat_digits, is_digit, digits_value, unsigned_part, all_digits};
use crate::resp::{FrameView, Outcome, encode, encode_all, crlf, find_crlf, line_at, parse_frame,
    parse_items, parse_array, parse_bulk, parse_integer, length_line,
    lemma_find_crlf_bounds};

verus! {

/// No `\r\n` pair occurs in `b`.
pub open spec fn no_crlf(b: Seq<u8>) -> bool {
    forall|k: int| 0 <= k && k + 1 < b.len() && #[trigger] b[k] == 13u8 ==> b[k + 1] != 10u8
}

/// A frame whose encoding reads back as itself: its texts hold no `\r\n`,
/// and its integers and lengths fit in an `i64`.
pub open spec fn frame_wf(f: FrameView) -> bool
    decreases f,
{
    match f {
        FrameView::Simple(t) => no_crlf(encode_utf8(t)),
        FrameView::Error(t) => no_crlf(encode_utf8(t)),
        FrameView::Integer(i) => i64::MIN <= i <= i64::MAX,
        FrameView::Bulk(b) => match b {
            Some(d) => d.len() <= i64::MAX,
            None => true,
        },
        FrameView::Array(a) => match a {
            Some(items) => items.len() <= i64::MAX && frames_wf(items),
            None => true,
        },
        FrameView::Null => true,
    }
}

/// Every frame of the sequence is well formed.
pub open spec fn frames_wf(fs: Seq<FrameView>) -> bool
    decreases fs,
{
    if fs.len() == 0 {
        true
    } else {
        frames_wf(fs.drop_last()) && frame_wf(fs.last())
    }
}

/// `e` stands in `s` from position `p`.
pub open spec fn occurs_at(s: Seq<u8>, p: int, e: Seq<u8>) -> bool {
    0 <= p && p + e.len() <= s.len() && s.subrange(p, p + e.len()) == e
}

proof fn lemma_occurs_split(s: Seq<u8>, p: int, a: Seq<u8>, b: Seq<u8>)
    requires
        occurs_at(s, p, a + b),
    ensures
        occurs_at(s, p, a),
        occurs_at(s, p + a.len(), b),
{
    let whole = s.subrange(p, p + (a + b).len());
    assert(whole == a + b);
    assert(s.subrange(p, p + a.len()) =~= whole.subrange(0, a.len() as int));
    assert(whole.subrange(0, a.len() as int) =~= a);
    assert(s.subrange(p + a.len(), p + a.len() + b.len()) =~= whole.subrange(
        a.len() as int,
        whole.len() as int,
    ));
    assert(whole.subrange(a.len() as int, whole.len() as int) =~= b);
}

proof fn lemma_find_crlf_at(s: Seq<u8>, i: int, j: int)
    requires
        0 <= i <= j,
        j + 1 < s.len(),
        s[j] == 13u8,
        s[j + 1] == 10u8,
        forall|k: int| i <= k < j ==> !(#[trigger] s[k] == 13u8 && s[k + 1] == 10u8),
    ensures
        find_crlf(s, i) == Some(j),
    decreases j - i,
{
    if i < j {
        lemma_find_crlf_at(s, i + 1, j);
    }
}

proof fn lemma_find_crlf_first(s: Seq<u8>, i: int)
    ensures
        find_crlf(s, i) matches Some(j) ==> forall|k: int|
            i <= k < j ==> !(#[trigger] s[k] == 13u8 && s[k + 1] == 10u8),
    decreases s.len() - i,
{
    if !(i < 0 || i + 1 >= s.len()) && !(s[i] == 13u8 && s[i + 1] == 10u8) {
        lemma_find_crlf_first(s, i + 1);
    }
}

/// The line `tag`, `body`, `\r\n` is read as `body`.
proof fn lemma_line(s: Seq<u8>, p: int, tag: u8, body: Seq<u8>)
    requires
        occurs_at(s, p, seq![tag] + body + crlf()),
        tag != 13u8,
        no_crlf(body),
    ensures
        line_at(s, p) == Some((body, p + body.len() + 3)),
{
    let e = seq![tag] + body + crlf();
    let j = p + 1 + body.len();
    assert forall|k: int| 0 <= k < e.len() implies s[p + k] == #[trigger] e[k] by {
        assert(s[p + k] == s.subrange(p, p + e.len())[k]);
    }
    assert(s[p] == e[0]);
    assert(s[j] == e[j - p]);
    assert(s[j + 1] == e[j + 1 - p]);
    assert forall|k: int| p <= k < j implies !(#[trigger] s[k] == 13u8 && s[k + 1] == 10u8) by {
        assert(s[k] == e[k - p]);
        assert(s[k + 1] == e[k + 1 - p]);
        if k > p && k + 1 < j {
            assert(body[k - p - 1] == e[k - p]);
            assert(body[k - p] == e[k + 1 - p]);
        }
    }
    lemma_find_crlf_at(s, p, j);
    assert(s.subrange(p + 1, j) =~= body) by {
        assert forall|k: int| 0 <= k < body.len() implies s.subrange(p + 1, j)[k] == body[k] by {
            assert(s[p + 1 + k] == e[1 + k]);
        }
    }
}

proof fn lemma_ascii_valid_utf8(b: Seq<u8>)
    requires
        forall|k: int| 0 <= k < b.len() ==> #[trigger] b[k] < 128u8,
    ensures
        valid_utf8(b),
    decreases b.len(),
{
    if b.len() > 0 {
        let c = b[0];
        assert(codepoint_width_1(c) == c as u32) by (bit_vector)
            requires
                c < 128u8,
        ;
        assert(pop_first_scalar(b) =~= b.drop_first());
        lemma_ascii_valid_utf8(b.drop_first());
    }
}

proof fn lemma_decimal_text(i: int)
    ensures
        no_crlf(decimal(i)),
        valid_utf8(decimal(i)),
        decimal(i).len() > 0,
        decimal(i)[0] != 13u8,
{
    let m: nat = if i < 0 { (-i) as nat } else { i as nat };
    lemma_nat_digits(m);
    let d = decimal(i);
    assert forall|k: int| 0 <= k < d.len() implies #[trigger] d[k] < 128u8 && d[k] != 13u8 by {
        if i < 0 {
            if k > 0 {
                assert(d[k] == nat_digits(m)[k - 1]);
                assert(is_digit(nat_digits(m)[k - 1]));
            }
        } else {
            assert(is_digit(nat_digits(m)[k]));
        }
    }
    lemma_ascii_valid_utf8(d);
}

proof fn lemma_minus_one()
    ensures
        length_line(seq![45u8, 49u8]) == Ok::<i64, crate::resp::RespError>(-1i64),
{
    let b = seq![45u8, 49u8];
    lemma_ascii_valid_utf8(b);
    let body = unsigned_part(b);
    assert(body =~= seq![49u8]);
    assert(body.drop_last() =~= Seq::<u8>::empty());
    assert(digits_value(Seq::<u8>::empty()) == 0);
    assert(digits_value(body) == 1);
    assert(all_digits(body));
}

proof fn lemma_length_line(n: int)
    requires
        0 <= n <= i64::MAX,
    ensures
        length_line(decimal(n)) == Ok::<i64, crate::resp::RespError>(n as i64),
{
    lemma_decimal_text(n);
    law_decimal_roundtrip(n as i64);
}

/// Reading at `p` a buffer that holds the encoding of a well-formed frame there
/// gives that frame and the position just past its encoding.
pub proof fn lemma_parse_encoded(f: FrameView, s: Seq<u8>, p: int)
    requires
        frame_wf(f),
        occurs_at(s, p, encode(f)),
    ensures
        parse_frame(s, p) == Outcome::Done(f, p + encode(f).len()),
    decreases f,
{
    let e = encode(f);
    assert(s[p] == e[0]) by {
        assert(s[p] == s.subrange(p, p + e.len())[0]);
    }
    match f {
        FrameView::Simple(t) => {
            let u = encode_utf8(t);
            lemma_line(s, p, 43u8, u);
            encode_utf8_valid_utf8(t);
            encode_utf8_decode_utf8(t);
        },
        FrameView::Error(t) => {
            let u = encode_utf8(t);
            lemma_line(s, p, 45u8, u);
            encode_utf8_valid_utf8(t);
            encode_utf8_decode_utf8(t);
        },
        FrameView::Integer(i) => {
            lemma_decimal_text(i);
            lemma_line(s, p, 58u8, decimal(i));
            law_decimal_roundtrip(i as i64);
        },
        FrameView::Bulk(b) => match b {
            Some(d) => {
                let dec = decimal(d.len() as int);
                lemma_decimal_text(d.len() as int);
                assert(e =~= (seq![36u8] + dec + crlf()) + (d + crlf()));
                lemma_occurs_split(s, p, seq![36u8] + dec + crlf(), d + crlf());
                lemma_occurs_split(s, p + dec.len() + 3, d, crlf());
                lemma_line(s, p, 36u8, dec);
                lemma_length_line(d.len() as int);
                let q = p + dec.len() + 3;
                assert(s.subrange(q, q + d.len()) =~= d);
                assert(s[q + d.len()] == s.subrange(q + d.len(), q + d.len() + 2)[0]);
                assert(s[q + d.len() + 1] == s.subrange(q + d.len(), q + d.len() + 2)[1]);
                assert(parse_bulk(s, p) == Outcome::Done(f, p + e.len()));
            },
            None => {
                assert(e =~= seq![36u8] + seq![45u8, 49u8] + crlf());
                lemma_line(s, p, 36u8, seq![45u8, 49u8]);
                lemma_minus_one();
                assert(parse_bulk(s, p) == Outcome::Done(f, p + e.len()));
            },
        },
        FrameView::Array(a) => match a {
            Some(items) => {
                let dec = decimal(items.len() as int);
                lemma_decimal_text(items.len() as int);
                lemma_occurs_split(s, p, seq![42u8] + dec + crlf(), encode_all(items));
                lemma_line(s, p, 42u8, dec);
                lemma_length_line(items.len() as int);
                let q = p + dec.len() + 3;
                lemma_parse_encoded_all(items, s, q);
                assert(parse_array(s, p) == Outcome::Done(f, p + e.len()));
            },
            None => {
                assert(e =~= seq![42u8] + seq![45u8, 49u8] + crlf());
                lemma_line(s, p, 42u8, seq![45u8, 49u8]);
                lemma_minus_one();
                assert(parse_array(s, p) == Outcome::Done(f, p + e.len()));
            },
        },
        FrameView::Null => {
            assert(s[p + 1] == s.subrange(p, p + e.len())[1]);
            assert(s[p + 2] == s.subrange(p, p + e.len())[2]);
        },
    }
}

/// Reading `fs.len()` frames where their encodings stand one after the other
/// gives back the frames.
pub proof fn lemma_parse_encoded_all(fs: Seq<FrameView>, s: Seq<u8>, p: int)
    requires
        frames_wf(fs),
        occurs_at(s, p, encode_all(fs)),
    ensures
        parse_items(s, p, fs.len() as int) == Outcome::Done(fs, p + encode_all(fs).len()),
    decreases fs,
{
    if fs.len() == 0 {
        assert(fs =~= Seq::<FrameView>::empty());
    } else {
        let init = fs.drop_last();
        let last = fs.last();
        lemma_occurs_split(s, p, encode_all(init), encode(last));
        lemma_parse_encoded_all(init, s, p);
        let q = p + encode_all(init).len();
        lemma_parse_encoded(last, s, q);
        assert(init.push(last) =~= fs);
    }
}

/// Law: the encoding of a well-formed frame, whatever bytes follow it, reads
/// back as the same frame, and exactly its own bytes are taken.
pub proof fn law_encode_then_parse(f: FrameView, rest: Seq<u8>)
    requires
        frame_wf(f),
    ensures
        parse_frame(encode(f) + rest, 0) == Outcome::Done(f, encode(f).len() as int),
{
    let s = encode(f) + rest;
    assert(s.subrange(0, encode(f).len() as int) =~= encode(f));
    lemma_parse_encoded(f, s, 0);
}


proof fn lemma_line_text_wf(s: Seq<u8>, p: int)
    requires
        0 <= p < s.len(),
        s[p] != 13u8,
        line_at(s, p) matches Some((b, _)) && valid_utf8(b),
    ensures
        line_at(s, p) matches Some((b, _)) && no_crlf(encode_utf8(decode_utf8(b))),
{
    lemma_find_crlf_bounds(s, p);
    lemma_find_crlf_first(s, p);
    let j = find_crlf(s, p)->0;
    assert(j != p);
    let b = s.subrange(p + 1, j);
    decode_utf8_encode_utf8(b);
    assert forall|k: int| 0 <= k && k + 1 < b.len() && #[trigger] b[k] == 13u8 implies b[k + 1]
        != 10u8 by {
        assert(b[k] == s[p + 1 + k]);
        assert(b[k + 1] == s[p + 1 + k + 1]);
    }
}

/// Every frame that is read from a buffer is well formed.
pub proof fn lemma_parsed_wf(s: Seq<u8>, p: int)
    ensures
        parse_frame(s, p) matches Outcome::Done(f, _) ==> frame_wf(f),
    decreases s.len() - p, 1int, 0int,
{
    if 0 <= p < s.len() {
        let tag = s[p];
        if tag == 43u8 || tag == 45u8 {
            if let Some((b, q)) = line_at(s, p) {
                if valid_utf8(b) {
                    lemma_line_text_wf(s, p);
                }
            }
        } else if tag == 42u8 {
            lemma_parsed_array_wf(s, p);
        } else if tag == 36u8 {
            lemma_find_crlf_bounds(s, p);
            if let Outcome::Done(f, _) = parse_bulk(s, p) {
                if let Some((b, q)) = line_at(s, p) {
                    if let Ok(n) = length_line(b) {
                        if n >= 0 {
                            assert(s.subrange(q, q + n).len() == n);
                        }
                    }
                }
                assert(frame_wf(f));
            }
        } else if tag == 58u8 {
            assert(parse_integer(s, p) matches Outcome::Done(f, _) ==> frame_wf(f));
        }
    }
}

proof fn lemma_parsed_array_wf(s: Seq<u8>, p: int)
    ensures
        parse_array(s, p) matches Outcome::Done(f, _) ==> frame_wf(f),
    decreases s.len() - p, 0int, 0int,
{
    lemma_find_crlf_bounds(s, p);
    if 0 <= p < s.len() && s[p] == 42u8 {
        if let Some((b, q)) = line_at(s, p) {
            if let Ok(n) = length_line(b) {
                if n >= 0 {
                    lemma_parsed_items_wf(s, q, n as int);
                }
            }
        }
    }
}

proof fn lemma_parsed_items_wf(s: Seq<u8>, p: int, k: int)
    requires
        k >= 0,
    ensures
        parse_items(s, p, k) matches Outcome::Done(fs, _) ==> fs.len() == k && frames_wf(fs),
    decreases s.len() - p, 2int, k,
{
    if k > 0 {
        lemma_parsed_items_wf(s, p, k - 1);
        if let Outcome::Done(fs, q) = parse_items(s, p, k - 1) {
            if p <= q <= s.len() {
                lemma_parsed_wf(s, q);
                if let Outcome::Done(f, r) = parse_frame(s, q) {
                    assert(fs.push(f).drop_last() =~= fs);
                }
            }
        }
    } else {
        assert(parse_items(s, p, k) == Outcome::Done(Seq::<FrameView>::empty(), p));
    }
}


/// The bytes of `s` from `p` on are a proper prefix of `e`: `e` has begun
/// at `p` but the buffer ends before it does.
pub open spec fn cut_short_at(s: Seq<u8>, p: int, e: Seq<u8>) -> bool {
    0 <= p <= s.len() && s.len() - p < e.len() && s.subrange(p, s.len() as int) == e.take(
        s.len() - p,
    )
}

proof fn lemma_find_crlf_none(s: Seq<u8>, i: int)
    requires
        0 <= i,
        forall|k: int| i <= k && k + 1 < s.len() ==> !(#[trigger] s[k] == 13u8 && s[k + 1] == 10u8),
    ensures
        find_crlf(s, i) is None,
    decreases s.len() - i,
{
    if i + 1 < s.len() {
        lemma_find_crlf_none(s, i + 1);
    }
}

/// A line `tag`, `body`, `\r\n` that the buffer cuts short is not read.
proof fn lemma_line_cut(s: Seq<u8>, p: int, tag: u8, body: Seq<u8>)
    requires
        cut_short_at(s, p, seq![tag] + body + crlf()),
        tag != 13u8,
        no_crlf(body),
    ensures
        line_at(s, p) is None,
{
    let e = seq![tag] + body + crlf();
    let l = s.len() - p;
    assert forall|k: int| 0 <= k < l implies s[p + k] == #[trigger] e[k] by {
        assert(s[p + k] == s.subrange(p, s.len() as int)[k]);
        assert(e.take(l)[k] == e[k]);
    }
    assert forall|k: int| p <= k && k + 1 < s.len() implies !(#[trigger] s[k] == 13u8 && s[k + 1]
        == 10u8) by {
        assert(s[k] == e[k - p]);
        assert(s[k + 1] == e[k + 1 - p]);
        if k > p && k + 1 - p <= body.len() {
            assert(body[k - p - 1] == e[k - p]);
            assert(body[k - p] == e[k + 1 - p]);
        }
    }
    lemma_find_crlf_none(s, p);
}

proof fn lemma_cut_to_occurs(s: Seq<u8>, p: int, e: Seq<u8>, m: int)
    requires
        cut_short_at(s, p, e),
        0 <= m <= s.len() - p,
    ensures
        occurs_at(s, p, e.take(m)),
{
    assert(s.subrange(p, p + m) =~= s.subrange(p, s.len() as int).take(m));
    assert(e.take(s.len() - p).take(m) =~= e.take(m));
}

proof fn lemma_cut_split(s: Seq<u8>, p: int, a: Seq<u8>, b: Seq<u8>)
    requires
        cut_short_at(s, p, a + b),
        s.len() - p >= a.len(),
    ensures
        occurs_at(s, p, a),
        cut_short_at(s, p + a.len(), b),
{
    let l = s.len() - p;
    lemma_cut_to_occurs(s, p, a + b, a.len() as int);
    assert((a + b).take(a.len() as int) =~= a);
    assert(s.subrange(p + a.len(), s.len() as int) =~= s.subrange(p, s.len() as int).subrange(
        a.len() as int,
        l,
    ));
    assert((a + b).take(l).subrange(a.len() as int, l) =~= b.take(l - a.len()));
}

proof fn lemma_line_cut_or_read(s: Seq<u8>, p: int, tag: u8, body: Seq<u8>, rest: Seq<u8>)
    requires
        cut_short_at(s, p, seq![tag] + body + crlf() + rest),
        tag != 13u8,
        no_crlf(body),
    ensures
        s.len() - p < body.len() + 3 ==> line_at(s, p) is None,
        s.len() - p >= body.len() + 3 ==> line_at(s, p) == Some((body, p + body.len() + 3))
            && cut_short_at(s, p + body.len() + 3, rest),
{
    let line = seq![tag] + body + crlf();
    if s.len() - p < body.len() + 3 {
        let l = s.len() - p;
        assert(s.subrange(p, s.len() as int) =~= line.take(l)) by {
            assert((line + rest).take(l) =~= line.take(l));
        }
        lemma_line_cut(s, p, tag, body);
    } else {
        lemma_cut_split(s, p, line, rest);
        lemma_line(s, p, tag, body);
    }
}

/// Reading at `p` a buffer that ends partway through the encoding of a
/// well-formed frame finds the frame incomplete.
pub proof fn lemma_parse_cut(f: FrameView, s: Seq<u8>, p: int)
    requires
        frame_wf(f),
        cut_short_at(s, p, encode(f)),
    ensures
        parse_frame(s, p) == Outcome::<FrameView>::Incomplete,
    decreases f,
{
    let e = encode(f);
    if p == s.len() {
        return;
    }
    assert(s[p] == e[0]) by {
        assert(s[p] == s.subrange(p, s.len() as int)[0]);
    }
    let empty = Seq::<u8>::empty();
    match f {
        FrameView::Simple(t) => {
            assert(e =~= seq![43u8] + encode_utf8(t) + crlf() + empty);
            lemma_line_cut_or_read(s, p, 43u8, encode_utf8(t), empty);
        },
        FrameView::Error(t) => {
            assert(e =~= seq![45u8] + encode_utf8(t) + crlf() + empty);
            lemma_line_cut_or_read(s, p, 45u8, encode_utf8(t), empty);
        },
        FrameView::Integer(i) => {
            lemma_decimal_text(i);
            assert(e =~= seq![58u8] + decimal(i) + crlf() + empty);
            lemma_line_cut_or_read(s, p, 58u8, decimal(i), empty);
        },
        FrameView::Bulk(b) => match b {
            Some(d) => {
                let dec = decimal(d.len() as int);
                lemma_decimal_text(d.len() as int);
                assert(e =~= seq![36u8] + dec + crlf() + (d + crlf()));
                lemma_line_cut_or_read(s, p, 36u8, dec, d + crlf());
                if s.len() - p >= dec.len() + 3 {
                    lemma_length_line(d.len() as int);
                }
                assert(parse_bulk(s, p) == Outcome::<FrameView>::Incomplete);
            },
            None => {
                assert(e =~= seq![36u8] + seq![45u8, 49u8] + crlf() + empty);
                lemma_line_cut_or_read(s, p, 36u8, seq![45u8, 49u8], empty);
                assert(parse_bulk(s, p) == Outcome::<FrameView>::Incomplete);
            },
        },
        FrameView::Array(a) => match a {
            Some(items) => {
                let dec = decimal(items.len() as int);
                lemma_decimal_text(items.len() as int);
                assert(e =~= seq![42u8] + dec + crlf() + encode_all(items));
                lemma_line_cut_or_read(s, p, 42u8, dec, encode_all(items));
                if s.len() - p >= dec.len() + 3 {
                    lemma_length_line(items.len() as int);
                    lemma_parse_cut_all(items, s, p + dec.len() + 3);
                }
                assert(parse_array(s, p) == Outcome::<FrameView>::Incomplete);
            },
            None => {
                assert(e =~= seq![42u8] + seq![45u8, 49u8] + crlf() + empty);
                lemma_line_cut_or_read(s, p, 42u8, seq![45u8, 49u8], empty);
                assert(parse_array(s, p) == Outcome::<FrameView>::Incomplete);
            },
        },
        FrameView::Null => {},
    }
}

/// Reading `fs.len()` frames from a buffer that ends partway through their
/// encodings finds them incomplete.
pub proof fn lemma_parse_cut_all(fs: Seq<FrameView>, s: Seq<u8>, p: int)
    requires
        frames_wf(fs),
        cut_short_at(s, p, encode_all(fs)),
    ensures
        parse_items(s, p, fs.len() as int) == Outcome::<Seq<FrameView>>::Incomplete,
    decreases fs,
{
    if fs.len() > 0 {
        let init = fs.drop_last();
        let last = fs.last();
        let a = encode_all(init);
        if s.len() - p < a.len() {
            let l = s.len() - p;
            assert(s.subrange(p, s.len() as int) =~= a.take(l)) by {
                assert((a + encode(last)).take(l) =~= a.take(l));
            }
            lemma_parse_cut_all(init, s, p);
            lemma_items_stuck_cut(s, p, init.len() as int);
        } else {
            lemma_cut_split(s, p, a, encode(last));
            lemma_parse_encoded_all(init, s, p);
            lemma_parse_cut(last, s, p + a.len());
        }
    }
}

proof fn lemma_items_stuck_cut(s: Seq<u8>, p: int, m: int)
    requires
        m >= 0,
        parse_items(s, p, m) == Outcome::<Seq<FrameView>>::Incomplete,
    ensures
        parse_items(s, p, m + 1) == Outcome::<Seq<FrameView>>::Incomplete,
{
}

/// Law: a buffer that holds only the start of a well-formed frame's encoding
/// reads as incomplete, so reading resumes correctly once more bytes arrive.
pub proof fn law_cut_short_is_incomplete(f: FrameView, k: int)
    requires
        frame_wf(f),
        0 <= k < encode(f).len(),
    ensures
        parse_frame(encode(f).take(k), 0) == Outcome::<FrameView>::Incomplete,
{
    let s = encode(f).take(k);
    assert(s.subrange(0, s.len() as int) =~= encode(f).take(k));
    lemma_parse_cut(f, s, 0);
}


/// The frames read one after another from the front of a buffer until no
/// whole frame stands there, and the bytes left over: what a reader that
/// calls `Frame::parser` until it gives no frame takes from its buffer.
pub open spec fn drain(s: Seq<u8>) -> (Seq<FrameView>, Seq<u8>)
    decreases s.len(),
{
    match parse_frame(s, 0) {
        Outcome::Done(f, n) => {
            proof {
                crate::resp::lemma_parse_frame_bounds(s, 0);
            }
            let rest = drain(s.skip(n));
            (seq![f] + rest.0, rest.1)
        },
        _ => (seq![], s),
    }
}

/// The encodings of the frames, in order.
pub open spec fn encodes(fs: Seq<FrameView>) -> Seq<u8>
    decreases fs.len(),
{
    if fs.len() == 0 {
        seq![]
    } else {
        encode(fs[0]) + encodes(fs.skip(1))
    }
}

proof fn lemma_drain_whole(fs: Seq<FrameView>)
    requires
        forall|i: int| 0 <= i < fs.len() ==> frame_wf(#[trigger] fs[i]),
    ensures
        drain(encodes(fs)) == (fs, Seq::<u8>::empty()),
    decreases fs.len(),
{
    if fs.len() == 0 {
        assert(parse_frame(encodes(fs), 0) == Outcome::<FrameView>::Incomplete);
        assert(fs =~= Seq::<FrameView>::empty());
    } else {
        let tail = fs.skip(1);
        assert forall|i: int| 0 <= i < tail.len() implies frame_wf(#[trigger] tail[i]) by {
            assert(tail[i] == fs[i + 1]);
        }
        lemma_drain_whole(tail);
        let e0 = encode(fs[0]);
        law_encode_then_parse(fs[0], encodes(tail));
        assert(encodes(fs).skip(e0.len() as int) =~= encodes(tail));
        assert(seq![fs[0]] + tail =~= fs);
    }
}

/// Law: a stream of well-formed frames read in two pieces gives the same
/// frames, in the same order, as read in one piece: the first piece gives
/// some frames and leaves the start of the next one in the buffer, and that
/// start with the second piece gives the rest and leaves nothing.
pub proof fn law_stream_in_pieces(fs: Seq<FrameView>, k: int)
    requires
        forall|i: int| 0 <= i < fs.len() ==> frame_wf(#[trigger] fs[i]),
        0 <= k <= encodes(fs).len(),
    ensures
        ({
            let first = drain(encodes(fs).take(k));
            let second = drain(first.1 + encodes(fs).skip(k));
            &&& first.0 + second.0 == fs
            &&& second.1 == Seq::<u8>::empty()
        }),
    decreases fs.len(),
{
    let b = encodes(fs);
    if fs.len() == 0 {
        assert(b.take(k) =~= Seq::<u8>::empty());
        assert(parse_frame(b.take(k), 0) == Outcome::<FrameView>::Incomplete);
        assert(b.skip(k) =~= Seq::<u8>::empty());
        assert(Seq::<u8>::empty() + Seq::<u8>::empty() =~= Seq::<u8>::empty());
        assert(Seq::<FrameView>::empty() + Seq::<FrameView>::empty() =~= fs);
    } else {
        let tail = fs.skip(1);
        assert forall|i: int| 0 <= i < tail.len() implies frame_wf(#[trigger] tail[i]) by {
            assert(tail[i] == fs[i + 1]);
        }
        let e0 = encode(fs[0]);
        let bt = encodes(tail);
        assert(b == e0 + bt);
        if k < e0.len() {
            assert(b.take(k) =~= e0.take(k));
            law_cut_short_is_incomplete(fs[0], k);
            assert(b.take(k) + b.skip(k) =~= b);
            lemma_drain_whole(fs);
            assert(Seq::<FrameView>::empty() + fs =~= fs);
        } else {
            let k2 = k - e0.len();
            law_stream_in_pieces(tail, k2);
            law_encode_then_parse(fs[0], bt.take(k2));
            assert(b.take(k) =~= e0 + bt.take(k2));
            assert((e0 + bt.take(k2)).skip(e0.len() as int) =~= bt.take(k2));
            assert(b.skip(k) =~= bt.skip(k2));
            let inner = drain(bt.take(k2));
            let second = drain(inner.1 + bt.skip(k2));
            assert(inner.0 + second.0 == tail);
            assert((seq![fs[0]] + inner.0) + second.0 =~= seq![fs[0]] + tail);
            assert(seq![fs[0]] + tail =~= fs);
        }
    }
}


proof fn lemma_find_crlf_extend(s: Seq<u8>, t: Seq<u8>, i: int)
    requires
        find_crlf(s, i) is Some,
    ensures
        find_crlf(s + t, i) == find_crlf(s, i),
    decreases s.len() - i,
{
    let u = s + t;
    if !(i < 0 || i + 1 >= s.len()) {
        assert(u[i] == s[i]);
        assert(u[i + 1] == s[i + 1]);
        if !(s[i] == 13u8 && s[i + 1] == 10u8) {
            lemma_find_crlf_extend(s, t, i + 1);
        }
    }
}

/// A line that ends within `s` reads the same when more bytes follow.
proof fn lemma_line_extend(s: Seq<u8>, t: Seq<u8>, p: int)
    requires
        0 <= p < s.len(),
        s[p] != 13u8,
        line_at(s, p) is Some,
    ensures
        line_at(s + t, p) == line_at(s, p),
{
    lemma_find_crlf_extend(s, t, p);
    lemma_find_crlf_bounds(s, p);
    if let Some(j) = find_crlf(s, p) {
        assert(j != p);
        assert((s + t).subrange(p + 1, j) =~= s.subrange(p + 1, j));
    }
}

/// A frame that stands whole in `s` from `p` reads the same, and ends at the
/// same place, whatever bytes follow `s`.
pub proof fn lemma_parse_extend(s: Seq<u8>, t: Seq<u8>, p: int)
    requires
        parse_frame(s, p) is Done,
    ensures
        parse_frame(s + t, p) == parse_frame(s, p),
    decreases s.len() - p, 1int, 0int,
{
    let u = s + t;
    assert(u[p] == s[p]);
    let tag = s[p];
    if tag == 43u8 || tag == 45u8 || tag == 58u8 {
        lemma_line_extend(s, t, p);
    } else if tag == 36u8 {
        lemma_line_extend(s, t, p);
        lemma_find_crlf_bounds(s, p);
        if let Some((b, q)) = line_at(s, p) {
            if let Ok(n) = length_line(b) {
                if n >= 0 {
                    assert(u.subrange(q, q + n) =~= s.subrange(q, q + n));
                    assert(u[q + n] == s[q + n]);
                    assert(u[q + n + 1] == s[q + n + 1]);
                }
            }
        }
    } else if tag == 42u8 {
        lemma_array_extend(s, t, p);
    } else if tag == 95u8 {
        assert(u[p + 1] == s[p + 1]);
        assert(u[p + 2] == s[p + 2]);
    }
}

proof fn lemma_array_extend(s: Seq<u8>, t: Seq<u8>, p: int)
    requires
        parse_array(s, p) is Done,
    ensures
        parse_array(s + t, p) == parse_array(s, p),
    decreases s.len() - p, 0int, 0int,
{
    let u = s + t;
    assert(u[p] == s[p]);
    lemma_line_extend(s, t, p);
    lemma_find_crlf_bounds(s, p);
    if let Some((b, q)) = line_at(s, p) {
        if let Ok(n) = length_line(b) {
            if n >= 0 {
                lemma_items_extend(s, t, q, n as int);
            }
        }
    }
}

proof fn lemma_items_extend(s: Seq<u8>, t: Seq<u8>, p: int, k: int)
    requires
        parse_items(s, p, k) is Done,
    ensures
        parse_items(s + t, p, k) == parse_items(s, p, k),
    decreases s.len() - p, 2int, k,
{
    if k > 0 {
        lemma_items_extend(s, t, p, k - 1);
        if let Outcome::Done(_, q) = parse_items(s, p, k - 1) {
            lemma_parse_extend(s, t, q);
        }
    }
}

} // verus!
