//! RESP frames: their byte encoding and an incremental reader.
use vstd::prelude::*;
use vstd::utf8::*;
use crate::decimal::{decimal, parse_i64_text, push_decimal, push_nat_digits, parse_i64};
use crate::text::{utf8_text, append_bytes};
use crate::buffer::{buffer_bytes, buffer_slice, buffer_advance};
use bytes::BytesMut;

verus! {

/// One RESP frame.
#[derive(Debug, PartialEq)]
pub enum Frame {
    SimpleString(String),
    Error(String),
    Integer(i64),
    BulkString(Option<Vec<u8>>),
    Array(Option<Vec<Frame>>),
    Null,
}

/// The mathematical value of a frame.
#[verifier::ext_equal]
pub enum FrameView {
    Simple(Seq<char>),
    Error(Seq<char>),
    Integer(int),
    Bulk(Option<Seq<u8>>),
    Array(Option<Seq<FrameView>>),
    Null,
}

pub open spec fn frame_view(f: Frame) -> FrameView
    decreases f,
{
    match f {
        Frame::SimpleString(s) => FrameView::Simple(s@),
        Frame::Error(s) => FrameView::Error(s@),
        Frame::Integer(i) => FrameView::Integer(i as int),
        Frame::BulkString(b) => match b {
            Some(v) => FrameView::Bulk(Some(v@)),
            None => FrameView::Bulk(None),
        },
        Frame::Array(a) => match a {
            Some(v) => FrameView::Array(Some(frames_view(v@))),
            None => FrameView::Array(None),
        },
        Frame::Null => FrameView::Null,
    }
}

pub open spec fn frames_view(s: Seq<Frame>) -> Seq<FrameView>
    decreases s,
{
    if s.len() == 0 {
        seq![]
    } else {
        frames_view(s.drop_last()).push(frame_view(s.last()))
    }
}

impl View for Frame {
    type V = FrameView;

    open spec fn view(&self) -> FrameView {
        frame_view(*self)
    }
}

/// Why a byte stream is not RESP; `message` gives the text of each.
#[derive(Debug, Clone, Copy, PartialEq, Eq, Structural)]
pub enum RespError {
    InvalidNull,
    InvalidType,
    InvalidUtf8,
    InvalidInteger,
    InvalidBulkString,
    InvalidLengthUtf8,
    InvalidLengthInteger,
    NegativeLength,
    MissingCrlf,
    InvalidArray,
}

/// The text of each error.
pub open spec fn message_of(e: RespError) -> Seq<char> {
    match e {
        RespError::InvalidNull => "Invalid Null frame"@,
        RespError::InvalidType => "Invalid RESP type"@,
        RespError::InvalidUtf8 => "Invalid UTF-8"@,
        RespError::InvalidInteger => "Invalid integer"@,
        RespError::InvalidBulkString => "Invalid Bulk string"@,
        RespError::InvalidLengthUtf8 => "Invalid UTF-8 length"@,
        RespError::InvalidLengthInteger => "Invalid integer length"@,
        RespError::NegativeLength => "Length can't be < 0"@,
        RespError::MissingCrlf => "Bulk string payload does not end with CRLF"@,
        RespError::InvalidArray => "Invalid Array"@,
    }
}

impl RespError {
    /// The human-readable text of the error.
    pub fn message(&self) -> (r: &'static str)
        ensures
            r@ == message_of(*self),
    {
        match self {
            RespError::InvalidNull => "Invalid Null frame",
            RespError::InvalidType => "Invalid RESP type",
            RespError::InvalidUtf8 => "Invalid UTF-8",
            RespError::InvalidInteger => "Invalid integer",
            RespError::InvalidBulkString => "Invalid Bulk string",
            RespError::InvalidLengthUtf8 => "Invalid UTF-8 length",
            RespError::InvalidLengthInteger => "Invalid integer length",
            RespError::NegativeLength => "Length can't be < 0",
            RespError::MissingCrlf => "Bulk string payload does not end with CRLF",
            RespError::InvalidArray => "Invalid Array",
        }
    }
}

pub open spec fn crlf() -> Seq<u8> {
    seq![13u8, 10u8]
}

/// The RESP encoding of a frame.
pub open spec fn encode(f: FrameView) -> Seq<u8>
    decreases f,
{
    match f {
        FrameView::Simple(s) => seq![43u8] + encode_utf8(s) + crlf(),
        FrameView::Error(s) => seq![45u8] + encode_utf8(s) + crlf(),
        FrameView::Integer(i) => seq![58u8] + decimal(i) + crlf(),
        FrameView::Bulk(b) => match b {
            Some(data) => seq![36u8] + decimal(data.len() as int) + crlf() + data + crlf(),
            None => seq![36u8, 45u8, 49u8, 13u8, 10u8],
        },
        FrameView::Array(a) => match a {
            Some(items) => seq![42u8] + decimal(items.len() as int) + crlf() + encode_all(items),
            None => seq![42u8, 45u8, 49u8, 13u8, 10u8],
        },
        FrameView::Null => seq![95u8, 13u8, 10u8],
    }
}

/// The encodings of the frames, one after the other.
pub open spec fn encode_all(fs: Seq<FrameView>) -> Seq<u8>
    decreases fs,
{
    if fs.len() == 0 {
        seq![]
    } else {
        encode_all(fs.drop_last()) + encode(fs.last())
    }
}


proof fn lemma_frames_view_step(s: Seq<Frame>, i: int)
    requires
        0 <= i < s.len(),
    ensures
        frames_view(s.take(i + 1)) == frames_view(s.take(i)).push(frame_view(s[i])),
        encode_all(frames_view(s.take(i + 1))) == encode_all(frames_view(s.take(i))) + encode(
            frame_view(s[i]),
        ),
{
    assert(s.take(i + 1).drop_last() =~= s.take(i));
    let fv = frames_view(s.take(i + 1));
    assert(fv.drop_last() =~= frames_view(s.take(i)));
}

pub proof fn lemma_frames_view_len(s: Seq<Frame>)
    ensures
        frames_view(s).len() == s.len(),
        forall|k: int| 0 <= k < s.len() ==> #[trigger] frames_view(s)[k] == frame_view(s[k]),
    decreases s.len(),
{
    if s.len() > 0 {
        lemma_frames_view_len(s.drop_last());
    }
}

fn push_crlf(buf: &mut Vec<u8>)
    ensures
        final(buf)@ == old(buf)@ + crlf(),
{
    buf.push(13u8);
    buf.push(10u8);
    assert(final(buf)@ =~= old(buf)@ + crlf());
}

impl Frame {
    /// A copy of the frame.
    pub fn duplicate(&self) -> (r: Frame)
        ensures
            r@ == self@,
        decreases self,
    {
        match self {
            Frame::SimpleString(s) => Frame::SimpleString(s.clone()),
            Frame::Error(s) => Frame::Error(s.clone()),
            Frame::Integer(i) => Frame::Integer(*i),
            Frame::BulkString(b) => match b {
                Some(bytes) => {
                    let mut copy: Vec<u8> = Vec::new();
                    append_bytes(&mut copy, bytes.as_slice());
                    Frame::BulkString(Some(copy))
                },
                None => Frame::BulkString(None),
            },
            Frame::Array(a) => match a {
                Some(frames) => {
                    let mut out: Vec<Frame> = Vec::new();
                    let mut i: usize = 0;
                    while i < frames.len()
                        invariant
                            i <= frames@.len(),
                            *self == Frame::Array(Some(*frames)),
                            frames_view(out@) == frames_view(frames@.take(i as int)),
                        decreases frames@.len() - i,
                    {
                        proof {
                            assert(decreases_to!(*self => (*self)->Array_0));
                            assert(decreases_to!((*self)->Array_0 => (*self)->Array_0->Some_0));
                            assert(decreases_to!(*frames => frames@));
                            assert(decreases_to!(frames@ => frames@[i as int]));
                            lemma_frames_view_step(frames@, i as int);
                        }
                        let f = frames[i].duplicate();
                        let ghost before = out@;
                        out.push(f);
                        proof {
                            assert(out@.drop_last() =~= before);
                        }
                        i = i + 1;
                    }
                    assert(frames@.take(frames@.len() as int) =~= frames@);
                    Frame::Array(Some(out))
                },
                None => Frame::Array(None),
            },
            Frame::Null => Frame::Null,
        }
    }
}

impl Clone for Frame {
    fn clone(&self) -> (r: Self)
        ensures
            r@ == self@,
    {
        self.duplicate()
    }
}

impl Frame {
    /// The RESP encoding of the frame.
    pub fn to_bytes(&self) -> (r: Vec<u8>)
        ensures
            r@ == encode(self@),
    {
        let mut buf: Vec<u8> = Vec::new();
        self.serialize(&mut buf);
        assert(buf@ =~= encode(self@));
        buf
    }

    /// Appends the RESP encoding of the frame to `buf`.
    pub fn serialize(&self, buf: &mut Vec<u8>)
        ensures
            final(buf)@ == old(buf)@ + encode(self@),
        decreases self,
    {
        let ghost start = buf@;
        match self {
            Frame::SimpleString(s) => {
                buf.push(43u8);
                append_bytes(buf, s.as_str().as_bytes());
                push_crlf(buf);
            },
            Frame::Error(e) => {
                buf.push(45u8);
                append_bytes(buf, e.as_str().as_bytes());
                push_crlf(buf);
            },
            Frame::Integer(i) => {
                buf.push(58u8);
                push_decimal(*i, buf);
                push_crlf(buf);
            },
            Frame::BulkString(b) => {
                match b {
                    Some(bytes) => {
                        buf.push(36u8);
                        push_nat_digits(bytes.len() as u64, buf);
                        push_crlf(buf);
                        append_bytes(buf, bytes.as_slice());
                        push_crlf(buf);
                    },
                    None => {
                        buf.push(36u8);
                        buf.push(45u8);
                        buf.push(49u8);
                        push_crlf(buf);
                    },
                }
            },
            Frame::Array(a) => {
                match a {
                    Some(frames) => {
                        buf.push(42u8);
                        push_nat_digits(frames.len() as u64, buf);
                        push_crlf(buf);
                        let ghost header = buf@;
                        let mut i: usize = 0;
                        assert(frames_view(frames@.take(0)) =~= Seq::<FrameView>::empty());
                        while i < frames.len()
                            invariant
                                i <= frames@.len(),
                                buf@ == header + encode_all(frames_view(frames@.take(i as int))),
                                *self == Frame::Array(Some(*frames)),
                            decreases frames@.len() - i,
                        {
                            proof {
                                lemma_frames_view_step(frames@, i as int);
                                assert(decreases_to!(*self => (*self)->Array_0));
                                assert(decreases_to!((*self)->Array_0 => (*self)->Array_0->Some_0));
                                assert(decreases_to!(*frames => frames@));
                                assert(decreases_to!(frames@ => frames@[i as int]));
                            }
                            frames[i].serialize(buf);
                            i = i + 1;
                        }
                        assert(frames@.take(frames@.len() as int) =~= frames@);
                        proof {
                            lemma_frames_view_len(frames@);
                        }
                        assert(buf@ =~= start + encode(self@));
                    },
                    None => {
                        buf.push(42u8);
                        buf.push(45u8);
                        buf.push(49u8);
                        push_crlf(buf);
                    },
                }
            },
            Frame::Null => {
                buf.push(95u8);
                push_crlf(buf);
            },
        }
        assert(buf@ =~= start + encode(self@));
    }
}


/// What reading one frame, or a run of frames, from a position of a buffer gives.
pub enum Outcome<T> {
    /// The buffer ends before the frame does.
    Incomplete,
    /// The bytes are not RESP.
    Invalid(RespError),
    /// A value, and the position just past it.
    Done(T, int),
}

/// The position of the first `\r\n` that starts at or after `i`.
pub open spec fn find_crlf(s: Seq<u8>, i: int) -> Option<int>
    decreases s.len() - i,
{
    if i < 0 || i + 1 >= s.len() {
        None
    } else if s[i] == 13u8 && s[i + 1] == 10u8 {
        Some(i)
    } else {
        find_crlf(s, i + 1)
    }
}

/// The line that starts at `p`: the bytes after its first byte and before the
/// next `\r\n`, and the position just past that `\r\n`.
pub open spec fn line_at(s: Seq<u8>, p: int) -> Option<(Seq<u8>, int)> {
    match find_crlf(s, p) {
        Some(j) => Some((s.subrange(p + 1, j), j + 2)),
        None => None,
    }
}

/// A line can be read at `p`: the bytes there do not start with `\r\n`.
pub open spec fn line_readable(s: Seq<u8>, p: int) -> bool {
    !(0 <= p && p + 1 < s.len() && s[p] == 13u8 && s[p + 1] == 10u8)
}

pub proof fn lemma_find_crlf_bounds(s: Seq<u8>, i: int)
    ensures
        find_crlf(s, i) matches Some(j) ==> 0 <= i <= j && j + 1 < s.len() && s[j] == 13u8 && s[j
            + 1] == 10u8,
    decreases s.len() - i,
{
    if !(i < 0 || i + 1 >= s.len()) && !(s[i] == 13u8 && s[i + 1] == 10u8) {
        lemma_find_crlf_bounds(s, i + 1);
    }
}

/// A simple string: a line of UTF-8 text.
pub open spec fn parse_simple(s: Seq<u8>, p: int) -> Outcome<FrameView> {
    match line_at(s, p) {
        None => Outcome::Incomplete,
        Some((b, q)) => if valid_utf8(b) {
            Outcome::Done(FrameView::Simple(decode_utf8(b)), q)
        } else {
            Outcome::Invalid(RespError::InvalidUtf8)
        },
    }
}

/// An error frame: a line of UTF-8 text.
pub open spec fn parse_error(s: Seq<u8>, p: int) -> Outcome<FrameView> {
    match line_at(s, p) {
        None => Outcome::Incomplete,
        Some((b, q)) => if valid_utf8(b) {
            Outcome::Done(FrameView::Error(decode_utf8(b)), q)
        } else {
            Outcome::Invalid(RespError::InvalidUtf8)
        },
    }
}

/// An integer frame: a line holding a decimal `i64`.
pub open spec fn parse_integer(s: Seq<u8>, p: int) -> Outcome<FrameView> {
    match line_at(s, p) {
        None => Outcome::Incomplete,
        Some((b, q)) => if !valid_utf8(b) {
            Outcome::Invalid(RespError::InvalidUtf8)
        } else {
            match parse_i64_text(b) {
                Some(v) => Outcome::Done(FrameView::Integer(v as int), q),
                None => Outcome::Invalid(RespError::InvalidInteger),
            }
        },
    }
}

/// The length line of a bulk string or an array: a decimal `i64`.
pub open spec fn length_line(b: Seq<u8>) -> Result<i64, RespError> {
    if !valid_utf8(b) {
        Err(RespError::InvalidLengthUtf8)
    } else {
        match parse_i64_text(b) {
            Some(v) => Ok(v),
            None => Err(RespError::InvalidLengthInteger),
        }
    }
}

/// A bulk string: `$`, a length line, that many bytes, then `\r\n`; or `$-1`.
pub open spec fn parse_bulk(s: Seq<u8>, p: int) -> Outcome<FrameView> {
    if p < 0 || p >= s.len() {
        Outcome::Incomplete
    } else if s[p] != 36u8 {
        Outcome::Invalid(RespError::InvalidBulkString)
    } else {
        match line_at(s, p) {
            None => Outcome::Incomplete,
            Some((b, q)) => match length_line(b) {
                Err(e) => Outcome::Invalid(e),
                Ok(n) => if n == -1 {
                    Outcome::Done(FrameView::Bulk(None), q)
                } else if n < 0 {
                    Outcome::Invalid(RespError::NegativeLength)
                } else if s.len() - q < n + 2 {
                    Outcome::Incomplete
                } else if s[q + n] == 13u8 && s[q + n + 1] == 10u8 {
                    Outcome::Done(FrameView::Bulk(Some(s.subrange(q, q + n))), q + n + 2)
                } else {
                    Outcome::Invalid(RespError::MissingCrlf)
                },
            },
        }
    }
}

/// A frame starting at `p`.
pub open spec fn parse_frame(s: Seq<u8>, p: int) -> Outcome<FrameView>
    decreases s.len() - p, 1int, 0int,
{
    if p < 0 || p >= s.len() {
        Outcome::Incomplete
    } else {
        let tag = s[p];
        if tag == 43u8 {
            parse_simple(s, p)
        } else if tag == 45u8 {
            parse_error(s, p)
        } else if tag == 58u8 {
            parse_integer(s, p)
        } else if tag == 36u8 {
            parse_bulk(s, p)
        } else if tag == 42u8 {
            parse_array(s, p)
        } else if tag == 95u8 {
            if s.len() - p < 3 {
                Outcome::Incomplete
            } else if s[p + 1] == 13u8 && s[p + 2] == 10u8 {
                Outcome::Done(FrameView::Null, p + 3)
            } else {
                Outcome::Invalid(RespError::InvalidNull)
            }
        } else {
            Outcome::Invalid(RespError::InvalidType)
        }
    }
}

/// An array: `*`, a length line, then that many frames; or `*-1`.
pub open spec fn parse_array(s: Seq<u8>, p: int) -> Outcome<FrameView>
    decreases s.len() - p, 0int, 0int,
{
    if p < 0 || p >= s.len() {
        Outcome::Incomplete
    } else if s[p] != 42u8 {
        Outcome::Invalid(RespError::InvalidArray)
    } else {
        proof {
            lemma_find_crlf_bounds(s, p);
        }
        match line_at(s, p) {
            None => Outcome::Incomplete,
            Some((b, q)) => match length_line(b) {
                Err(e) => Outcome::Invalid(e),
                Ok(n) => if n == -1 {
                    Outcome::Done(FrameView::Array(None), q)
                } else if n < 0 {
                    Outcome::Invalid(RespError::NegativeLength)
                } else {
                    match parse_items(s, q, n as int) {
                        Outcome::Done(items, r) => Outcome::Done(FrameView::Array(Some(items)), r),
                        Outcome::Incomplete => Outcome::Incomplete,
                        Outcome::Invalid(e) => Outcome::Invalid(e),
                    }
                },
            },
        }
    }
}

/// `k` frames, one after the other, starting at `p`.
pub open spec fn parse_items(s: Seq<u8>, p: int, k: int) -> Outcome<Seq<FrameView>>
    decreases s.len() - p, 2int, k,
{
    if k <= 0 {
        Outcome::Done(seq![], p)
    } else {
        match parse_items(s, p, k - 1) {
            Outcome::Done(fs, q) => if p <= q <= s.len() {
                match parse_frame(s, q) {
                    Outcome::Done(f, r) => Outcome::Done(fs.push(f), r),
                    Outcome::Incomplete => Outcome::Incomplete,
                    Outcome::Invalid(e) => Outcome::Invalid(e),
                }
            } else {
                Outcome::Incomplete
            },
            Outcome::Incomplete => Outcome::Incomplete,
            Outcome::Invalid(e) => Outcome::Invalid(e),
        }
    }
}


/// Where the read position stands after reading a line-based frame at `p`:
/// past the line when one was read, and at `p` when no line was there.
pub open spec fn line_stop(s: Seq<u8>, p: int) -> int {
    match line_at(s, p) {
        Some((_, q)) => q,
        None => p,
    }
}

/// Where the read position stands after reading a bulk string at `p`: past
/// the payload when it was read, past the length line when that line was read
/// but the payload was not, and at `p` otherwise.
pub open spec fn bulk_stop(s: Seq<u8>, p: int) -> int {
    if p < 0 || p >= s.len() || s[p] != 36u8 {
        p
    } else {
        match line_at(s, p) {
            None => p,
            Some((b, q)) => match length_line(b) {
                Err(_) => q,
                Ok(n) => if n >= 0 && s.len() - q >= n + 2 && s[q + n] == 13u8 && s[q + n + 1]
                    == 10u8 {
                    q + n + 2
                } else {
                    q
                },
            },
        }
    }
}

/// Where the read position stands after reading a frame at `p`, whether or
/// not a frame was read: every part that was read stays read.
pub open spec fn frame_stop(s: Seq<u8>, p: int) -> int
    decreases s.len() - p, 1int, 0int,
{
    if p < 0 || p >= s.len() {
        p
    } else {
        let tag = s[p];
        if tag == 43u8 || tag == 45u8 || tag == 58u8 {
            line_stop(s, p)
        } else if tag == 36u8 {
            bulk_stop(s, p)
        } else if tag == 42u8 {
            array_stop(s, p)
        } else if tag == 95u8 && s.len() - p >= 3 && s[p + 1] == 13u8 && s[p + 2] == 10u8 {
            p + 3
        } else {
            p
        }
    }
}

/// Where the read position stands after reading an array at `p`.
pub open spec fn array_stop(s: Seq<u8>, p: int) -> int
    decreases s.len() - p, 0int, 0int,
{
    if p < 0 || p >= s.len() || s[p] != 42u8 {
        p
    } else {
        proof {
            lemma_find_crlf_bounds(s, p);
        }
        match line_at(s, p) {
            None => p,
            Some((b, q)) => match length_line(b) {
                Err(_) => q,
                Ok(n) => if n < 0 {
                    q
                } else {
                    items_stop(s, q, n as int)
                },
            },
        }
    }
}

/// Where the read position stands after reading `k` frames from `p`: after the
/// frames read, and within the first one that could not be read.
pub open spec fn items_stop(s: Seq<u8>, p: int, k: int) -> int
    decreases s.len() - p, 2int, k,
{
    if k <= 0 {
        p
    } else {
        match parse_items(s, p, k - 1) {
            Outcome::Done(_, q) => if p <= q <= s.len() {
                frame_stop(s, q)
            } else {
                q
            },
            _ => items_stop(s, p, k - 1),
        }
    }
}

/// A read position in a byte slice.
pub struct Cursor<'a> {
    buf: &'a [u8],
    pos: usize,
}

impl<'a> Cursor<'a> {
    /// The bytes under the cursor.
    pub closed spec fn data(&self) -> Seq<u8> {
        self.buf@
    }

    /// The read position.
    pub closed spec fn pos(&self) -> int {
        self.pos as int
    }

    #[verifier::type_invariant]
    spec fn in_bounds(&self) -> bool {
        self.pos <= self.buf@.len()
    }

    /// A cursor at the start of `buf`.
    pub fn new(buf: &'a [u8]) -> (c: Self)
        ensures
            c.data() == buf@,
            c.pos() == 0,
    {
        Cursor { buf, pos: 0 }
    }

    /// The read position.
    pub fn position(&self) -> (p: usize)
        ensures
            p == self.pos(),
            p <= self.data().len(),
    {
        proof {
            use_type_invariant(self);
        }
        self.pos
    }

    /// The bytes under the cursor.
    pub fn get_ref(&self) -> (b: &'a [u8])
        ensures
            b@ == self.data(),
    {
        self.buf
    }

    /// Moves the read position to `pos`.
    pub fn set_position(&mut self, pos: usize)
        requires
            pos <= old(self).data().len(),
        ensures
            final(self).data() == old(self).data(),
            final(self).pos() == pos,
    {
        self.pos = pos;
    }

    /// The number of bytes from the read position to the end.
    pub fn remaining(&self) -> (n: usize)
        ensures
            n == self.data().len() - self.pos(),
    {
        proof {
            use_type_invariant(self);
        }
        self.buf.len() - self.pos
    }

    /// Whether any byte is left to read.
    pub fn has_remaining(&self) -> (b: bool)
        ensures
            b == (self.pos() < self.data().len()),
    {
        proof {
            use_type_invariant(self);
        }
        self.pos < self.buf.len()
    }

    /// Moves the read position `n` bytes on.
    pub fn advance(&mut self, n: usize)
        requires
            n <= old(self).data().len() - old(self).pos(),
        ensures
            final(self).data() == old(self).data(),
            final(self).pos() == old(self).pos() + n,
    {
        assert(self.buf@.len() == self.buf.len());
        self.pos = self.pos + n;
    }
}

/// Reads the line at the cursor: the bytes after its first byte and before the
/// next `\r\n`, and moves past that `\r\n`. Without a `\r\n` the cursor stays.
pub fn read_line<'a>(cursor: &mut Cursor<'a>) -> (r: Option<&'a [u8]>)
    requires
        line_readable(old(cursor).data(), old(cursor).pos()),
    ensures
        final(cursor).data() == old(cursor).data(),
        match line_at(old(cursor).data(), old(cursor).pos()) {
            Some((b, q)) => r matches Some(l) && l@ == b && final(cursor).pos() == q,
            None => r is None && final(cursor).pos() == old(cursor).pos(),
        },
{
    let start = cursor.position();
    let data = cursor.get_ref();
    let len = data.len();
    let ghost s = data@;
    let mut i = start;
    while len - i > 1
        invariant
            start <= i <= len,
            len == s.len(),
            data@ == s,
            s == old(cursor).data(),
            start == old(cursor).pos(),
            *cursor == *old(cursor),
            line_readable(s, start as int),
            find_crlf(s, start as int) == find_crlf(s, i as int),
        decreases len - i,
    {
        if data[i] == 13u8 && data[i + 1] == 10u8 {
            proof {
                lemma_find_crlf_bounds(s, start as int);
            }
            let line = vstd::slice::slice_subrange(data, start + 1, i);
            cursor.set_position(i + 2);
            return Some(line);
        }
        i = i + 1;
    }
    None
}

/// A frame that is read ends after its start and within the buffer.
pub proof fn lemma_parse_frame_bounds(s: Seq<u8>, p: int)
    ensures
        parse_frame(s, p) matches Outcome::Done(_, q) ==> p < q <= s.len(),
    decreases s.len() - p, 1int, 0int,
{
    lemma_find_crlf_bounds(s, p);
    if 0 <= p < s.len() && s[p] == 42u8 {
        lemma_parse_array_bounds(s, p);
    }
}

proof fn lemma_parse_array_bounds(s: Seq<u8>, p: int)
    ensures
        parse_array(s, p) matches Outcome::Done(_, q) ==> p < q <= s.len(),
    decreases s.len() - p, 0int, 0int,
{
    lemma_find_crlf_bounds(s, p);
    if 0 <= p < s.len() && s[p] == 42u8 {
        if let Some((b, q)) = line_at(s, p) {
            if let Ok(n) = length_line(b) {
                if n >= 0 {
                    lemma_parse_items_bounds(s, q, n as int);
                }
            }
        }
    }
}

proof fn lemma_parse_items_bounds(s: Seq<u8>, p: int, k: int)
    ensures
        parse_items(s, p, k) matches Outcome::Done(_, q) ==> p <= q && (k > 0 ==> q <= s.len()),
    decreases s.len() - p, 2int, k,
{
    if k > 0 {
        lemma_parse_items_bounds(s, p, k - 1);
        if let Outcome::Done(_, q) = parse_items(s, p, k - 1) {
            if p <= q <= s.len() {
                lemma_parse_frame_bounds(s, q);
            }
        }
    }
}

proof fn lemma_items_stuck(s: Seq<u8>, p: int, m: int, k: int)
    requires
        0 <= m <= k,
        !(parse_items(s, p, m) is Done),
    ensures
        parse_items(s, p, k) == parse_items(s, p, m),
    decreases k - m,
{
    if k > m {
        lemma_items_stuck(s, p, m, k - 1);
    }
}

proof fn lemma_items_stop_stuck(s: Seq<u8>, p: int, m: int, k: int)
    requires
        0 <= m <= k,
        !(parse_items(s, p, m) is Done),
    ensures
        items_stop(s, p, k) == items_stop(s, p, m),
    decreases k - m,
{
    if k > m {
        lemma_items_stuck(s, p, m, k - 1);
        lemma_items_stop_stuck(s, p, m, k - 1);
    }
}

impl Frame {
    /// Reads one frame at the cursor. On success the cursor moves past it;
    /// when the bytes end too soon, or are not RESP, it stays after the parts
    /// that were read (the lines and the whole frames inside an array).
    pub fn parse_cursor(cursor: &mut Cursor) -> (r: Result<Option<Frame>, RespError>)
        ensures
            final(cursor).data() == old(cursor).data(),
            match parse_frame(old(cursor).data(), old(cursor).pos()) {
                Outcome::Done(v, q) => r matches Ok(Some(f)) && f@ == v && final(cursor).pos() == q,
                Outcome::Incomplete => r matches Ok(None) && final(cursor).pos() == frame_stop(old(cursor).data(), old(cursor).pos()),
                Outcome::Invalid(e) => r == Err::<Option<Frame>, RespError>(e) && final(cursor).pos()
                    == frame_stop(old(cursor).data(), old(cursor).pos()),
            },
        decreases old(cursor).data().len() - old(cursor).pos(), 1int,
    {
        let pos = cursor.position();
        if !cursor.has_remaining() {
            return Ok(None);
        }
        let tag = cursor.get_ref()[pos];
        if tag == 43u8 {
            Self::parse_simple_string(cursor)
        } else if tag == 45u8 {
            Self::parse_error(cursor)
        } else if tag == 58u8 {
            Self::parse_integer(cursor)
        } else if tag == 36u8 {
            Self::parse_bulk_string(cursor)
        } else if tag == 42u8 {
            Self::parse_array(cursor)
        } else if tag == 95u8 {
            if cursor.remaining() < 3 {
                return Ok(None);
            }
            let data = cursor.get_ref();
            if data[pos + 1] == 13u8 && data[pos + 2] == 10u8 {
                cursor.advance(3);
                Ok(Some(Frame::Null))
            } else {
                Err(RespError::InvalidNull)
            }
        } else {
            Err(RespError::InvalidType)
        }
    }

    fn parse_simple_string(cursor: &mut Cursor) -> (r: Result<Option<Frame>, RespError>)
        requires
            line_readable(old(cursor).data(), old(cursor).pos()),
        ensures
            final(cursor).data() == old(cursor).data(),
            match parse_simple(old(cursor).data(), old(cursor).pos()) {
                Outcome::Done(v, q) => r matches Ok(Some(f)) && f@ == v && final(cursor).pos() == q,
                Outcome::Incomplete => r matches Ok(None) && final(cursor).pos() == line_stop(old(cursor).data(), old(cursor).pos()),
                Outcome::Invalid(e) => r == Err::<Option<Frame>, RespError>(e) && final(cursor).pos()
                    == line_stop(old(cursor).data(), old(cursor).pos()),
            },
    {
        match read_line(cursor) {
            Some(bytes) => match utf8_text(bytes) {
                Some(t) => Ok(Some(Frame::SimpleString(t.to_owned()))),
                None => Err(RespError::InvalidUtf8),
            },
            None => Ok(None),
        }
    }

    fn parse_error(cursor: &mut Cursor) -> (r: Result<Option<Frame>, RespError>)
        requires
            line_readable(old(cursor).data(), old(cursor).pos()),
        ensures
            final(cursor).data() == old(cursor).data(),
            match parse_error(old(cursor).data(), old(cursor).pos()) {
                Outcome::Done(v, q) => r matches Ok(Some(f)) && f@ == v && final(cursor).pos() == q,
                Outcome::Incomplete => r matches Ok(None) && final(cursor).pos() == line_stop(old(cursor).data(), old(cursor).pos()),
                Outcome::Invalid(e) => r == Err::<Option<Frame>, RespError>(e) && final(cursor).pos()
                    == line_stop(old(cursor).data(), old(cursor).pos()),
            },
    {
        match read_line(cursor) {
            Some(bytes) => match utf8_text(bytes) {
                Some(t) => Ok(Some(Frame::Error(t.to_owned()))),
                None => Err(RespError::InvalidUtf8),
            },
            None => Ok(None),
        }
    }

    fn parse_integer(cursor: &mut Cursor) -> (r: Result<Option<Frame>, RespError>)
        requires
            line_readable(old(cursor).data(), old(cursor).pos()),
        ensures
            final(cursor).data() == old(cursor).data(),
            match parse_integer(old(cursor).data(), old(cursor).pos()) {
                Outcome::Done(v, q) => r matches Ok(Some(f)) && f@ == v && final(cursor).pos() == q,
                Outcome::Incomplete => r matches Ok(None) && final(cursor).pos() == line_stop(old(cursor).data(), old(cursor).pos()),
                Outcome::Invalid(e) => r == Err::<Option<Frame>, RespError>(e) && final(cursor).pos()
                    == line_stop(old(cursor).data(), old(cursor).pos()),
            },
    {
        match read_line(cursor) {
            Some(bytes) => {
                if utf8_text(bytes).is_none() {
                    return Err(RespError::InvalidUtf8);
                }
                match parse_i64(bytes) {
                    Some(n) => Ok(Some(Frame::Integer(n))),
                    None => Err(RespError::InvalidInteger),
                }
            },
            None => Ok(None),
        }
    }

    /// Reads the length line at the cursor, which holds its `$` or `*` tag.
    fn read_length(cursor: &mut Cursor) -> (r: Option<Result<i64, RespError>>)
        requires
            line_readable(old(cursor).data(), old(cursor).pos()),
        ensures
            final(cursor).data() == old(cursor).data(),
            match line_at(old(cursor).data(), old(cursor).pos()) {
                Some((b, q)) => r == Some(length_line(b)) && final(cursor).pos() == q,
                None => r is None && final(cursor).pos() == old(cursor).pos(),
            },
    {
        match read_line(cursor) {
            Some(bytes) => {
                if utf8_text(bytes).is_none() {
                    return Some(Err(RespError::InvalidLengthUtf8));
                }
                match parse_i64(bytes) {
                    Some(n) => Some(Ok(n)),
                    None => Some(Err(RespError::InvalidLengthInteger)),
                }
            },
            None => None,
        }
    }

    fn parse_bulk_string(cursor: &mut Cursor) -> (r: Result<Option<Frame>, RespError>)
        ensures
            final(cursor).data() == old(cursor).data(),
            match parse_bulk(old(cursor).data(), old(cursor).pos()) {
                Outcome::Done(v, q) => r matches Ok(Some(f)) && f@ == v && final(cursor).pos() == q,
                Outcome::Incomplete => r matches Ok(None) && final(cursor).pos() == bulk_stop(old(cursor).data(), old(cursor).pos()),
                Outcome::Invalid(e) => r == Err::<Option<Frame>, RespError>(e) && final(cursor).pos()
                    == bulk_stop(old(cursor).data(), old(cursor).pos()),
            },
    {
        let start = cursor.position();
        if !cursor.has_remaining() {
            return Ok(None);
        }
        if cursor.get_ref()[start] != 36u8 {
            return Err(RespError::InvalidBulkString);
        }
        let length = match Self::read_length(cursor) {
            None => return Ok(None),
            Some(Err(e)) => return Err(e),
            Some(Ok(n)) => n,
        };
        if length == -1 {
            return Ok(Some(Frame::BulkString(None)));
        }
        if length < 0 {
            return Err(RespError::NegativeLength);
        }
        let body = cursor.position();
        let data = cursor.get_ref();
        let available = data.len() - body;
        if (available as u64) < (length as u64) || available - (length as usize) < 2 {
            return Ok(None);
        }
        let len = length as usize;
        let mut payload: Vec<u8> = Vec::new();
        append_bytes(&mut payload, vstd::slice::slice_subrange(data, body, body + len));
        if data[body + len] != 13u8 || data[body + len + 1] != 10u8 {
            return Err(RespError::MissingCrlf);
        }
        cursor.set_position(body + len + 2);
        Ok(Some(Frame::BulkString(Some(payload))))
    }

    fn parse_array(cursor: &mut Cursor) -> (r: Result<Option<Frame>, RespError>)
        ensures
            final(cursor).data() == old(cursor).data(),
            match parse_array(old(cursor).data(), old(cursor).pos()) {
                Outcome::Done(v, q) => r matches Ok(Some(f)) && f@ == v && final(cursor).pos() == q,
                Outcome::Incomplete => r matches Ok(None) && final(cursor).pos() == array_stop(old(cursor).data(), old(cursor).pos()),
                Outcome::Invalid(e) => r == Err::<Option<Frame>, RespError>(e) && final(cursor).pos()
                    == array_stop(old(cursor).data(), old(cursor).pos()),
            },
        decreases old(cursor).data().len() - old(cursor).pos(), 0int,
    {
        let start = cursor.position();
        if !cursor.has_remaining() {
            return Ok(None);
        }
        let ghost s = cursor.data();
        if cursor.get_ref()[start] != 42u8 {
            return Err(RespError::InvalidArray);
        }
        proof {
            lemma_find_crlf_bounds(s, start as int);
        }
        let length = match Self::read_length(cursor) {
            None => return Ok(None),
            Some(Err(e)) => return Err(e),
            Some(Ok(n)) => n,
        };
        if length == -1 {
            return Ok(Some(Frame::Array(None)));
        }
        if length < 0 {
            return Err(RespError::NegativeLength);
        }
        let ghost first = cursor.pos();
        let mut elements: Vec<Frame> = Vec::new();
        let mut i: i64 = 0;
        assert(frames_view(elements@) =~= Seq::<FrameView>::empty());
        while i < length
            invariant
                0 <= i <= length,
                cursor.data() == s,
                start < first <= cursor.pos() <= s.len(),
                start < s.len(),
                old(cursor).data() == s,
                old(cursor).pos() == start,
                parse_array(s, start as int) == match parse_items(s, first, length as int) {
                    Outcome::Done(items, r) => Outcome::Done(FrameView::Array(Some(items)), r),
                    Outcome::Incomplete => Outcome::Incomplete,
                    Outcome::Invalid(e) => Outcome::Invalid(e),
                },
                array_stop(s, start as int) == items_stop(s, first, length as int),
                parse_items(s, first, i as int) == Outcome::Done(
                    frames_view(elements@),
                    cursor.pos(),
                ),
            decreases length - i,
        {
            proof {
                lemma_parse_frame_bounds(s, cursor.pos());
            }
            match Self::parse_cursor(cursor) {
                Ok(Some(frame)) => {
                    let ghost before = elements@;
                    elements.push(frame);
                    proof {
                        assert(elements@.drop_last() =~= before);
                    }
                },
                Ok(None) => {
                    proof {
                        lemma_items_stuck(s, first, i + 1, length as int);
                        lemma_items_stop_stuck(s, first, i + 1, length as int);
                    }
                    return Ok(None);
                },
                Err(e) => {
                    proof {
                        lemma_items_stuck(s, first, i + 1, length as int);
                        lemma_items_stop_stuck(s, first, i + 1, length as int);
                    }
                    return Err(e);
                },
            }
            i = i + 1;
        }
        Ok(Some(Frame::Array(Some(elements))))
    }
}


impl Frame {
    /// Reads one frame from the front of `src`. A frame that is read is taken
    /// off the buffer; when the buffer ends too soon (`Ok(None)`) or does not
    /// hold RESP (`Err`), the buffer is left as it was.
    pub fn parser(src: &mut BytesMut) -> (r: Result<Option<Frame>, RespError>)
        ensures
            match parse_frame(buffer_bytes(*old(src)), 0) {
                Outcome::Done(v, q) => r matches Ok(Some(f)) && f@ == v && buffer_bytes(*final(src))
                    == buffer_bytes(*old(src)).skip(q),
                Outcome::Incomplete => r matches Ok(None) && buffer_bytes(*final(src))
                    == buffer_bytes(*old(src)),
                Outcome::Invalid(e) => r == Err::<Option<Frame>, RespError>(e) && buffer_bytes(
                    *final(src),
                ) == buffer_bytes(*old(src)),
            },
    {
        let (result, consumed) = {
            let mut cursor = Cursor::new(buffer_slice(src));
            let result = Self::parse_cursor(&mut cursor);
            (result, cursor.position())
        };
        match result {
            Ok(Some(frame)) => {
                buffer_advance(src, consumed);
                Ok(Some(frame))
            },
            Ok(None) => Ok(None),
            Err(e) => Err(e),
        }
    }
}

} // verus!
