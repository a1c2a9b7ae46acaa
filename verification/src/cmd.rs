//! Commands, as a client sends them in a RESP array.
use vstd::prelude::*;
use vstd::utf8::{valid_utf8, decode_utf8, is_ascii_chars, encode_utf8, encode_utf8_valid_utf8,
    encode_utf8_decode_utf8};
use crate::resp::{Frame, FrameView, frames_view, lemma_frames_view_len};
use crate::text::{utf8_text, text_chars, is_text};
use crate::value::{Value, ValueView, value_of};
use vstd::string::StringExecFns;

verus! {

/// A command of the store.
#[derive(Debug, PartialEq)]
pub enum Cmd {
    Get(String),
    SetValue(String, Value),
    Delete(String),
    See,
    Snapshot,
}

/// The mathematical value of a command.
pub enum CmdView {
    Get(Seq<char>),
    SetValue(Seq<char>, ValueView),
    Delete(Seq<char>),
    See,
    Snapshot,
}

impl View for Cmd {
    type V = CmdView;

    open spec fn view(&self) -> CmdView {
        match *self {
            Cmd::Get(k) => CmdView::Get(k@),
            Cmd::SetValue(k, v) => CmdView::SetValue(k@, v@),
            Cmd::Delete(k) => CmdView::Delete(k@),
            Cmd::See => CmdView::See,
            Cmd::Snapshot => CmdView::Snapshot,
        }
    }
}

/// What `str::to_uppercase` gives for a text (Unicode's full upper-case mapping).
pub uninterp spec fn uppercase(s: Seq<char>) -> Seq<char>;

/// A character in upper case as ASCII has it: `a` to `z` become `A` to `Z`,
/// and every other character stays as it is.
pub open spec fn ascii_upper(c: char) -> char {
    if 'a' <= c && c <= 'z' {
        ((c as u32) - 32) as char
    } else {
        c
    }
}

/// The upper case of a text as `str::to_uppercase` gives it: an ASCII text
/// with each of its letters in upper case, and any other text by Unicode's
/// full mapping, named by `uppercase`.
pub open spec fn upper_text(s: Seq<char>) -> Seq<char> {
    if is_ascii_chars(s) {
        s.map_values(|c: char| ascii_upper(c))
    } else {
        uppercase(s)
    }
}

/// `str::to_uppercase`: its result is named by `uppercase`; on a text of
/// ASCII characters it turns `a` to `z` into `A` to `Z` and keeps every other
/// character, as `to_ascii_uppercase` does.
#[verifier::external_body]
fn to_uppercase(s: &str) -> (r: String)
    ensures
        r@ == uppercase(s@),
        is_ascii_chars(s@) ==> r@ == s@.map_values(|c: char| ascii_upper(c)),
{
    s.to_uppercase()
}

/// The text that a frame holds when it stands for a string: a bulk string of
/// UTF-8, or a simple string; otherwise the error message.
pub open spec fn string_of_frame(f: FrameView) -> Result<Seq<char>, Seq<char>> {
    match f {
        FrameView::Bulk(Some(b)) => if valid_utf8(b) {
            Ok(decode_utf8(b))
        } else {
            Err("ERR Invalid UTF-8 in string"@)
        },
        FrameView::Simple(s) => Ok(s),
        _ => Err("ERR Protocol error: expected string"@),
    }
}

/// The command named `name` (already in upper case), with its arguments
/// `fs[1..]`; or the error message.
pub open spec fn command_of_name(name: Seq<char>, fs: Seq<FrameView>) -> Result<CmdView, Seq<char>> {
    if name == "GET"@ {
        if fs.len() != 2 {
            Err("ERR wrong number of arguments for 'get' command"@)
        } else {
            match string_of_frame(fs[1]) {
                Ok(k) => Ok(CmdView::Get(k)),
                Err(e) => Err(e),
            }
        }
    } else if name == "SET"@ {
        if fs.len() != 3 {
            Err("ERR wrong number of arguments for 'set' command"@)
        } else {
            match string_of_frame(fs[2]) {
                Err(e) => Err(e),
                Ok(v) => match string_of_frame(fs[1]) {
                    Ok(k) => Ok(CmdView::SetValue(k, value_of(v))),
                    Err(e) => Err(e),
                },
            }
        }
    } else if name == "DEL"@ || name == "DELETE"@ {
        if fs.len() != 2 {
            Err("ERR wrong number of arguments for 'del' command"@)
        } else {
            match string_of_frame(fs[1]) {
                Ok(k) => Ok(CmdView::Delete(k)),
                Err(e) => Err(e),
            }
        }
    } else if name == "SEE"@ || name == "KEYS"@ {
        Ok(CmdView::See)
    } else if name == "SNAPSHOT"@ || name == "SAVE"@ || name == "BGSAVE"@ {
        Ok(CmdView::Snapshot)
    } else {
        Err("ERR unknown command '"@ + name + "'"@)
    }
}

/// The command that a frame stands for: an array whose first item names the
/// command in any case; or the error message.
pub open spec fn command_of(f: FrameView) -> Result<CmdView, Seq<char>> {
    match f {
        FrameView::Array(Some(fs)) => if fs.len() == 0 {
            Err("ERR Protocol error: empty command"@)
        } else {
            match string_of_frame(fs[0]) {
                Ok(n) => command_of_name(upper_text(n), fs),
                Err(e) => Err(e),
            }
        },
        _ => Err("ERR Protocol error: expected array"@),
    }
}

/// The text of a frame that stands for a string.
fn get_string(f: &Frame) -> (r: Result<String, String>)
    ensures
        match string_of_frame(f@) {
            Ok(s) => r matches Ok(x) && x@ == s,
            Err(e) => r matches Err(x) && x@ == e,
        },
{
    match f {
        Frame::BulkString(Some(bytes)) => match utf8_text(bytes.as_slice()) {
            Some(t) => Ok(t.to_owned()),
            None => Err("ERR Invalid UTF-8 in string".to_owned()),
        },
        Frame::SimpleString(s) => Ok(s.clone()),
        _ => Err("ERR Protocol error: expected string".to_owned()),
    }
}

impl Cmd {
    /// The command named `name`, already in upper case, whose arguments are
    /// `frames[1..]`.
    pub fn from_name(name: &str, frames: &Vec<Frame>) -> (r: Result<Cmd, String>)
        requires
            frames@.len() > 0,
        ensures
            match command_of_name(name@, frames_view(frames@)) {
                Ok(c) => r matches Ok(x) && x@ == c,
                Err(e) => r matches Err(x) && x@ == e,
            },
    {
        proof {
            lemma_frames_view_len(frames@);
        }
        let cs = text_chars(name);
        let n = cs.as_slice();
        if is_text(n, "GET") {
            if frames.len() != 2 {
                return Err("ERR wrong number of arguments for 'get' command".to_owned());
            }
            match get_string(&frames[1]) {
                Ok(k) => Ok(Cmd::Get(k)),
                Err(e) => Err(e),
            }
        } else if is_text(n, "SET") {
            if frames.len() != 3 {
                return Err("ERR wrong number of arguments for 'set' command".to_owned());
            }
            let val_str = match get_string(&frames[2]) {
                Ok(v) => v,
                Err(e) => return Err(e),
            };
            let value = match Value::from_str(val_str.as_str()) {
                Ok(v) => v,
                Err(e) => return Err(e),
            };
            match get_string(&frames[1]) {
                Ok(k) => Ok(Cmd::SetValue(k, value)),
                Err(e) => Err(e),
            }
        } else if is_text(n, "DEL") || is_text(n, "DELETE") {
            if frames.len() != 2 {
                return Err("ERR wrong number of arguments for 'del' command".to_owned());
            }
            match get_string(&frames[1]) {
                Ok(k) => Ok(Cmd::Delete(k)),
                Err(e) => Err(e),
            }
        } else if is_text(n, "SEE") || is_text(n, "KEYS") {
            Ok(Cmd::See)
        } else if is_text(n, "SNAPSHOT") || is_text(n, "SAVE") || is_text(n, "BGSAVE") {
            Ok(Cmd::Snapshot)
        } else {
            let mut msg = "ERR unknown command '".to_owned();
            msg.append(name);
            msg.append("'");
            Err(msg)
        }
    }

    /// The command that a frame stands for, or the error message sent back
    /// for it.
    pub fn try_from(frame: Frame) -> (r: Result<Cmd, String>)
        ensures
            match command_of(frame@) {
                Ok(c) => r matches Ok(x) && x@ == c,
                Err(e) => r matches Err(x) && x@ == e,
            },
    {
        let frames = match frame {
            Frame::Array(Some(arr)) => arr,
            _ => return Err("ERR Protocol error: expected array".to_owned()),
        };
        proof {
            lemma_frames_view_len(frames@);
        }
        if frames.len() == 0 {
            return Err("ERR Protocol error: empty command".to_owned());
        }
        let name = match get_string(&frames[0]) {
            Ok(s) => s,
            Err(e) => return Err(e),
        };
        let upper = to_uppercase(name.as_str());
        assert(upper@ == upper_text(name@));
        Cmd::from_name(upper.as_str(), &frames)
    }
}


/// The request frame that a client sends for a command: an array of bulk
/// strings holding the UTF-8 of each word.
pub open spec fn request_frame(words: Seq<Seq<char>>) -> FrameView {
    FrameView::Array(Some(words.map_values(|w: Seq<char>| FrameView::Bulk(Some(encode_utf8(w))))))
}

proof fn lemma_word(w: Seq<char>)
    ensures
        string_of_frame(FrameView::Bulk(Some(encode_utf8(w)))) == Ok::<Seq<char>, Seq<char>>(w),
{
    encode_utf8_valid_utf8(w);
    encode_utf8_decode_utf8(w);
}

/// Law: `GET` with a key, its name in upper or lower case, asks for exactly
/// that key.
pub proof fn law_get_keeps_the_key(lower: bool, k: Seq<char>)
    ensures
        command_of(request_frame(seq![if lower { "get"@ } else { "GET"@ }, k])) == Ok::<
            CmdView,
            Seq<char>,
        >(CmdView::Get(k)),
{
    reveal_strlit("GET");
    reveal_strlit("get");
    let name = if lower { "get"@ } else { "GET"@ };
    let f = request_frame(seq![name, k]);
    lemma_word(name);
    lemma_word(k);
    assert(is_ascii_chars(name));
    assert(name.map_values(|c: char| ascii_upper(c)) =~= "GET"@);
    if let FrameView::Array(Some(fs)) = f {
        assert(fs.len() == 2);
        assert(fs[0] == FrameView::Bulk(Some(encode_utf8(name))));
        assert(fs[1] == FrameView::Bulk(Some(encode_utf8(k))));
    }
}

/// Law: `DEL` or `DELETE` with a key, its name in upper or lower case, removes
/// exactly that key.
pub proof fn law_del_keeps_the_key(long: bool, lower: bool, k: Seq<char>)
    ensures
        ({
            let name = if long {
                if lower {
                    "delete"@
                } else {
                    "DELETE"@
                }
            } else {
                if lower {
                    "del"@
                } else {
                    "DEL"@
                }
            };
            command_of(request_frame(seq![name, k])) == Ok::<CmdView, Seq<char>>(
                CmdView::Delete(k),
            )
        }),
{
    reveal_strlit("DEL");
    reveal_strlit("del");
    reveal_strlit("DELETE");
    reveal_strlit("delete");
    reveal_strlit("GET");
    reveal_strlit("SET");
    let name = if long {
        if lower {
            "delete"@
        } else {
            "DELETE"@
        }
    } else {
        if lower {
            "del"@
        } else {
            "DEL"@
        }
    };
    let upper = if long {
        "DELETE"@
    } else {
        "DEL"@
    };
    let f = request_frame(seq![name, k]);
    lemma_word(name);
    lemma_word(k);
    assert(is_ascii_chars(name));
    assert(name.map_values(|c: char| ascii_upper(c)) =~= upper);
    assert(upper != "GET"@) by {
        assert(upper[0] != "GET"@[0]);
    }
    assert(upper != "SET"@) by {
        assert(upper[0] != "SET"@[0]);
    }
    if let FrameView::Array(Some(fs)) = f {
        assert(fs.len() == 2);
        assert(fs[0] == FrameView::Bulk(Some(encode_utf8(name))));
        assert(fs[1] == FrameView::Bulk(Some(encode_utf8(k))));
    }
}

/// Law: `SET` with a key and a value's text, its name in upper or lower case,
/// stores under exactly that key the value read from the text.
pub proof fn law_set_keeps_the_key(lower: bool, k: Seq<char>, v: Seq<char>)
    ensures
        command_of(request_frame(seq![if lower { "set"@ } else { "SET"@ }, k, v])) == Ok::<
            CmdView,
            Seq<char>,
        >(CmdView::SetValue(k, value_of(v))),
{
    reveal_strlit("SET");
    reveal_strlit("set");
    reveal_strlit("GET");
    let name = if lower { "set"@ } else { "SET"@ };
    let f = request_frame(seq![name, k, v]);
    lemma_word(name);
    lemma_word(k);
    lemma_word(v);
    assert(is_ascii_chars(name));
    assert(name.map_values(|c: char| ascii_upper(c)) =~= "SET"@);
    assert("SET"@ != "GET"@) by {
        assert("SET"@[0] != "GET"@[0]);
    }
    if let FrameView::Array(Some(fs)) = f {
        assert(fs.len() == 3);
        assert(fs[0] == FrameView::Bulk(Some(encode_utf8(name))));
        assert(fs[1] == FrameView::Bulk(Some(encode_utf8(k))));
        assert(fs[2] == FrameView::Bulk(Some(encode_utf8(v))));
    }
}


proof fn lemma_request_head(name: Seq<char>, rest: Seq<Seq<char>>)
    ensures
        request_frame(seq![name] + rest) matches FrameView::Array(Some(fs)) && fs.len() == 1
            + rest.len() && string_of_frame(fs[0]) == Ok::<Seq<char>, Seq<char>>(name),
{
    lemma_word(name);
    let ws = seq![name] + rest;
    assert(ws[0] == name);
}

/// Law: `SEE` or `KEYS`, in upper or lower case, lists the store, whatever
/// words follow it.
pub proof fn law_see_names(name: Seq<char>, rest: Seq<Seq<char>>)
    requires
        name == "SEE"@ || name == "see"@ || name == "KEYS"@ || name == "keys"@,
    ensures
        command_of(request_frame(seq![name] + rest)) == Ok::<CmdView, Seq<char>>(CmdView::See),
{
    reveal_strlit("SEE");
    reveal_strlit("see");
    reveal_strlit("KEYS");
    reveal_strlit("keys");
    reveal_strlit("GET");
    reveal_strlit("SET");
    reveal_strlit("DEL");
    reveal_strlit("DELETE");
    lemma_request_head(name, rest);
    assert(is_ascii_chars(name));
    let up = name.map_values(|c: char| ascii_upper(c));
    if name == "SEE"@ || name == "see"@ {
        assert(up =~= "SEE"@);
        assert("SEE"@ != "GET"@ && "SEE"@ != "SET"@ && "SEE"@ != "DEL"@ && "SEE"@ != "DELETE"@) by {
            assert("SEE"@[0] != "GET"@[0]);
            assert("SEE"@[2] != "SET"@[2]);
            assert("SEE"@[0] != "DEL"@[0]);
            assert("SEE"@.len() != "DELETE"@.len());
        }
    } else {
        assert(up =~= "KEYS"@);
        assert("KEYS"@ != "GET"@ && "KEYS"@ != "SET"@ && "KEYS"@ != "DEL"@ && "KEYS"@ != "DELETE"@) by {
            assert("KEYS"@.len() != "GET"@.len());
            assert("KEYS"@.len() != "SET"@.len());
            assert("KEYS"@.len() != "DEL"@.len());
            assert("KEYS"@.len() != "DELETE"@.len());
        }
    }
}

/// Law: `SNAPSHOT`, `SAVE` or `BGSAVE`, in upper or lower case, asks for a
/// snapshot, whatever words follow it.
pub proof fn law_snapshot_names(name: Seq<char>, rest: Seq<Seq<char>>)
    requires
        name == "SNAPSHOT"@ || name == "snapshot"@ || name == "SAVE"@ || name == "save"@ || name
            == "BGSAVE"@ || name == "bgsave"@,
    ensures
        command_of(request_frame(seq![name] + rest)) == Ok::<CmdView, Seq<char>>(
            CmdView::Snapshot,
        ),
{
    reveal_strlit("SNAPSHOT");
    reveal_strlit("snapshot");
    reveal_strlit("SAVE");
    reveal_strlit("save");
    reveal_strlit("BGSAVE");
    reveal_strlit("bgsave");
    reveal_strlit("GET");
    reveal_strlit("SET");
    reveal_strlit("DEL");
    reveal_strlit("DELETE");
    reveal_strlit("SEE");
    reveal_strlit("KEYS");
    lemma_request_head(name, rest);
    assert(is_ascii_chars(name));
    let up = name.map_values(|c: char| ascii_upper(c));
    let u = if name == "SNAPSHOT"@ || name == "snapshot"@ {
        "SNAPSHOT"@
    } else if name == "SAVE"@ || name == "save"@ {
        "SAVE"@
    } else {
        "BGSAVE"@
    };
    assert(up =~= u);
    assert(u != "GET"@ && u != "SET"@ && u != "DEL"@ && u != "DELETE"@ && u != "SEE"@ && u
        != "KEYS"@) by {
        assert(u[0] != "GET"@[0] && u[0] != "DEL"@[0] && u[0] != "KEYS"@[0]);
        assert(u.len() != "DELETE"@.len() || u[0] != "DELETE"@[0]);
        if u == "SAVE"@ {
            assert(u.len() != "SET"@.len() && u.len() != "SEE"@.len());
        } else {
            assert(u[0] != "SET"@[0] || u[1] != "SET"@[1]);
            assert(u[0] != "SEE"@[0] || u[1] != "SEE"@[1]);
        }
    }
}

} // verus!
