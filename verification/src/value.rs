//! Stored values and how a value is read from its text.
use vstd::prelude::*;
use crate::decimal::{parse_i64_text, parse_i64};
use crate::text::{text_chars, string_of_chars, chars_equal};
use vstd::slice::slice_subrange;

verus! {

/// A stored value. A floating-point number is kept as the text it was read
/// from; that text is one that `f64`'s `FromStr` accepts.
#[derive(Debug, PartialEq)]
pub enum Value {
    String(String),
    Integer(i64),
    Float(String),
    Boolean(bool),
    List(Vec<Value>),
}

/// The mathematical value of a `Value`.
#[verifier::ext_equal]
pub enum ValueView {
    Text(Seq<char>),
    Integer(i64),
    Float(Seq<char>),
    Boolean(bool),
    List(Seq<ValueView>),
}

pub open spec fn value_view(v: Value) -> ValueView
    decreases v,
{
    match v {
        Value::String(s) => ValueView::Text(s@),
        Value::Integer(i) => ValueView::Integer(i),
        Value::Float(s) => ValueView::Float(s@),
        Value::Boolean(b) => ValueView::Boolean(b),
        Value::List(items) => ValueView::List(values_view(items@)),
    }
}

pub open spec fn values_view(s: Seq<Value>) -> Seq<ValueView>
    decreases s,
{
    if s.len() == 0 {
        seq![]
    } else {
        values_view(s.drop_last()).push(value_view(s.last()))
    }
}

impl View for Value {
    type V = ValueView;

    open spec fn view(&self) -> ValueView {
        value_view(*self)
    }
}

pub proof fn lemma_values_view_step(s: Seq<Value>, v: Value)
    ensures
        values_view(s.push(v)) == values_view(s).push(value_view(v)),
{
    assert(s.push(v).drop_last() =~= s);
}

pub proof fn lemma_values_view_len(s: Seq<Value>)
    ensures
        values_view(s).len() == s.len(),
        forall|k: int| 0 <= k < s.len() ==> #[trigger] values_view(s)[k] == value_view(s[k]),
    decreases s.len(),
{
    if s.len() > 0 {
        lemma_values_view_len(s.drop_last());
    }
}

impl Value {
    /// A copy of the value.
    pub fn duplicate(&self) -> (r: Value)
        ensures
            r@ == self@,
        decreases self,
    {
        match self {
            Value::String(s) => Value::String(s.clone()),
            Value::Integer(i) => Value::Integer(*i),
            Value::Float(s) => Value::Float(s.clone()),
            Value::Boolean(b) => Value::Boolean(*b),
            Value::List(items) => {
                let mut out: Vec<Value> = Vec::new();
                let mut i: usize = 0;
                while i < items.len()
                    invariant
                        i <= items@.len(),
                        *self == Value::List(*items),
                        values_view(out@) == values_view(items@.take(i as int)),
                    decreases items@.len() - i,
                {
                    proof {
                        assert(decreases_to!(*self => (*self)->List_0));
                        assert(decreases_to!((*self)->List_0 => items@));
                        assert(decreases_to!(items@ => items@[i as int]));
                        lemma_values_view_step(out@, items@[i as int]);
                        assert(items@.take(i + 1) =~= items@.take(i as int).push(items@[i as int]));
                        lemma_values_view_step(items@.take(i as int), items@[i as int]);
                    }
                    let v = items[i].duplicate();
                    proof {
                        lemma_values_view_step(out@, v);
                    }
                    out.push(v);
                    i = i + 1;
                }
                assert(items@.take(items@.len() as int) =~= items@);
                Value::List(out)
            },
        }
    }
}

impl Clone for Value {
    fn clone(&self) -> (r: Self)
        ensures
            r@ == self@,
    {
        self.duplicate()
    }
}

/// Characters that Rust's `char::is_whitespace` accepts: those with the
/// Unicode `White_Space` property.
pub open spec fn is_ws(c: char) -> bool {
    ||| '\u{9}' <= c <= '\u{d}'
    ||| c == ' '
    ||| c == '\u{85}'
    ||| c == '\u{a0}'
    ||| c == '\u{1680}'
    ||| '\u{2000}' <= c <= '\u{200a}'
    ||| c == '\u{2028}'
    ||| c == '\u{2029}'
    ||| c == '\u{202f}'
    ||| c == '\u{205f}'
    ||| c == '\u{3000}'
}

/// The first position at or after `i` that holds no whitespace.
pub open spec fn skip_ws(t: Seq<char>, i: int) -> int
    decreases t.len() - i,
{
    if 0 <= i < t.len() && is_ws(t[i]) {
        skip_ws(t, i + 1)
    } else {
        i
    }
}

/// The end of `t[lo..j]` with its trailing whitespace taken off.
pub open spec fn skip_ws_back(t: Seq<char>, lo: int, j: int) -> int
    decreases j - lo,
{
    if lo < j <= t.len() && is_ws(t[j - 1]) {
        skip_ws_back(t, lo, j - 1)
    } else {
        j
    }
}

/// `str::trim`: the text without its leading and trailing whitespace.
pub open spec fn trim(t: Seq<char>) -> Seq<char> {
    let lo = skip_ws(t, 0);
    t.subrange(lo, skip_ws_back(t, lo, t.len() as int))
}

pub proof fn lemma_skip_ws(t: Seq<char>, i: int)
    requires
        0 <= i <= t.len(),
    ensures
        i <= skip_ws(t, i) <= t.len(),
        forall|k: int| i <= k < skip_ws(t, i) ==> is_ws(#[trigger] t[k]),
        skip_ws(t, i) < t.len() ==> !is_ws(t[skip_ws(t, i)]),
    decreases t.len() - i,
{
    if i < t.len() && is_ws(t[i]) {
        lemma_skip_ws(t, i + 1);
    }
}

pub proof fn lemma_skip_ws_back(t: Seq<char>, lo: int, j: int)
    requires
        0 <= lo <= j <= t.len(),
    ensures
        lo <= skip_ws_back(t, lo, j) <= j,
        forall|k: int| skip_ws_back(t, lo, j) <= k < j ==> is_ws(#[trigger] t[k]),
        skip_ws_back(t, lo, j) > lo ==> !is_ws(t[skip_ws_back(t, lo, j) - 1]),
    decreases j - lo,
{
    if lo < j && is_ws(t[j - 1]) {
        lemma_skip_ws_back(t, lo, j - 1);
    }
}

pub proof fn lemma_trim_len(t: Seq<char>)
    ensures
        trim(t).len() <= t.len(),
{
    lemma_skip_ws(t, 0);
    lemma_skip_ws_back(t, skip_ws(t, 0), t.len() as int);
}

/// An ASCII digit.
pub open spec fn is_digit_char(c: char) -> bool {
    '0' <= c <= '9'
}

/// The end of the run of digits that starts at `i`.
pub open spec fn digits_end(t: Seq<char>, i: int) -> int
    decreases t.len() - i,
{
    if 0 <= i < t.len() && is_digit_char(t[i]) {
        digits_end(t, i + 1)
    } else {
        i
    }
}

/// `t` without one leading `+` or `-`.
pub open spec fn drop_sign(t: Seq<char>) -> Seq<char> {
    if t.len() > 0 && (t[0] == '+' || t[0] == '-') {
        t.skip(1)
    } else {
        t
    }
}

/// `t` is the ASCII word whose lower-case letters are `lower` and whose
/// upper-case letters are `upper`, each letter in either case.
pub open spec fn is_word_ignoring_case(t: Seq<char>, lower: Seq<char>, upper: Seq<char>) -> bool {
    &&& t.len() == lower.len()
    &&& t.len() == upper.len()
    &&& forall|k: int| 0 <= k < t.len() ==> (#[trigger] t[k] == lower[k] || t[k] == upper[k])
}

/// Digits with at most one `.` among them and at least one digit, then
/// optionally `e` or `E`, an optional sign and at least one digit.
pub open spec fn is_decimal_number(r: Seq<char>) -> bool {
    let a = digits_end(r, 0);
    let dot = a < r.len() && r[a] == '.';
    let b = if dot { digits_end(r, a + 1) } else { a };
    let count = if dot { a + (b - (a + 1)) } else { a };
    &&& count > 0
    &&& (b == r.len() || ((r[b] == 'e' || r[b] == 'E') && {
        let x = drop_sign(r.skip(b + 1));
        x.len() > 0 && digits_end(x, 0) == x.len()
    }))
}

/// Texts that `f64`'s `FromStr` accepts: an optional sign, then `inf`,
/// `infinity`, `nan` in any case, or a decimal number with an optional exponent.
pub open spec fn is_float_text(t: Seq<char>) -> bool {
    let r = drop_sign(t);
    ||| is_word_ignoring_case(r, seq!['i', 'n', 'f'], seq!['I', 'N', 'F'])
    ||| is_word_ignoring_case(
        r,
        seq!['i', 'n', 'f', 'i', 'n', 'i', 't', 'y'],
        seq!['I', 'N', 'F', 'I', 'N', 'I', 'T', 'Y'],
    )
    ||| is_word_ignoring_case(r, seq!['n', 'a', 'n'], seq!['N', 'A', 'N'])
    ||| is_decimal_number(r)
}

/// `str::parse::<i64>` on a text: digits are ASCII, so a text with another
/// character is never a number, and an ASCII text reads as its bytes do.
pub open spec fn parse_i64_chars(t: Seq<char>) -> Option<i64> {
    if forall|k: int| 0 <= k < t.len() ==> '\x7f' >= #[trigger] t[k] {
        parse_i64_text(Seq::new(t.len(), |k: int| t[k] as u8))
    } else {
        None
    }
}

/// The position of the last `,` before position `j`.
pub open spec fn last_comma(t: Seq<char>, j: int) -> Option<int>
    decreases j,
{
    if j <= 0 || j > t.len() {
        None
    } else if t[j - 1] == ',' {
        Some(j - 1)
    } else {
        last_comma(t, j - 1)
    }
}

/// The value that `Value::from_str` reads from a text.
pub open spec fn value_of(s: Seq<char>) -> ValueView
    decreases s.len(), 1int,
{
    let t = trim(s);
    let n = t.len() as int;
    if n >= 2 && t[0] == '[' && t[n - 1] == ']' {
        let inner = t.subrange(1, n - 1);
        if trim(inner).len() == 0 {
            ValueView::List(seq![])
        } else {
            proof {
                lemma_trim_len(s);
            }
            ValueView::List(list_values(inner))
        }
    } else if parse_i64_chars(t) is Some {
        ValueView::Integer(parse_i64_chars(t)->0)
    } else if is_float_text(t) {
        ValueView::Float(t)
    } else if t == seq!['t', 'r', 'u', 'e'] {
        ValueView::Boolean(true)
    } else if t == seq!['f', 'a', 'l', 's', 'e'] {
        ValueView::Boolean(false)
    } else if n >= 2 && t[0] == '"' && t[n - 1] == '"' {
        ValueView::Text(t.subrange(1, n - 1))
    } else {
        ValueView::Text(s)
    }
}

/// The values of the comma-separated items of `t`, each read from its
/// trimmed text.
pub open spec fn list_values(t: Seq<char>) -> Seq<ValueView>
    decreases t.len(), 2int,
{
    proof {
        lemma_last_comma_bounds(t, t.len() as int);
    }
    match last_comma(t, t.len() as int) {
        None => {
            proof {
                lemma_trim_len(t);
            }
            seq![value_of(trim(t))]
        },
        Some(c) => {
            let piece = t.subrange(c + 1, t.len() as int);
            proof {
                lemma_trim_len(piece);
            }
            list_values(t.subrange(0, c)).push(value_of(trim(piece)))
        },
    }
}

pub proof fn lemma_last_comma_bounds(t: Seq<char>, j: int)
    ensures
        last_comma(t, j) matches Some(c) ==> 0 <= c < j && t[c] == ',',
    decreases j,
{
    if 0 < j <= t.len() && t[j - 1] != ',' {
        lemma_last_comma_bounds(t, j - 1);
    }
}


fn is_ws_char(c: char) -> (b: bool)
    ensures
        b == is_ws(c),
{
    ('\u{9}' <= c && c <= '\u{d}') || c == ' ' || c == '\u{85}' || c == '\u{a0}' || c == '\u{1680}'
        || ('\u{2000}' <= c && c <= '\u{200a}') || c == '\u{2028}' || c == '\u{2029}' || c
        == '\u{202f}' || c == '\u{205f}' || c == '\u{3000}'
}

/// The bounds of `trim(cs)` within `cs`.
fn trim_bounds(cs: &[char]) -> (r: (usize, usize))
    ensures
        r.0 <= r.1 <= cs@.len(),
        cs@.subrange(r.0 as int, r.1 as int) == trim(cs@),
{
    let n = cs.len();
    let ghost t = cs@;
    let mut a: usize = 0;
    while a < n && is_ws_char(cs[a])
        invariant
            a <= n,
            n == t.len(),
            cs@ == t,
            skip_ws(t, a as int) == skip_ws(t, 0),
        decreases n - a,
    {
        a = a + 1;
    }
    let mut b: usize = n;
    while b > a && is_ws_char(cs[b - 1])
        invariant
            a <= b <= n,
            n == t.len(),
            cs@ == t,
            skip_ws(t, 0) == a,
            skip_ws_back(t, a as int, b as int) == skip_ws_back(t, a as int, n as int),
        decreases b,
    {
        b = b - 1;
    }
    (a, b)
}

fn is_digit_at(cs: &[char], i: usize) -> (b: bool)
    ensures
        b == (i < cs@.len() && is_digit_char(cs@[i as int])),
{
    i < cs.len() && '0' <= cs[i] && cs[i] <= '9'
}

/// The end of the run of digits in `cs` that starts at `i`.
fn digits_end_of(cs: &[char], i: usize) -> (r: usize)
    requires
        i <= cs@.len(),
    ensures
        r == digits_end(cs@, i as int),
        i <= r <= cs@.len(),
{
    let mut j = i;
    while is_digit_at(cs, j)
        invariant
            i <= j <= cs@.len(),
            cs@.len() == cs.len(),
            digits_end(cs@, j as int) == digits_end(cs@, i as int),
        decreases cs@.len() - j,
    {
        j = j + 1;
    }
    j
}

fn drop_sign_of(cs: &[char]) -> (r: &[char])
    ensures
        r@ == drop_sign(cs@),
{
    if cs.len() > 0 && (cs[0] == '+' || cs[0] == '-') {
        slice_subrange(cs, 1, cs.len())
    } else {
        cs
    }
}

/// Whether `cs` is the word with letters `lower` or `upper` in either case.
fn is_word_of(cs: &[char], lower: &[char], upper: &[char]) -> (b: bool)
    ensures
        b == is_word_ignoring_case(cs@, lower@, upper@),
{
    if cs.len() != lower.len() || cs.len() != upper.len() {
        return false;
    }
    let mut i: usize = 0;
    while i < cs.len()
        invariant
            i <= cs@.len(),
            cs@.len() == lower@.len(),
            cs@.len() == upper@.len(),
            forall|k: int| 0 <= k < i ==> (#[trigger] cs@[k] == lower@[k] || cs@[k] == upper@[k]),
        decreases cs@.len() - i,
    {
        if cs[i] != lower[i] && cs[i] != upper[i] {
            return false;
        }
        i = i + 1;
    }
    true
}

/// Whether `r` is a decimal number as `is_decimal_number` describes.
fn is_decimal_number_of(r: &[char]) -> (b: bool)
    ensures
        b == is_decimal_number(r@),
{
    let n = r.len();
    let a = digits_end_of(r, 0);
    let dot = a < n && r[a] == '.';
    let b = if dot { digits_end_of(r, a + 1) } else { a };
    let count = if dot { a + (b - (a + 1)) } else { a };
    if count == 0 {
        return false;
    }
    if b == n {
        return true;
    }
    if r[b] != 'e' && r[b] != 'E' {
        return false;
    }
    let x = drop_sign_of(slice_subrange(r, b + 1, n));
    x.len() > 0 && digits_end_of(x, 0) == x.len()
}

/// Whether `f64`'s `FromStr` accepts the text `cs`.
fn is_float_of(cs: &[char]) -> (b: bool)
    ensures
        b == is_float_text(cs@),
{
    let r = drop_sign_of(cs);
    let inf = ['i', 'n', 'f'];
    let inf_up = ['I', 'N', 'F'];
    let infinity = ['i', 'n', 'f', 'i', 'n', 'i', 't', 'y'];
    let infinity_up = ['I', 'N', 'F', 'I', 'N', 'I', 'T', 'Y'];
    let nan = ['n', 'a', 'n'];
    let nan_up = ['N', 'A', 'N'];
    proof {
        assert(inf@ =~= seq!['i', 'n', 'f']);
        assert(inf_up@ =~= seq!['I', 'N', 'F']);
        assert(infinity@ =~= seq!['i', 'n', 'f', 'i', 'n', 'i', 't', 'y']);
        assert(infinity_up@ =~= seq!['I', 'N', 'F', 'I', 'N', 'I', 'T', 'Y']);
        assert(nan@ =~= seq!['n', 'a', 'n']);
        assert(nan_up@ =~= seq!['N', 'A', 'N']);
    }
    is_word_of(r, inf.as_slice(), inf_up.as_slice()) || is_word_of(
        r,
        infinity.as_slice(),
        infinity_up.as_slice(),
    ) || is_word_of(r, nan.as_slice(), nan_up.as_slice()) || is_decimal_number_of(r)
}

/// `str::parse::<i64>` on the text `cs`.
fn parse_i64_of(cs: &[char]) -> (r: Option<i64>)
    ensures
        r == parse_i64_chars(cs@),
{
    let mut bytes: Vec<u8> = Vec::new();
    let mut i: usize = 0;
    while i < cs.len()
        invariant
            i <= cs@.len(),
            bytes@.len() == i,
            forall|k: int| 0 <= k < i ==> '\x7f' >= #[trigger] cs@[k],
            forall|k: int| 0 <= k < i ==> #[trigger] bytes@[k] == cs@[k] as u8,
        decreases cs@.len() - i,
    {
        let c = cs[i];
        if c > '\x7f' {
            return None;
        }
        bytes.push(c as u8);
        i = i + 1;
    }
    assert(bytes@ =~= Seq::new(cs@.len(), |k: int| cs@[k] as u8));
    parse_i64(bytes.as_slice())
}

proof fn lemma_last_comma_none(t: Seq<char>, j: int)
    requires
        0 <= j <= t.len(),
        forall|k: int| 0 <= k < j ==> #[trigger] t[k] != ',',
    ensures
        last_comma(t, j) is None,
    decreases j,
{
    if j > 0 {
        lemma_last_comma_none(t, j - 1);
    }
}

proof fn lemma_last_comma_at(t: Seq<char>, c: int, j: int)
    requires
        0 <= c < j <= t.len(),
        t[c] == ',',
        forall|k: int| c < k < j ==> #[trigger] t[k] != ',',
    ensures
        last_comma(t, j) == Some(c),
    decreases j,
{
    if j - 1 > c {
        lemma_last_comma_at(t, c, j - 1);
    }
}

/// Reads a value from the text `cs`, as `value_of` describes.
fn value_from_chars(cs: &[char]) -> (v: Value)
    ensures
        v@ == value_of(cs@),
    decreases cs@.len(), 1int,
{
    let ghost s = cs@;
    let (lo, hi) = trim_bounds(cs);
    let t = slice_subrange(cs, lo, hi);
    let n = t.len();
    if n >= 2 && t[0] == '[' && t[n - 1] == ']' {
        let inner = slice_subrange(t, 1, n - 1);
        let (a, b) = trim_bounds(inner);
        if a == b {
            let empty: Vec<Value> = Vec::new();
            proof {
                assert(values_view(empty@) =~= Seq::<ValueView>::empty());
            }
            return Value::List(empty);
        }
        proof {
            lemma_trim_len(s);
        }
        let items = list_from_chars(inner);
        return Value::List(items);
    }
    match parse_i64_of(t) {
        Some(i) => {
            return Value::Integer(i);
        },
        None => {},
    }
    if is_float_of(t) {
        return Value::Float(string_of_chars(t, 0, n));
    }
    let tru = ['t', 'r', 'u', 'e'];
    let fal = ['f', 'a', 'l', 's', 'e'];
    proof {
        assert(tru@ =~= seq!['t', 'r', 'u', 'e']);
        assert(fal@ =~= seq!['f', 'a', 'l', 's', 'e']);
    }
    if chars_equal(t, tru.as_slice()) {
        return Value::Boolean(true);
    }
    if chars_equal(t, fal.as_slice()) {
        return Value::Boolean(false);
    }
    if n >= 2 && t[0] == '"' && t[n - 1] == '"' {
        return Value::String(string_of_chars(t, 1, n - 1));
    }
    Value::String(string_of_chars(cs, 0, cs.len()))
}

/// Reads the values of the comma-separated items of `cs`.
fn list_from_chars(cs: &[char]) -> (vs: Vec<Value>)
    ensures
        values_view(vs@) == list_values(cs@),
    decreases cs@.len(), 2int,
{
    let ghost t = cs@;
    let n = cs.len();
    let mut out: Vec<Value> = Vec::new();
    let mut start: usize = 0;
    let mut i: usize = 0;
    while i < n
        invariant
            start <= i <= n,
            n == t.len(),
            cs@ == t,
            forall|k: int| start <= k < i ==> #[trigger] t[k] != ',',
            start == 0 ==> out@.len() == 0,
            start > 0 ==> t[start - 1] == ',' && values_view(out@) == list_values(
                t.subrange(0, start - 1),
            ),
        decreases n - i,
    {
        if cs[i] == ',' {
            let piece = slice_subrange(cs, start, i);
            let (a, b) = trim_bounds(piece);
            let v = value_from_chars(slice_subrange(piece, a, b));
            proof {
                let u = t.subrange(0, i as int);
                assert(piece@ =~= u.subrange(start as int, i as int));
                if start == 0 {
                    assert forall|k: int| 0 <= k < i implies #[trigger] u[k] != ',' by {
                        assert(u[k] == t[k]);
                    }
                    lemma_last_comma_none(u, i as int);
                    assert(values_view(out@) =~= Seq::<ValueView>::empty());
                    assert(u =~= piece@);
                } else {
                    assert forall|k: int| start - 1 < k < i implies #[trigger] u[k] != ',' by {
                        assert(u[k] == t[k]);
                    }
                    lemma_last_comma_at(u, start - 1, i as int);
                    assert(u.subrange(0, start - 1) =~= t.subrange(0, start - 1));
                }
                lemma_values_view_step(out@, v);
            }
            out.push(v);
            start = i + 1;
        }
        i = i + 1;
    }
    let piece = slice_subrange(cs, start, n);
    let (a, b) = trim_bounds(piece);
    let v = value_from_chars(slice_subrange(piece, a, b));
    proof {
        if start == 0 {
            lemma_last_comma_none(t, n as int);
            assert(values_view(out@) =~= Seq::<ValueView>::empty());
            assert(t =~= piece@);
        } else {
            lemma_last_comma_at(t, start - 1, n as int);
            assert(piece@ =~= t.subrange(start as int, n as int));
        }
        lemma_values_view_step(out@, v);
    }
    out.push(v);
    out
}

impl Value {
    /// Reads a value from its text: a bracketed, comma-separated list; an
    /// integer; a floating-point number; `true` or `false`; a quoted string;
    /// and otherwise the text itself. Reading never fails.
    pub fn from_str(s: &str) -> (r: Result<Value, String>)
        ensures
            r matches Ok(v) && v@ == value_of(s@),
    {
        let cs = text_chars(s);
        Ok(value_from_chars(cs.as_slice()))
    }
}

} // verus!
