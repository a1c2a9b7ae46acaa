//! What reading a value from its text gives, stated over the shape of the text.
use vstd::prelude::*;
use crate::decimal::{is_digit, unsigned_part, all_digits, parse_i64_text, digits_value, decimal,
    nat_digits, lemma_nat_digits};
use crate::display::{lemma_trim_same, display_of, is_scalar, plain_char, lemma_scalar_text,
    lemma_last_comma_none, lemma_last_comma_at};
use crate::value::{ValueView, value_of, digits_end, drop_sign, is_decimal_number,
    is_float_text, parse_i64_chars, is_ws, trim, is_digit_char, skip_ws, skip_ws_back, list_values,
    last_comma, is_word_ignoring_case};

verus! {

/// Every character of `d` is one of the digits `0` to `9`.
pub open spec fn digit_chars(d: Seq<char>) -> bool {
    forall|k: int| 0 <= k < d.len() ==> '0' <= #[trigger] d[k] && d[k] <= '9'
}

/// No sign, `+` or `-`.
pub open spec fn sign_text(s: Seq<char>) -> bool {
    s == Seq::<char>::empty() || s == seq!['+'] || s == seq!['-']
}

proof fn lemma_digits_end_run(r: Seq<char>, i: int, j: int)
    requires
        0 <= i <= j <= r.len(),
        forall|k: int| i <= k < j ==> is_digit_char(#[trigger] r[k]),
        j == r.len() || !is_digit_char(r[j]),
    ensures
        digits_end(r, i) == j,
    decreases j - i,
{
    if i < j {
        lemma_digits_end_run(r, i + 1, j);
    }
}

/// A text with a character at `p` that is not a digit, a sign or anything
/// above ASCII past its first position, is no `i64`.
proof fn lemma_not_i64(t: Seq<char>, p: int)
    requires
        0 < p < t.len(),
        forall|k: int| 0 <= k < t.len() ==> 0 <= (#[trigger] t[k] as int) < 128,
        !('0' <= t[p] && t[p] <= '9'),
    ensures
        parse_i64_chars(t) is None,
{
    assert(forall|k: int| 0 <= k < t.len() ==> '\x7f' >= #[trigger] t[k]);
    let bytes = Seq::new(t.len(), |k: int| t[k] as u8);
    let body = unsigned_part(bytes);
    assert((t[p] as int) < 128);
    assert(bytes[p] == t[p] as u8);
    let ci: int = t[p] as int;
    assert(0 <= ci);
    assert(t[p] as u8 == ci as u8);
    assert((ci as u8) as int == ci);
    assert((t[p] as u8) as int == t[p] as int);
    assert(!is_digit(bytes[p]));
    if bytes.len() > 0 && (bytes[0] == 45u8 || bytes[0] == 43u8) {
        assert(body[p - 1] == bytes[p]);
        assert(!is_digit(body[p - 1]));
    } else {
        assert(!is_digit(body[p]));
    }
    assert(!all_digits(body));
    assert(parse_i64_text(bytes) is None);
}

/// The text of a number with a decimal point and its facts shared by the laws.
proof fn lemma_float_value(t: Seq<char>, sg: Seq<char>, r: Seq<char>, p: int)
    requires
        sign_text(sg),
        t == sg + r,
        r.len() > 0,
        r[0] == '.' || ('0' <= r[0] && r[0] <= '9'),
        '0' <= t[t.len() - 1] && t[t.len() - 1] <= '9' || t[t.len() - 1] == '.',
        forall|k: int| 0 <= k < t.len() ==> 0 <= (#[trigger] t[k] as int) < 128,
        0 < p < t.len(),
        !('0' <= t[p] && t[p] <= '9'),
        is_decimal_number(r),
    ensures
        value_of(t) == ValueView::Float(t),
{
    assert(!is_ws(t[0])) by {
        if sg.len() > 0 {
            assert(t[0] == sg[0]);
        } else {
            assert(t[0] == r[0]);
        }
    }
    lemma_trim_same(t);
    lemma_not_i64(t, p);
    assert(drop_sign(t) == r) by {
        if sg.len() > 0 {
            assert(t[0] == sg[0]);
            assert(t.skip(1) =~= r);
        } else {
            assert(t =~= r);
        }
    }
    assert(is_float_text(t));
    assert(t[0] != '[') by {
        if sg.len() > 0 {
            assert(t[0] == sg[0]);
        } else {
            assert(t[0] == r[0]);
        }
    }
}

/// Law: a number written with a decimal point (an optional sign, digits, a
/// `.`, digits, with at least one digit) is read as a floating-point number
/// kept as its text, as `f64`'s `FromStr` reads it.
pub proof fn law_point_number_is_float(sg: Seq<char>, d1: Seq<char>, d2: Seq<char>)
    requires
        sign_text(sg),
        digit_chars(d1),
        digit_chars(d2),
        d1.len() + d2.len() > 0,
    ensures
        value_of(sg + d1 + seq!['.'] + d2) == ValueView::Float(sg + d1 + seq!['.'] + d2),
{
    let r = d1 + seq!['.'] + d2;
    let t = sg + r;
    assert(sg + d1 + seq!['.'] + d2 =~= t);
    let a = d1.len() as int;
    assert forall|k: int| 0 <= k < a implies is_digit_char(#[trigger] r[k]) by {
        assert(r[k] == d1[k]);
    }
    assert(r[a] == '.');
    lemma_digits_end_run(r, 0, a);
    assert forall|k: int| a + 1 <= k < r.len() implies is_digit_char(#[trigger] r[k]) by {
        assert(r[k] == d2[k - a - 1]);
    }
    lemma_digits_end_run(r, a + 1, r.len() as int);
    assert(is_decimal_number(r));
    assert forall|k: int| 0 <= k < t.len() implies 0 <= (#[trigger] t[k] as int) < 128 by {
        if k < sg.len() {
            assert(t[k] == sg[k]);
        } else if k < sg.len() + a {
            assert(t[k] == d1[k - sg.len()]);
        } else if k > sg.len() + a {
            assert(t[k] == d2[k - sg.len() - a - 1]);
        }
    }
    let p = sg.len() + a;
    if p == 0 {
        assert(d2.len() > 0);
        assert(t[t.len() - 1] == d2[d2.len() - 1]);
        assert(r[0] == '.');
        lemma_float_value_at_front(t, r);
    } else {
        assert(t[p] == '.');
        assert(r[0] == '.' || ('0' <= r[0] && r[0] <= '9')) by {
            if a > 0 {
                assert(r[0] == d1[0]);
            }
        }
        assert('0' <= t[t.len() - 1] && t[t.len() - 1] <= '9' || t[t.len() - 1] == '.') by {
            if d2.len() > 0 {
                assert(t[t.len() - 1] == d2[d2.len() - 1]);
            }
        }
        lemma_float_value(t, sg, r, p);
    }
}

/// A number that starts with its point, such as `.5`, reads as a float.
proof fn lemma_float_value_at_front(t: Seq<char>, r: Seq<char>)
    requires
        t == r,
        r.len() > 1,
        r[0] == '.',
        is_decimal_number(r),
        '0' <= t[t.len() - 1] && t[t.len() - 1] <= '9',
        forall|k: int| 0 <= k < t.len() ==> 0 <= (#[trigger] t[k] as int) < 128,
    ensures
        value_of(t) == ValueView::Float(t),
{
    lemma_trim_same(t);
    let bytes = Seq::new(t.len(), |k: int| t[k] as u8);
    assert(forall|k: int| 0 <= k < t.len() ==> '\x7f' >= #[trigger] t[k]);
    assert(bytes[0] == t[0] as u8);
    assert((t[0] as u8) as int == t[0] as int);
    assert(unsigned_part(bytes) == bytes);
    assert(!is_digit(bytes[0]));
    assert(!all_digits(unsigned_part(bytes)));
    assert(parse_i64_chars(t) is None);
    assert(drop_sign(t) == r);
    assert(is_float_text(t));
}

#[verifier::rlimit(60)]
/// Law: a number with an exponent (an optional sign, digits with an optional
/// decimal point and at least one digit, `e` or `E`, an optional sign, and
/// digits) is read as a floating-point number kept as its text.
pub proof fn law_exponent_number_is_float(
    sg: Seq<char>,
    d1: Seq<char>,
    point: bool,
    d2: Seq<char>,
    ex: char,
    es: Seq<char>,
    d3: Seq<char>,
)
    requires
        sign_text(sg),
        sign_text(es),
        digit_chars(d1),
        digit_chars(d2),
        digit_chars(d3),
        d3.len() > 0,
        ex == 'e' || ex == 'E',
        d1.len() > 0 || (point && d2.len() > 0),
    ensures
        ({
            let m = if point { d1 + seq!['.'] + d2 } else { d1 };
            let t = sg + m + seq![ex] + es + d3;
            value_of(t) == ValueView::Float(t)
        }),
{
    let m = if point { d1 + seq!['.'] + d2 } else { d1 };
    let r = m + seq![ex] + es + d3;
    let t = sg + r;
    assert(sg + m + seq![ex] + es + d3 =~= t);
    let a = d1.len() as int;
    assert forall|k: int| 0 <= k < a implies is_digit_char(#[trigger] r[k]) by {
        assert(r[k] == d1[k]);
    }
    let b = m.len() as int;
    assert(r[b] == ex);
    if point {
        assert(r[a] == '.');
        lemma_digits_end_run(r, 0, a);
        assert forall|k: int| a + 1 <= k < b implies is_digit_char(#[trigger] r[k]) by {
            assert(r[k] == d2[k - a - 1]);
        }
        lemma_digits_end_run(r, a + 1, b);
    } else {
        lemma_digits_end_run(r, 0, a);
    }
    let x = drop_sign(r.skip(b + 1));
    assert(x =~= d3) by {
        if es.len() > 0 {
            assert(r.skip(b + 1)[0] == es[0]);
            assert(r.skip(b + 1).skip(1) =~= d3);
        } else {
            assert(r.skip(b + 1) =~= d3);
            assert(d3[0] == r.skip(b + 1)[0]);
        }
    }
    assert forall|k: int| 0 <= k < x.len() implies is_digit_char(#[trigger] x[k]) by {
        assert(x[k] == d3[k]);
    }
    lemma_digits_end_run(x, 0, x.len() as int);
    assert(is_decimal_number(r));
    assert forall|k: int| 0 <= k < t.len() implies 0 <= (#[trigger] t[k] as int) < 128 by {
        let q = k - sg.len();
        if k < sg.len() {
            assert(t[k] == sg[k]);
        } else if q < a {
            assert(t[k] == d1[q]);
        } else if point && q == a {
        } else if point && q < b {
            assert(t[k] == d2[q - a - 1]);
        } else if q == b {
        } else if q < b + 1 + es.len() {
            assert(t[k] == es[q - b - 1]);
        } else {
            assert(t[k] == d3[q - b - 1 - es.len()]);
        }
    }
    assert(t[t.len() - 1] == d3[d3.len() - 1]);
    if sg.len() + a == 0 {
        // the text starts with its point: `.5e3`
        assert(point);
        assert(r[0] == '.');
        assert(t =~= r);
        lemma_float_value_at_front(t, r);
    } else {
        let p = sg.len() + b;
        assert(t[p] == ex);
        assert(r[0] == '.' || ('0' <= r[0] && r[0] <= '9')) by {
            if a > 0 {
                assert(r[0] == d1[0]);
            }
        }
        lemma_float_value(t, sg, r, p);
    }
}

/// Law: a text between double quotes is read as a string holding exactly what
/// stands between them.
pub proof fn law_quoted_is_text(u: Seq<char>)
    ensures
        value_of(seq!['"'] + u + seq!['"']) == ValueView::Text(u),
{
    let t = seq!['"'] + u + seq!['"'];
    let n = t.len() as int;
    assert(t[0] == '"');
    assert(t[n - 1] == '"');
    lemma_trim_same(t);
    assert(t.subrange(1, n - 1) =~= u);
    let bytes = Seq::new(t.len(), |k: int| t[k] as u8);
    if forall|k: int| 0 <= k < t.len() ==> '\x7f' >= #[trigger] t[k] {
        assert(bytes[0] == t[0] as u8);
        assert((t[0] as u8) as int == t[0] as int);
        assert(unsigned_part(bytes) == bytes);
        assert(!is_digit(bytes[0]));
        assert(!all_digits(unsigned_part(bytes)));
    }
    assert(parse_i64_chars(t) is None);
    assert(drop_sign(t) == t);
    assert(digits_end(t, 0) == 0);
    assert(!is_decimal_number(t));
    assert(!is_float_text(t));
    assert(t != seq!['t', 'r', 'u', 'e']);
    assert(t != seq!['f', 'a', 'l', 's', 'e']);
}


/// The number that a text of decimal digits stands for.
pub open spec fn digits_number(d: Seq<char>) -> int
    decreases d.len(),
{
    if d.len() == 0 {
        0
    } else {
        digits_number(d.drop_last()) * 10 + (d.last() as int - 48)
    }
}

proof fn lemma_digits_number(d: Seq<char>, b: Seq<u8>)
    requires
        digit_chars(d),
        b.len() == d.len(),
        forall|k: int| 0 <= k < b.len() ==> #[trigger] b[k] as int == d[k] as int,
    ensures
        all_digits(b),
        digits_value(b) == digits_number(d),
    decreases d.len(),
{
    if d.len() > 0 {
        assert forall|k: int| 0 <= k < b.drop_last().len() implies #[trigger] b.drop_last()[k] as int
            == d.drop_last()[k] as int by {
            assert(b.drop_last()[k] == b[k]);
            assert(d.drop_last()[k] == d[k]);
        }
        assert(digit_chars(d.drop_last())) by {
            assert forall|k: int| 0 <= k < d.drop_last().len() implies '0' <= #[trigger] d.drop_last()[k]
                && d.drop_last()[k] <= '9' by {
                assert(d.drop_last()[k] == d[k]);
            }
        }
        lemma_digits_number(d.drop_last(), b.drop_last());
        assert(b.last() as int == d.last() as int);
        assert(is_digit(b[b.len() - 1]));
        assert forall|k: int| 0 <= k < b.len() implies is_digit(#[trigger] b[k]) by {
            if k < b.len() - 1 {
                assert(b.drop_last()[k] == b[k]);
            }
        }
    }
}

/// Law: an integer written with an optional sign and decimal digits, leading
/// zeros allowed, is read as that integer when it fits in an `i64`.
pub proof fn law_digits_are_integer(sg: Seq<char>, d: Seq<char>)
    requires
        sign_text(sg),
        digit_chars(d),
        d.len() > 0,
        i64::MIN <= (if sg == seq!['-'] { -digits_number(d) } else { digits_number(d) }) <= i64::MAX,
    ensures
        value_of(sg + d) == ValueView::Integer(
            (if sg == seq!['-'] {
                -digits_number(d)
            } else {
                digits_number(d)
            }) as i64,
        ),
{
    let t = sg + d;
    let v = if sg == seq!['-'] { -digits_number(d) } else { digits_number(d) };
    assert forall|k: int| 0 <= k < t.len() implies 0 <= (#[trigger] t[k] as int) < 128 by {
        if k < sg.len() {
            assert(t[k] == sg[k]);
        } else {
            assert(t[k] == d[k - sg.len()]);
        }
    }
    assert(t[t.len() - 1] == d[d.len() - 1]);
    assert(!is_ws(t[0])) by {
        if sg.len() > 0 {
            assert(t[0] == sg[0]);
        } else {
            assert(t[0] == d[0]);
        }
    }
    lemma_trim_same(t);
    assert(forall|k: int| 0 <= k < t.len() ==> '\x7f' >= #[trigger] t[k]);
    let bytes = Seq::new(t.len(), |k: int| t[k] as u8);
    assert forall|k: int| 0 <= k < bytes.len() implies #[trigger] bytes[k] as int == t[k] as int by {
        let ci: int = t[k] as int;
        assert(0 <= ci < 128);
        assert(t[k] as u8 == ci as u8);
    }
    let db = bytes.skip(sg.len() as int);
    assert forall|k: int| 0 <= k < db.len() implies #[trigger] db[k] as int == d[k] as int by {
        assert(db[k] == bytes[k + sg.len()]);
        assert(t[k + sg.len()] == d[k]);
    }
    lemma_digits_number(d, db);
    if sg.len() > 0 {
        assert(t[0] == sg[0]);
        assert(bytes[0] as int == t[0] as int);
        assert(unsigned_part(bytes) =~= db);
        assert((bytes[0] == 45u8) == (sg == seq!['-']));
    } else {
        assert(t[0] == d[0]);
        assert(bytes[0] as int == t[0] as int);
        assert(unsigned_part(bytes) =~= db);
        assert(bytes[0] != 45u8);
    }
    assert(parse_i64_text(bytes) == Some(v as i64));
    assert(t[0] != '[') by {
        if sg.len() > 0 {
            assert(t[0] == sg[0]);
        } else {
            assert(t[0] == d[0]);
        }
    }
}

/// Law: a text that begins with a letter which starts no number or boolean
/// word (any letter but `i`, `n` in either case, and `t`, `f`) and ends
/// without whitespace is stored as that text.
pub proof fn law_word_is_text(s: Seq<char>)
    requires
        s.len() > 0,
        ('a' <= s[0] && s[0] <= 'z') || ('A' <= s[0] && s[0] <= 'Z'),
        s[0] != 'i' && s[0] != 'I' && s[0] != 'n' && s[0] != 'N' && s[0] != 't' && s[0] != 'f',
        !is_ws(s[s.len() - 1]),
    ensures
        value_of(s) == ValueView::Text(s),
{
    lemma_trim_same(s);
    if forall|k: int| 0 <= k < s.len() ==> '\x7f' >= #[trigger] s[k] {
        let bytes = Seq::new(s.len(), |k: int| s[k] as u8);
        let ci: int = s[0] as int;
        assert(bytes[0] == s[0] as u8);
        assert(s[0] as u8 == ci as u8);
        assert(unsigned_part(bytes) == bytes);
        assert(!is_digit(bytes[0]));
        assert(!all_digits(unsigned_part(bytes)));
    }
    assert(parse_i64_chars(s) is None);
    assert(drop_sign(s) == s);
    assert(digits_end(s, 0) == 0);
    assert(!is_decimal_number(s));
    assert(!is_float_text(s));
    assert(s != seq!['t', 'r', 'u', 'e']);
    assert(s != seq!['f', 'a', 'l', 's', 'e']);
}


/// Every character of `w` is whitespace.
pub open spec fn all_ws(w: Seq<char>) -> bool {
    forall|k: int| 0 <= k < w.len() ==> is_ws(#[trigger] w[k])
}

proof fn lemma_skip_ws_to(t: Seq<char>, i: int, j: int)
    requires
        0 <= i <= j < t.len(),
        forall|k: int| i <= k < j ==> is_ws(#[trigger] t[k]),
        !is_ws(t[j]),
    ensures
        skip_ws(t, i) == j,
    decreases j - i,
{
    if i < j {
        lemma_skip_ws_to(t, i + 1, j);
    }
}

proof fn lemma_skip_ws_back_to(t: Seq<char>, lo: int, j: int, e: int)
    requires
        0 <= lo < e <= j <= t.len(),
        forall|k: int| e <= k < j ==> is_ws(#[trigger] t[k]),
        !is_ws(t[e - 1]),
    ensures
        skip_ws_back(t, lo, j) == e,
    decreases j - e,
{
    if e < j {
        lemma_skip_ws_back_to(t, lo, j - 1, e);
    }
}

/// Whitespace around a text whose ends are not whitespace is trimmed off.
proof fn lemma_trim_ws(w1: Seq<char>, d: Seq<char>, w2: Seq<char>)
    requires
        all_ws(w1),
        all_ws(w2),
        d.len() > 0,
        !is_ws(d[0]),
        !is_ws(d[d.len() - 1]),
    ensures
        trim(w1 + d + w2) == d,
{
    let t = w1 + d + w2;
    let a = w1.len() as int;
    let e = a + d.len();
    assert forall|k: int| 0 <= k < a implies is_ws(#[trigger] t[k]) by {
        assert(t[k] == w1[k]);
    }
    assert(t[a] == d[0]);
    lemma_skip_ws_to(t, 0, a);
    assert forall|k: int| e <= k < t.len() implies is_ws(#[trigger] t[k]) by {
        assert(t[k] == w2[k - e]);
    }
    assert(t[e - 1] == d[d.len() - 1]);
    lemma_skip_ws_back_to(t, a, t.len() as int, e);
    assert(t.subrange(a, e) =~= d);
}

proof fn lemma_trim_nonempty(t: Seq<char>, k: int)
    requires
        0 <= k < t.len(),
        !is_ws(t[k]),
    ensures
        trim(t).len() > 0,
{
    crate::value::lemma_skip_ws(t, 0);
    let lo = skip_ws(t, 0);
    assert(lo <= k);
    crate::value::lemma_skip_ws_back(t, lo, t.len() as int);
    assert(skip_ws_back(t, lo, t.len() as int) > k);
}

/// An item of a list as it may be written: its value's text with whitespace
/// before and after it.
pub open spec fn spaced(pre: Seq<char>, x: ValueView, post: Seq<char>) -> Seq<char> {
    pre + display_of(x) + post
}

/// The items written one after another with a `,` between each two, each
/// with the whitespace `pre[i]` before it and `post[i]` after it.
pub open spec fn spaced_items(s: Seq<ValueView>, pre: Seq<Seq<char>>, post: Seq<Seq<char>>) -> Seq<char>
    decreases s.len(),
{
    if s.len() == 0 {
        seq![]
    } else if s.len() == 1 {
        spaced(pre[0], s[0], post[0])
    } else {
        spaced_items(s.drop_last(), pre, post) + seq![','] + spaced(
            pre[s.len() - 1],
            s.last(),
            post[s.len() - 1],
        )
    }
}

proof fn lemma_spaced_items(s: Seq<ValueView>, pre: Seq<Seq<char>>, post: Seq<Seq<char>>)
    requires
        s.len() > 0,
        pre.len() >= s.len(),
        post.len() >= s.len(),
        forall|i: int| 0 <= i < s.len() ==> is_scalar(#[trigger] s[i]),
        forall|i: int| 0 <= i < pre.len() ==> all_ws(#[trigger] pre[i]),
        forall|i: int| 0 <= i < post.len() ==> all_ws(#[trigger] post[i]),
    ensures
        list_values(spaced_items(s, pre, post)) == s,
        exists|k: int|
            0 <= k < spaced_items(s, pre, post).len() && !is_ws(
                #[trigger] spaced_items(s, pre, post)[k],
            ),
    decreases s.len(),
{
    let n = s.len() as int;
    let t = spaced_items(s, pre, post);
    let x = s.last();
    assert(is_scalar(s[n - 1]));
    lemma_scalar_text(x);
    let d = display_of(x);
    let pr = pre[n - 1];
    let po = post[n - 1];
    assert(all_ws(pr));
    assert(all_ws(po));
    assert(plain_char(d[0]));
    assert(plain_char(d[d.len() - 1]));
    lemma_trim_ws(pr, d, po);
    let piece = pr + d + po;
    assert forall|k: int| 0 <= k < piece.len() implies #[trigger] piece[k] != ',' by {
        if k < pr.len() {
            assert(piece[k] == pr[k]);
        } else if k < pr.len() + d.len() {
            assert(piece[k] == d[k - pr.len()]);
            assert(plain_char(d[k - pr.len()]));
        } else {
            assert(piece[k] == po[k - pr.len() - d.len()]);
        }
    }
    if n == 1 {
        assert(t =~= piece);
        lemma_last_comma_none(t, t.len() as int);
        assert(seq![s[0]] =~= s);
        assert(t[pr.len() as int] == d[0]);
    } else {
        let init = s.drop_last();
        assert forall|i: int| 0 <= i < init.len() implies is_scalar(#[trigger] init[i]) by {
            assert(init[i] == s[i]);
        }
        lemma_spaced_items(init, pre, post);
        let a = spaced_items(init, pre, post);
        assert(t == a + seq![','] + piece);
        let c = a.len() as int;
        assert(t[c] == ',');
        assert forall|k: int| c < k < t.len() implies #[trigger] t[k] != ',' by {
            assert(t[k] == piece[k - c - 1]);
        }
        lemma_last_comma_at(t, c, t.len() as int);
        assert(t.subrange(c + 1, t.len() as int) =~= piece);
        assert(t.subrange(0, c) =~= a);
        assert(init.push(x) =~= s);
        let k0 = choose|k: int| 0 <= k < a.len() && !is_ws(#[trigger] a[k]);
        assert(t[k0] == a[k0]);
    }
}

/// Law: a list of integers and booleans is read from its items' texts written
/// between `[` and `]` with a `,` between each two, whatever whitespace stands
/// around each item and around the whole list.
pub proof fn law_spaced_list_reads(
    s: Seq<ValueView>,
    pre: Seq<Seq<char>>,
    post: Seq<Seq<char>>,
    w1: Seq<char>,
    w2: Seq<char>,
)
    requires
        s.len() > 0,
        pre.len() >= s.len(),
        post.len() >= s.len(),
        forall|i: int| 0 <= i < s.len() ==> is_scalar(#[trigger] s[i]),
        forall|i: int| 0 <= i < pre.len() ==> all_ws(#[trigger] pre[i]),
        forall|i: int| 0 <= i < post.len() ==> all_ws(#[trigger] post[i]),
        all_ws(w1),
        all_ws(w2),
    ensures
        value_of(w1 + seq!['['] + spaced_items(s, pre, post) + seq![']'] + w2) == ValueView::List(
            s,
        ),
{
    let inner = spaced_items(s, pre, post);
    let core = seq!['['] + inner + seq![']'];
    let t = w1 + core + w2;
    assert(w1 + seq!['['] + inner + seq![']'] + w2 =~= t);
    lemma_trim_ws(w1, core, w2);
    let n = core.len() as int;
    assert(core.subrange(1, n - 1) =~= inner);
    lemma_spaced_items(s, pre, post);
    let k = choose|k: int| 0 <= k < inner.len() && !is_ws(#[trigger] inner[k]);
    lemma_trim_nonempty(inner, k);
}

/// Law: `inf`, `infinity` or `nan`, each letter in either case, after an
/// optional sign, is read as a floating-point number kept as its text, as
/// `f64`'s `FromStr` reads it.
pub proof fn law_named_float(sg: Seq<char>, w: Seq<char>, which: int)
    requires
        sign_text(sg),
        0 <= which < 3,
        ({
            let lower = if which == 0 {
                seq!['i', 'n', 'f']
            } else if which == 1 {
                seq!['i', 'n', 'f', 'i', 'n', 'i', 't', 'y']
            } else {
                seq!['n', 'a', 'n']
            };
            let upper = if which == 0 {
                seq!['I', 'N', 'F']
            } else if which == 1 {
                seq!['I', 'N', 'F', 'I', 'N', 'I', 'T', 'Y']
            } else {
                seq!['N', 'A', 'N']
            };
            w.len() == lower.len() && forall|k: int|
                0 <= k < w.len() ==> #[trigger] w[k] == lower[k] || w[k] == upper[k]
        }),
    ensures
        value_of(sg + w) == ValueView::Float(sg + w),
{
    let t = sg + w;
    let lower = if which == 0 {
        seq!['i', 'n', 'f']
    } else if which == 1 {
        seq!['i', 'n', 'f', 'i', 'n', 'i', 't', 'y']
    } else {
        seq!['n', 'a', 'n']
    };
    let upper = if which == 0 {
        seq!['I', 'N', 'F']
    } else if which == 1 {
        seq!['I', 'N', 'F', 'I', 'N', 'I', 'T', 'Y']
    } else {
        seq!['N', 'A', 'N']
    };
    assert(w[0] == lower[0] || w[0] == upper[0]);
    assert(w[w.len() - 1] == lower[lower.len() - 1] || w[w.len() - 1] == upper[upper.len() - 1]);
    assert(t[t.len() - 1] == w[w.len() - 1]);
    assert(!is_ws(t[0])) by {
        if sg.len() > 0 {
            assert(t[0] == sg[0]);
        } else {
            assert(t[0] == w[0]);
        }
    }
    lemma_trim_same(t);
    let p = sg.len() as int;
    assert(t[p] == w[0]);
    if forall|k: int| 0 <= k < t.len() ==> '\x7f' >= #[trigger] t[k] {
        let bytes = Seq::new(t.len(), |k: int| t[k] as u8);
        let cp: int = t[p] as int;
        assert(bytes[p] == t[p] as u8);
        assert(t[p] as u8 == cp as u8);
        assert(!is_digit(bytes[p]));
        let c0: int = t[0] as int;
        assert(bytes[0] == t[0] as u8);
        assert(t[0] as u8 == c0 as u8);
        if sg.len() > 0 {
            assert(t[0] == sg[0]);
            assert(unsigned_part(bytes)[0] == bytes[p]);
        } else {
            assert(unsigned_part(bytes) == bytes);
        }
        assert(!all_digits(unsigned_part(bytes)));
    }
    assert(parse_i64_chars(t) is None);
    assert(drop_sign(t) =~= w) by {
        if sg.len() > 0 {
            assert(t[0] == sg[0]);
        }
    }
    assert(is_word_ignoring_case(w, lower, upper));
    assert(is_float_text(t));
    assert(t[0] != '[') by {
        if sg.len() > 0 {
            assert(t[0] == sg[0]);
        }
    }
}


proof fn lemma_nat_digits_lead(n: nat)
    ensures
        nat_digits(n).len() > 1 ==> nat_digits(n)[0] != 48u8,
        n >= 10 ==> nat_digits(n).len() > 1,
    decreases n,
{
    if n >= 10 {
        lemma_nat_digits_lead(n / 10);
        lemma_nat_digits(n / 10);
        assert(nat_digits(n)[0] == nat_digits(n / 10)[0]);
        if nat_digits(n / 10).len() == 1 {
            assert(n / 10 < 10);
            assert(n / 10 > 0);
            assert(nat_digits(n / 10)[0] == ((n / 10) + 48) as u8);
        }
    }
}

/// The text of a magnitude: the digits of `n` as characters.
proof fn lemma_magnitude_text(n: nat, t: Seq<char>)
    requires
        t == crate::display::ascii_chars(nat_digits(n)),
    ensures
        t.len() > 0,
        digit_chars(t),
        digits_number(t) == n,
        t.len() > 1 ==> t[0] != '0',
{
    let b = nat_digits(n);
    lemma_nat_digits(n);
    lemma_nat_digits_lead(n);
    assert forall|k: int| 0 <= k < t.len() implies '0' <= #[trigger] t[k] && t[k] <= '9' && t[k]
        as int == b[k] as int by {
        assert(t[k] == b[k] as char);
        assert(is_digit(b[k]));
        assert((b[k] as char) as int == b[k] as int);
    }
    lemma_digits_number(t, b);
    if t.len() > 1 {
        assert(t[0] as int == b[0] as int);
    }
}

/// Law: an integer is written as `to_string` writes it: a `-` for a negative
/// one, then the decimal digits of its magnitude, with no leading zero.
pub proof fn law_integer_text(i: i64)
    ensures
        ({
            let t = display_of(ValueView::Integer(i));
            let m = if i < 0 {
                t.skip(1)
            } else {
                t
            };
            &&& i < 0 ==> t.len() > 1 && t[0] == '-'
            &&& m.len() > 0
            &&& digit_chars(m)
            &&& digits_number(m) == if i < 0 {
                -(i as int)
            } else {
                i as int
            }
            &&& m.len() > 1 ==> m[0] != '0'
        }),
{
    let t = display_of(ValueView::Integer(i));
    if i < 0 {
        let n = (-(i as int)) as nat;
        let b = decimal(i as int);
        assert(b == seq![45u8] + nat_digits(n));
        let m = t.skip(1);
        assert(m =~= crate::display::ascii_chars(nat_digits(n)));
        lemma_magnitude_text(n, m);
        assert(t[0] == (45u8 as char));
        assert((45u8 as char) as int == 45);
    } else {
        lemma_magnitude_text(i as nat, t);
    }
}

} // verus!
