//! The text that a stored value is written with, as its `Display` writes it.
use vstd::prelude::*;
use crate::decimal::{decimal, push_decimal, nat_digits, lemma_nat_digits, law_decimal_roundtrip,
    parse_i64_text, is_digit, unsigned_part, all_digits};
use crate::text::push_char;
use crate::value::{Value, ValueView, values_view, lemma_values_view_step, value_of, list_values,
    trim, is_ws, skip_ws, skip_ws_back, last_comma, parse_i64_chars, is_float_text, digits_end,
    drop_sign, is_decimal_number};
use vstd::string::StringExecFns;

verus! {

/// Whether a value holds a floating-point number, at any depth.
pub open spec fn has_float(v: ValueView) -> bool
    decreases v,
{
    match v {
        ValueView::Float(_) => true,
        ValueView::List(items) => any_float(items),
        _ => false,
    }
}

/// Whether one of the values holds a floating-point number.
pub open spec fn any_float(s: Seq<ValueView>) -> bool
    decreases s,
{
    if s.len() == 0 {
        false
    } else {
        any_float(s.drop_last()) || has_float(s.last())
    }
}

/// The characters of an ASCII byte text.
pub open spec fn ascii_chars(b: Seq<u8>) -> Seq<char> {
    b.map_values(|x: u8| x as char)
}

/// The text of a value that holds no floating-point number, as `Display`
/// writes it: a string as it is, an integer in decimal, `true` or `false`,
/// and a list as its items' texts between `[` and `]`, separated by `", "`.
/// (A float stands here as the text it was read from, which is not what
/// `Display` writes for it.)
pub open spec fn display_of(v: ValueView) -> Seq<char>
    decreases v,
{
    match v {
        ValueView::Text(s) => s,
        ValueView::Integer(i) => ascii_chars(decimal(i as int)),
        ValueView::Float(s) => s,
        ValueView::Boolean(b) => if b {
            "true"@
        } else {
            "false"@
        },
        ValueView::List(items) => "["@ + join_display(items) + "]"@,
    }
}

/// The texts of the values, each as `display_of` gives it, with `", "`
/// between each two.
pub open spec fn join_display(s: Seq<ValueView>) -> Seq<char>
    decreases s,
{
    if s.len() == 0 {
        seq![]
    } else if s.len() == 1 {
        display_of(s[0])
    } else {
        join_display(s.drop_last()) + ", "@ + display_of(s.last())
    }
}

pub proof fn lemma_any_float(s: Seq<ValueView>)
    ensures
        any_float(s) <==> exists|j: int| 0 <= j < s.len() && #[trigger] has_float(s[j]),
    decreases s.len(),
{
    if s.len() > 0 {
        let init = s.drop_last();
        lemma_any_float(init);
        if any_float(init) {
            let j = choose|j: int| 0 <= j < init.len() && #[trigger] has_float(init[j]);
            assert(s[j] == init[j]);
            assert(has_float(s[j]));
        }
        if has_float(s.last()) {
            assert(has_float(s[s.len() - 1]));
        }
        if exists|j: int| 0 <= j < s.len() && #[trigger] has_float(s[j]) {
            let j = choose|j: int| 0 <= j < s.len() && #[trigger] has_float(s[j]);
            if j < s.len() - 1 {
                assert(init[j] == s[j]);
                assert(has_float(init[j]));
            }
        }
    }
}

/// The string of the characters of an ASCII byte text.
fn ascii_string(b: &Vec<u8>) -> (r: String)
    ensures
        r@ == ascii_chars(b@),
{
    let mut s = String::new();
    let mut i: usize = 0;
    while i < b.len()
        invariant
            i <= b@.len(),
            s@ == ascii_chars(b@.take(i as int)),
        decreases b@.len() - i,
    {
        push_char(&mut s, b[i] as char);
        i = i + 1;
        assert(s@ =~= ascii_chars(b@.take(i as int)));
    }
    assert(b@.take(b@.len() as int) =~= b@);
    s
}

/// The text of a value as `Display` writes it, when the value holds no
/// floating-point number; `None` when it holds one, since that text is
/// `f64`'s own formatting.
pub fn value_text(v: &Value) -> (r: Option<String>)
    ensures
        r is None <==> has_float(v@),
        r matches Some(t) ==> t@ == display_of(v@),
        v@ matches ValueView::Text(x) ==> r matches Some(t) && t@ == x,
        v@ matches ValueView::Boolean(b) ==> r matches Some(t) && t@ == (if b {
            "true"@
        } else {
            "false"@
        }),
        v@ matches ValueView::Integer(i) ==> r matches Some(t) && value_of(t@)
            == ValueView::Integer(i),
    decreases v,
{
    match v {
        Value::String(s) => Some(s.clone()),
        Value::Integer(i) => {
            let mut digits: Vec<u8> = Vec::new();
            push_decimal(*i, &mut digits);
            assert(digits@ =~= decimal(*i as int));
            proof {
                lemma_int_text(*i);
            }
            Some(ascii_string(&digits))
        },
        Value::Float(_) => None,
        Value::Boolean(b) => if *b {
            Some("true".to_owned())
        } else {
            Some("false".to_owned())
        },
        Value::List(items) => {
            let mut out = "[".to_owned();
            let mut i: usize = 0;
            while i < items.len()
                invariant
                    i <= items@.len(),
                    *v == Value::List(*items),
                    !any_float(values_view(items@.take(i as int))),
                    out@ == "["@ + join_display(values_view(items@.take(i as int))),
                decreases items@.len() - i,
            {
                proof {
                    assert(decreases_to!(*v => (*v)->List_0));
                    assert(decreases_to!((*v)->List_0 => items@));
                    assert(decreases_to!(items@ => items@[i as int]));
                }
                let ghost prev = values_view(items@.take(i as int));
                let ghost x = items@[i as int]@;
                proof {
                    assert(items@.take(i + 1) =~= items@.take(i as int).push(items@[i as int]));
                    lemma_values_view_step(items@.take(i as int), items@[i as int]);
                    assert(prev.push(x).drop_last() =~= prev);
                    assert(prev.push(x).last() == x);
                }
                match value_text(&items[i]) {
                    None => {
                        proof {
                            crate::value::lemma_values_view_len(items@);
                            assert(values_view(items@)[i as int] == x);
                            lemma_any_float(values_view(items@));
                        }
                        return None;
                    },
                    Some(t) => {
                        if i > 0 {
                            out.append(", ");
                        }
                        out.append(t.as_str());
                        proof {
                            if i == 0 {
                                assert(prev.len() == 0);
                                assert(prev.push(x)[0] == x);
                                assert("["@ + join_display(prev) =~= "["@);
                            }
                        }
                    },
                }
                i = i + 1;
                proof {
                    assert(out@ =~= "["@ + join_display(values_view(items@.take(i as int))));
                }
            }
            out.append("]");
            assert(items@.take(items@.len() as int) =~= items@);
            Some(out)
        },
    }
}


/// A character of the text of an integer or a boolean.
pub open spec fn plain_char(c: char) -> bool {
    c == '-' || ('0' <= c && c <= '9') || ('a' <= c && c <= 'z')
}

/// A text made only of such characters, and not empty.
pub open spec fn plain_text(t: Seq<char>) -> bool {
    t.len() > 0 && forall|k: int| 0 <= k < t.len() ==> plain_char(#[trigger] t[k])
}

/// An integer or a boolean.
pub open spec fn is_scalar(v: ValueView) -> bool {
    v is Integer || v is Boolean
}

/// A value whose text reads back as itself: an integer, a boolean, or a list
/// of integers and booleans.
pub open spec fn reads_back(v: ValueView) -> bool {
    match v {
        ValueView::Integer(_) => true,
        ValueView::Boolean(_) => true,
        ValueView::List(items) => forall|i: int| 0 <= i < items.len() ==> is_scalar(#[trigger] items[i]),
        _ => false,
    }
}

pub proof fn lemma_trim_same(t: Seq<char>)
    requires
        t.len() > 0,
        !is_ws(t[0]),
        !is_ws(t[t.len() - 1]),
    ensures
        trim(t) == t,
{
    assert(skip_ws(t, 0) == 0);
    assert(skip_ws_back(t, 0, t.len() as int) == t.len());
    assert(t.subrange(0, t.len() as int) =~= t);
}

proof fn lemma_trim_space(d: Seq<char>)
    requires
        d.len() > 0,
        !is_ws(d[0]),
        !is_ws(d[d.len() - 1]),
    ensures
        trim(seq![' '] + d) == d,
{
    let u = seq![' '] + d;
    assert(u[0] == ' ');
    assert(u[1] == d[0]);
    assert(skip_ws(u, 1) == 1);
    assert(skip_ws(u, 0) == 1);
    assert(u[u.len() - 1] == d[d.len() - 1]);
    assert(skip_ws_back(u, 1, u.len() as int) == u.len());
    assert(u.subrange(1, u.len() as int) =~= d);
}

proof fn lemma_int_text(i: i64)
    ensures
        plain_text(display_of(ValueView::Integer(i))),
        value_of(display_of(ValueView::Integer(i))) == ValueView::Integer(i),
{
    let d = decimal(i as int);
    let t = display_of(ValueView::Integer(i));
    if i < 0 {
        lemma_nat_digits((-(i as int)) as nat);
    } else {
        lemma_nat_digits(i as nat);
    }
    assert forall|k: int| 0 <= k < d.len() implies #[trigger] d[k] == 45u8 || is_digit(d[k]) by {
        if i < 0 {
            if k > 0 {
                assert(d[k] == nat_digits((-(i as int)) as nat)[k - 1]);
            }
        }
    }
    assert forall|k: int| 0 <= k < t.len() implies plain_char(#[trigger] t[k]) && t[k] as u8 == d[k]
        && (t[k] as int) < 128 by {
        let b = d[k];
        assert(t[k] == b as char);
        assert((b as char) as int == b as int);
        assert((b as char) as u8 == b);
        assert(b == 45u8 || is_digit(b));
    }
    lemma_trim_same(t);
    assert(forall|k: int| 0 <= k < t.len() ==> '\x7f' >= #[trigger] t[k]);
    assert(Seq::new(t.len(), |k: int| t[k] as u8) =~= d);
    law_decimal_roundtrip(i);
}

proof fn lemma_bool_text(b: bool)
    ensures
        plain_text(display_of(ValueView::Boolean(b))),
        value_of(display_of(ValueView::Boolean(b))) == ValueView::Boolean(b),
{
    reveal_strlit("true");
    reveal_strlit("false");
    let t = display_of(ValueView::Boolean(b));
    if b {
        assert(t =~= seq!['t', 'r', 'u', 'e']);
    } else {
        assert(t =~= seq!['f', 'a', 'l', 's', 'e']);
    }
    lemma_trim_same(t);
    let bytes = Seq::new(t.len(), |k: int| t[k] as u8);
    assert(bytes[0] == t[0] as u8);
    assert(!is_digit(bytes[0]));
    assert(unsigned_part(bytes) == bytes);
    assert(!all_digits(unsigned_part(bytes)));
    assert(parse_i64_text(bytes) is None);
    assert(digits_end(t, 0) == 0);
    assert(drop_sign(t) == t);
    assert(!is_decimal_number(t));
    assert(!is_float_text(t));
}

pub proof fn lemma_scalar_text(x: ValueView)
    requires
        is_scalar(x),
    ensures
        plain_text(display_of(x)),
        value_of(display_of(x)) == x,
{
    match x {
        ValueView::Integer(i) => lemma_int_text(i),
        ValueView::Boolean(b) => lemma_bool_text(b),
        _ => {},
    }
}

pub proof fn lemma_last_comma_none(t: Seq<char>, j: int)
    requires
        0 <= j <= t.len(),
        forall|k: int| 0 <= k < j ==> #[trigger] t[k] != ',',
    ensures
        last_comma(t, j) is None,
    decreases j,
{
    if j > 0 {
        lemma_last_comma_none(t, j - 1);
    }
}

pub proof fn lemma_last_comma_at(t: Seq<char>, c: int, j: int)
    requires
        0 <= c < j <= t.len(),
        t[c] == ',',
        forall|k: int| c < k < j ==> #[trigger] t[k] != ',',
    ensures
        last_comma(t, j) == Some(c),
    decreases j - c,
{
    if j - 1 > c {
        lemma_last_comma_at(t, c, j - 1);
    }
}

/// The items of a list of integers and booleans read back from their joined
/// texts.
proof fn lemma_join_reads_back(s: Seq<ValueView>)
    requires
        s.len() > 0,
        forall|i: int| 0 <= i < s.len() ==> is_scalar(#[trigger] s[i]),
    ensures
        join_display(s).len() > 0,
        !is_ws(join_display(s)[0]),
        !is_ws(join_display(s)[join_display(s).len() - 1]),
        list_values(join_display(s)) == s,
    decreases s.len(),
{
    let t = join_display(s);
    let d = display_of(s.last());
    assert(is_scalar(s[s.len() - 1]));
    lemma_scalar_text(s.last());
    assert(plain_char(d[0]));
    assert(plain_char(d[d.len() - 1]));
    if s.len() == 1 {
        assert(t == d);
        lemma_last_comma_none(t, t.len() as int);
        lemma_trim_same(t);
        assert(seq![s[0]] =~= s);
    } else {
        reveal_strlit(", ");
        let init = s.drop_last();
        assert forall|i: int| 0 <= i < init.len() implies is_scalar(#[trigger] init[i]) by {
            assert(init[i] == s[i]);
        }
        lemma_join_reads_back(init);
        let a = join_display(init);
        assert(t == a + ", "@ + d);
        let c = a.len() as int;
        assert(t[c] == ',');
        assert forall|k: int| c < k < t.len() implies #[trigger] t[k] != ',' by {
            if k > c + 1 {
                assert(t[k] == d[k - c - 2]);
                assert(plain_char(d[k - c - 2]));
            }
        }
        lemma_last_comma_at(t, c, t.len() as int);
        let piece = t.subrange(c + 1, t.len() as int);
        assert(piece =~= seq![' '] + d);
        lemma_trim_space(d);
        assert(t.subrange(0, c) =~= a);
        assert(t[0] == a[0]);
        assert(t[t.len() - 1] == d[d.len() - 1]);
        assert(init.push(s.last()) =~= s);
    }
}

/// Law: the text of an integer, a boolean, or a list of integers and
/// booleans reads back as the same value.
pub proof fn law_display_roundtrip(v: ValueView)
    requires
        reads_back(v),
    ensures
        value_of(display_of(v)) == v,
{
    match v {
        ValueView::List(items) => {
            reveal_strlit("[");
            reveal_strlit("]");
            let j = join_display(items);
            let t = display_of(v);
            assert(t == "["@ + j + "]"@);
            let n = t.len() as int;
            assert(t[0] == '[');
            assert(t[n - 1] == ']');
            lemma_trim_same(t);
            let inner = t.subrange(1, n - 1);
            assert(inner =~= j);
            if items.len() == 0 {
                assert(j.len() == 0);
                assert(trim(inner) =~= Seq::<char>::empty());
                assert(items =~= Seq::<ValueView>::empty());
            } else {
                lemma_join_reads_back(items);
                lemma_trim_same(inner);
            }
        },
        _ => lemma_scalar_text(v),
    }
}


/// Law: a string value is written as the string itself.
pub proof fn law_string_text(x: Seq<char>)
    ensures
        display_of(ValueView::Text(x)) == x,
{
}

/// Law: a list is written as `[`, its items' texts with `", "` between each
/// two, and `]`: the empty list as `[]`, one item between the brackets, and
/// one more item after the others with `", "` before it.
pub proof fn law_list_text(s: Seq<ValueView>, x: ValueView)
    ensures
        display_of(ValueView::List(Seq::empty())) == "[]"@,
        display_of(ValueView::List(seq![x])) == "["@ + display_of(x) + "]"@,
        s.len() > 0 ==> display_of(ValueView::List(s.push(x))) == display_of(
            ValueView::List(s),
        ).drop_last() + ", "@ + display_of(x) + "]"@,
{
    reveal_strlit("[]");
    reveal_strlit("[");
    reveal_strlit("]");
    assert(join_display(Seq::<ValueView>::empty()) == Seq::<char>::empty());
    assert("["@ + Seq::<char>::empty() + "]"@ =~= "[]"@);
    assert(seq![x][0] == x);
    if s.len() > 0 {
        let sx = s.push(x);
        assert(sx.drop_last() =~= s);
        assert(sx.last() == x);
        let d = display_of(ValueView::List(s));
        assert(d == "["@ + join_display(s) + "]"@);
        assert(d.drop_last() =~= "["@ + join_display(s));
        assert(display_of(ValueView::List(sx)) =~= d.drop_last() + ", "@ + display_of(x) + "]"@);
    }
}

} // verus!
