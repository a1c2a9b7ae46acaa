//! Record headers: the CRC32 of a payload, written as eight hex digits.
use vstd::prelude::*;

verus! {

/// The CRC32 (IEEE) checksum of a byte string.
pub uninterp spec fn crc32(data: Seq<u8>) -> u32;

/// `crc32fast::hash`: the CRC32 (IEEE) checksum of the bytes.
#[verifier::external_body]
pub(crate) fn checksum(data: &[u8]) -> (r: u32)
    ensures
        r == crc32(data@),
{
    crc32fast::hash(data)
}

/// The lower-case hex digit of `d` (`0 <= d < 16`).
pub open spec fn hex_char(d: int) -> u8 {
    if d < 10 {
        (d + 48) as u8
    } else {
        (d - 10 + 97) as u8
    }
}

/// The last `n` hex digits of `v`, most significant first, with leading zeros.
pub open spec fn hex_digits(v: nat, n: nat) -> Seq<u8>
    decreases n,
{
    if n == 0 {
        seq![]
    } else {
        hex_digits(v / 16, (n - 1) as nat).push(hex_char((v % 16) as int))
    }
}

/// `format!("{:08x} ", v)`: eight lower-case hex digits and a space.
pub open spec fn header_of(v: u32) -> Seq<u8> {
    hex_digits(v as nat, 8).push(32u8)
}

/// The value of a hex digit of either case, if `c` is one.
pub open spec fn hex_value_of(c: u8) -> Option<nat> {
    if 48 <= c <= 57 {
        Some((c - 48) as nat)
    } else if 97 <= c <= 102 {
        Some((c - 87) as nat)
    } else if 65 <= c <= 70 {
        Some((c - 55) as nat)
    } else {
        None
    }
}

/// The number that a string of hex digits stands for, if it is one.
pub open spec fn hex_number(s: Seq<u8>) -> Option<nat>
    decreases s.len(),
{
    if s.len() == 0 {
        Some(0)
    } else {
        match (hex_number(s.drop_last()), hex_value_of(s.last())) {
            (Some(a), Some(d)) => Some(a * 16 + d),
            _ => None,
        }
    }
}

/// `u32::from_str_radix(text, 16)`: an optional `+`, then at least one hex
/// digit of either case, with a value that fits in a `u32`.
pub open spec fn parse_hex_u32(s: Seq<u8>) -> Option<u32> {
    let body = if s.len() > 0 && s[0] == 43u8 { s.skip(1) } else { s };
    if body.len() == 0 {
        None
    } else {
        match hex_number(body) {
            Some(v) => if v <= u32::MAX { Some(v as u32) } else { None },
            None => None,
        }
    }
}

proof fn lemma_hex_digits(v: nat, n: nat)
    ensures
        hex_digits(v, n).len() == n,
        hex_number(hex_digits(v, n)) == Some(v % pow16(n)),
        forall|k: int| 0 <= k < n ==> hex_value_of(#[trigger] hex_digits(v, n)[k]) is Some,
    decreases n,
{
    if n > 0 {
        let m = (n - 1) as nat;
        lemma_hex_digits(v / 16, m);
        let s = hex_digits(v, n);
        assert(s.drop_last() =~= hex_digits(v / 16, m));
        let d = v % 16;
        assert(hex_value_of(hex_char(d as int)) == Some(d));
        lemma_pow16_pos(m);
        lemma_mod_split(v, pow16(m));
        assert forall|k: int| 0 <= k < n implies hex_value_of(#[trigger] s[k]) is Some by {
            if k < m {
                assert(s[k] == hex_digits(v / 16, m)[k]);
            }
        }
    }
}

/// 16 to the power `n`.
pub open spec fn pow16(n: nat) -> nat
    decreases n,
{
    if n == 0 {
        1
    } else {
        16 * pow16((n - 1) as nat)
    }
}

proof fn lemma_pow16_pos(n: nat)
    ensures
        pow16(n) > 0,
    decreases n,
{
    if n > 0 {
        lemma_pow16_pos((n - 1) as nat);
    }
}

proof fn lemma_mod_split(v: nat, p: nat)
    requires
        p > 0,
    ensures
        ((v / 16) % p) * 16 + v % 16 == v % (16 * p),
{
    vstd::arithmetic::div_mod::lemma_mod_mod(v as int, 16, p as int);
    vstd::arithmetic::div_mod::lemma_fundamental_div_mod(v as int, 16);
    vstd::arithmetic::div_mod::lemma_fundamental_div_mod((v / 16) as int, p as int);
    vstd::arithmetic::div_mod::lemma_fundamental_div_mod(v as int, 16 * p as int);
    vstd::arithmetic::div_mod::lemma_breakdown(v as int, 16, p as int);
}

/// Law: the header written for a checksum reads back as that checksum.
pub proof fn law_header_roundtrip(v: u32)
    ensures
        header_of(v).len() == 9,
        parse_hex_u32(header_of(v).subrange(0, 8)) == Some(v),
{
    lemma_hex_digits(v as nat, 8);
    lemma_pow16_8();
    let h = header_of(v).subrange(0, 8);
    assert(h =~= hex_digits(v as nat, 8));
    assert(hex_value_of(h[0]) is Some);
}

/// Appends the last `n` hex digits of `v`, most significant first.
fn push_hex_digits(v: u64, n: u32, out: &mut Vec<u8>)
    ensures
        final(out)@ == old(out)@ + hex_digits(v as nat, n as nat),
    decreases n,
{
    if n > 0 {
        push_hex_digits(v / 16, n - 1, out);
        let d: u8 = (v % 16) as u8;
        let c: u8 = if d < 10 { d + 48 } else { d - 10 + 97 };
        out.push(c);
        assert(final(out)@ =~= old(out)@ + hex_digits(v as nat, n as nat));
    }
}

/// Writes the record header of a payload with checksum `v`.
pub fn push_header(v: u32, out: &mut Vec<u8>)
    ensures
        final(out)@ == old(out)@ + header_of(v),
{
    push_hex_digits(v as u64, 8, out);
    out.push(32u8);
    assert(final(out)@ =~= old(out)@ + header_of(v));
}

proof fn lemma_pow16_8()
    ensures
        pow16(8) == 0x1_0000_0000,
{
    reveal_with_fuel(pow16, 9);
}

/// Reads a record header's checksum as `u32::from_str_radix(_, 16)` does.
pub fn parse_header(h: &[u8]) -> (r: Option<u32>)
    requires
        h@.len() == 8,
    ensures
        r == parse_hex_u32(h@),
{
    let start: usize = if h[0] == 43u8 { 1 } else { 0 };
    let ghost body = if h@[0] == 43u8 { h@.skip(1) } else { h@ };
    assert(body =~= h@.skip(start as int));
    let mut acc: u64 = 0;
    let mut i: usize = start;
    proof {
        lemma_pow16_mono(0, 8);
        assert(body.take(0) =~= Seq::<u8>::empty());
    }
    while i < 8
        invariant
            start <= i <= 8,
            h@.len() == 8,
            body =~= h@.skip(start as int),
            body == (if h@[0] == 43u8 { h@.skip(1) } else { h@ }),
            hex_number(body.take(i - start)) == Some(acc as nat),
            acc < pow16((i - start) as nat),
            pow16((i - start) as nat) <= pow16(8),
        decreases 8 - i,
    {
        let c = h[i];
        let d: u64 = if 48 <= c && c <= 57 {
            (c - 48) as u64
        } else if 97 <= c && c <= 102 {
            (c - 87) as u64
        } else if 65 <= c && c <= 70 {
            (c - 55) as u64
        } else {
            proof {
                assert(body.take(i - start + 1).drop_last() =~= body.take(i - start));
                assert(body.take(i - start + 1).last() == c);
                lemma_hex_number_stuck(body, i - start + 1);
            }
            return None;
        };
        assert(body.take(i - start + 1).drop_last() =~= body.take(i - start));
        proof {
            lemma_pow16_8();
            lemma_pow16_mono((i - start + 1) as nat, 8);
        }
        acc = acc * 16 + d;
        i = i + 1;
    }
    assert(body.take(8 - start) =~= body);
    proof {
        lemma_pow16_8();
    }
    if start == 8 {
        None
    } else {
        Some(acc as u32)
    }
}

proof fn lemma_pow16_mono(a: nat, b: nat)
    requires
        a <= b,
    ensures
        pow16(a) <= pow16(b),
    decreases b - a,
{
    if a < b {
        lemma_pow16_mono(a, (b - 1) as nat);
        lemma_pow16_pos((b - 1) as nat);
    }
}

/// Once a prefix of a string is not hex, the whole string is not.
proof fn lemma_hex_number_stuck(s: Seq<u8>, k: int)
    requires
        0 < k <= s.len(),
        hex_number(s.take(k)) is None,
    ensures
        hex_number(s) is None,
    decreases s.len() - k,
{
    if k < s.len() {
        assert(s.take(k + 1).drop_last() =~= s.take(k));
        lemma_hex_number_stuck(s, k + 1);
    } else {
        assert(s.take(k) =~= s);
    }
}

} // verus!
