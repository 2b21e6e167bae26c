//! The durable monument log: one JSON-encoded record per line, appended on
//! every completion and replayed at startup. [`monument_to_line`] writes the
//! canonical record and [`monument_from_line`] reads it back; a malformed
//! line fails cleanly, and a written record always reads back as itself
//! ([`lemma_line_round_trip`]).

use vstd::prelude::*;
use vstd::utf8::{char_is_scalar, char_u32_cast};

use crate::types::{Coordinate, Monument, MonumentModel};

verus! {

// ---------------------------------------------------------------------------
// Decimal numbers.
// ---------------------------------------------------------------------------

/// Powers of ten.
pub open spec fn pow10(n: nat) -> nat
    decreases n,
{
    if n == 0 {
        1
    } else {
        10 * pow10((n - 1) as nat)
    }
}

/// The decimal digit character of a value below ten.
pub open spec fn digit_char(d: nat) -> char {
    if d == 0 {
        '0'
    } else if d == 1 {
        '1'
    } else if d == 2 {
        '2'
    } else if d == 3 {
        '3'
    } else if d == 4 {
        '4'
    } else if d == 5 {
        '5'
    } else if d == 6 {
        '6'
    } else if d == 7 {
        '7'
    } else if d == 8 {
        '8'
    } else {
        '9'
    }
}

/// True for the characters `'0'` through `'9'`.
pub open spec fn is_digit(c: char) -> bool {
    48 <= c as u32 <= 57
}

/// The numeric value of one digit character.
pub open spec fn digit_val(c: char) -> nat {
    (c as u32 - 48) as nat
}

/// The decimal digits of a value, most significant first, no leading zeros.
pub open spec fn dec_digits(v: nat) -> Seq<char>
    decreases v,
{
    if v < 10 {
        seq![digit_char(v)]
    } else {
        dec_digits(v / 10) + seq![digit_char(v % 10)]
    }
}

/// The value of a digit string.
pub open spec fn digits_val(ds: Seq<char>) -> nat
    decreases ds.len(),
{
    if ds.len() == 0 {
        0
    } else {
        digits_val(ds.drop_last()) * 10 + digit_val(ds.last())
    }
}

/// How many leading characters of the sequence are digits.
pub open spec fn digits_prefix_len(s: Seq<char>) -> nat
    decreases s.len(),
{
    if s.len() > 0 && is_digit(s[0]) {
        1 + digits_prefix_len(s.skip(1))
    } else {
        0
    }
}

/// The decimal form of a value reads back as that value, and is short.
proof fn lemma_dec_digits(v: nat)
    ensures
        dec_digits(v).len() >= 1,
        forall|i: int| 0 <= i < dec_digits(v).len() ==> is_digit(#[trigger] dec_digits(v)[i]),
        digits_val(dec_digits(v)) == v,
        v < pow10(dec_digits(v).len()),
    decreases v,
{
    if v < 10 {
        let ds = dec_digits(v);
        assert(ds == seq![digit_char(v)]);
        assert(ds.drop_last() =~= Seq::<char>::empty());
        assert(ds.last() == digit_char(v));
        assert(digits_val(Seq::<char>::empty()) == 0);
        assert(digit_val(digit_char(v)) == v);
        assert(pow10(0) == 1);
        assert(pow10(1) == 10);
    } else {
        lemma_dec_digits(v / 10);
        let pre = dec_digits(v / 10);
        let ds = pre + seq![digit_char(v % 10)];
        assert(ds.drop_last() =~= pre);
        assert(ds.last() == digit_char(v % 10));
        assert(digit_val(digit_char(v % 10)) == v % 10);
        assert(digits_val(ds) == digits_val(pre) * 10 + v % 10);
        assert(digits_val(pre) == v / 10);
        assert(v / 10 * 10 + v % 10 == v);
        assert(pow10(ds.len()) == 10 * pow10(pre.len()));
        assert(v / 10 < pow10(pre.len()));
        assert(v < 10 * pow10(pre.len())) by {
            assert(v / 10 + 1 <= pow10(pre.len()));
            assert(10 * (v / 10) + 10 <= 10 * pow10(pre.len())) by (nonlinear_arith)
                requires
                    v / 10 + 1 <= pow10(pre.len()),
            ;
        }
    }
}

/// The digit-prefix count is what a left-to-right scan finds.
proof fn lemma_digits_prefix(s: Seq<char>, c: nat)
    requires
        c <= s.len(),
        forall|j: int| 0 <= j < c ==> is_digit(#[trigger] s[j]),
        c == s.len() || !is_digit(s[c as int]),
    ensures
        digits_prefix_len(s) == c,
    decreases c,
{
    if c == 0 {
    } else {
        assert(is_digit(s[0]));
        lemma_digits_prefix(s.skip(1), (c - 1) as nat);
    }
}

/// Reads an unsigned 32-bit decimal number from the front: its leading
/// digits, at most ten of them, valued at most `u32::MAX`.
pub open spec fn parse_u32_chars(s: Seq<char>) -> Option<(u32, Seq<char>)> {
    let n = digits_prefix_len(s);
    if 1 <= n <= 10 && digits_val(s.take(n as int)) <= u32::MAX {
        Some((digits_val(s.take(n as int)) as u32, s.skip(n as int)))
    } else {
        None
    }
}

/// A written decimal number reads back as itself when what follows starts
/// with no digit.
proof fn lemma_parse_dec_digits(v: u32, rest: Seq<char>)
    requires
        rest.len() == 0 || !is_digit(rest[0]),
    ensures
        parse_u32_chars(dec_digits(v as nat) + rest) == Some((v, rest)),
{
    lemma_dec_digits(v as nat);
    let ds = dec_digits(v as nat);
    let s = ds + rest;
    assert(forall|j: int| 0 <= j < ds.len() ==> is_digit(#[trigger] s[j]));
    assert(ds.len() == s.len() || !is_digit(s[ds.len() as int]));
    lemma_digits_prefix(s, ds.len());
    assert(s.take(ds.len() as int) =~= ds);
    assert(s.skip(ds.len() as int) =~= rest);
    assert(ds.len() <= 10) by {
        if ds.len() > 10 {
            assert(v > 0) by {
                if v == 0 {
                    assert(dec_digits(0) == seq![digit_char(0)]);
                }
            }
            assert(pow10(10) <= pow10((ds.len() - 1) as nat)) by {
                lemma_pow10_mono(10, (ds.len() - 1) as nat);
            }
            assert(digits_val(ds) >= pow10((ds.len() - 1) as nat)) by {
                lemma_dec_digits_first(v as nat);
            }
            assert(pow10(10) == 10000000000) by {
                reveal_with_fuel(pow10, 11);
            }
        }
    }
}

/// Powers of ten grow with the exponent.
proof fn lemma_pow10_mono(a: nat, b: nat)
    requires
        a <= b,
    ensures
        pow10(a) <= pow10(b),
    decreases b,
{
    if a < b {
        lemma_pow10_mono(a, (b - 1) as nat);
        assert(pow10(b) == 10 * pow10((b - 1) as nat));
    }
}

// ---------------------------------------------------------------------------
// Signed decimal numbers.
// ---------------------------------------------------------------------------

/// The decimal form of a signed value: a minus sign for a negative one,
/// then its magnitude.
pub open spec fn int_chars(v: int) -> Seq<char> {
    if v < 0 {
        seq!['-'] + dec_digits((-v) as nat)
    } else {
        dec_digits(v as nat)
    }
}

/// Reads a signed 32-bit decimal number from the front.
pub open spec fn parse_i32_chars(s: Seq<char>) -> Option<(i32, Seq<char>)> {
    if s.len() > 0 && s[0] == '-' {
        match parse_u32_chars(s.skip(1)) {
            Some((u, rest)) => if 1 <= u <= 0x8000_0000u32 {
                Some(((-(u as int)) as i32, rest))
            } else {
                None
            },
            None => None,
        }
    } else {
        match parse_u32_chars(s) {
            Some((u, rest)) => if u <= 0x7FFF_FFFFu32 {
                Some((u as i32, rest))
            } else {
                None
            },
            None => None,
        }
    }
}

/// A written signed decimal number reads back as itself when what follows
/// starts with no digit.
proof fn lemma_parse_int_chars(v: i32, rest: Seq<char>)
    requires
        rest.len() == 0 || !is_digit(rest[0]),
    ensures
        parse_i32_chars(int_chars(v as int) + rest) == Some((v, rest)),
{
    if v < 0 {
        let m = (-(v as int)) as nat;
        let s = int_chars(v as int) + rest;
        assert(s[0] == '-');
        assert(s.skip(1) =~= dec_digits(m) + rest);
        assert(m <= 0x8000_0000);
        lemma_parse_dec_digits(m as u32, rest);
        assert((m as u32) as nat == m);
        assert((-((m as u32) as int)) as i32 == v);
    } else {
        let s = int_chars(v as int) + rest;
        lemma_dec_digits(v as nat);
        assert(s[0] == dec_digits(v as nat)[0]);
        assert(is_digit(s[0]));
        assert(s[0] != '-') by {
            assert('-' as u32 == 45);
        }
        assert(s =~= dec_digits(v as nat) + rest);
        lemma_parse_dec_digits(v as u32, rest);
    }
}

/// A positive decimal form never starts with a zero, so its value reaches
/// its width.
proof fn lemma_dec_digits_first(v: nat)
    requires
        v > 0,
    ensures
        digits_val(dec_digits(v)) >= pow10((dec_digits(v).len() - 1) as nat),
    decreases v,
{
    lemma_dec_digits(v);
    if v < 10 {
    } else {
        lemma_dec_digits(v / 10);
        let pre = dec_digits(v / 10);
        let ds = dec_digits(v);
        assert(ds.drop_last() =~= pre);
        lemma_dec_digits_first(v / 10);
        assert(digits_val(ds) == digits_val(pre) * 10 + digit_val(ds.last()));
        let p = pow10((pre.len() - 1) as nat);
        assert(digits_val(pre) * 10 >= p * 10) by (nonlinear_arith)
            requires
                digits_val(pre) >= p,
        ;
        assert(pow10((ds.len() - 1) as nat) == 10 * p);
    }
}

// ---------------------------------------------------------------------------
// JSON strings: quotes, backslashes and control characters are escaped.
// ---------------------------------------------------------------------------

/// The lowercase hexadecimal digit character of a value below sixteen.
pub open spec fn hex_char(d: nat) -> char {
    if d < 10 {
        digit_char(d)
    } else if d == 10 {
        'a'
    } else if d == 11 {
        'b'
    } else if d == 12 {
        'c'
    } else if d == 13 {
        'd'
    } else if d == 14 {
        'e'
    } else {
        'f'
    }
}

/// True for the characters `'0'` through `'9'` and `'a'` through `'f'`.
pub open spec fn is_hex(c: char) -> bool {
    is_digit(c) || 97 <= c as u32 <= 102
}

/// The numeric value of one lowercase hexadecimal digit character.
pub open spec fn hex_val(c: char) -> nat {
    if is_digit(c) {
        digit_val(c)
    } else {
        (c as u32 - 87) as nat
    }
}

/// The character of a scalar value, meaningful for Unicode scalars.
pub open spec fn char_of(v: nat) -> char {
    v as char
}

/// One character in JSON-string form: a quote or backslash behind a
/// backslash, a control character as a four-digit escape, anything else as
/// itself.
pub open spec fn esc_char(c: char) -> Seq<char> {
    if c == '"' {
        seq!['\\', '"']
    } else if c == '\\' {
        seq!['\\', '\\']
    } else if (c as u32) < 32 {
        seq![
            '\\',
            'u',
            '0',
            '0',
            hex_char(((c as u32) / 16) as nat),
            hex_char(((c as u32) % 16) as nat),
        ]
    } else {
        seq![c]
    }
}

/// A character sequence in JSON-string form.
pub open spec fn esc_chars(s: Seq<char>) -> Seq<char>
    decreases s.len(),
{
    if s.len() == 0 {
        Seq::empty()
    } else {
        esc_char(s[0]) + esc_chars(s.skip(1))
    }
}

/// Reads a JSON string body up to and including its closing quote; an
/// unknown escape, a raw control character or a missing quote is malformed.
pub open spec fn parse_jstring(s: Seq<char>) -> Option<(Seq<char>, Seq<char>)>
    decreases s.len(),
{
    if s.len() == 0 {
        None
    } else if s[0] == '"' {
        Some((Seq::empty(), s.skip(1)))
    } else if s[0] == '\\' {
        if s.len() >= 2 && (s[1] == '"' || s[1] == '\\') {
            match parse_jstring(s.skip(2)) {
                Some((t, r)) => Some((seq![s[1]] + t, r)),
                None => None,
            }
        } else if s.len() >= 6 && s[1] == 'u' && s[2] == '0' && s[3] == '0' && is_hex(s[4])
            && is_hex(s[5]) && 16 * hex_val(s[4]) + hex_val(s[5]) < 32 {
            match parse_jstring(s.skip(6)) {
                Some((t, r)) => Some((seq![char_of(16 * hex_val(s[4]) + hex_val(s[5]))] + t, r)),
                None => None,
            }
        } else {
            None
        }
    } else if (s[0] as u32) < 32 {
        None
    } else {
        match parse_jstring(s.skip(1)) {
            Some((t, r)) => Some((seq![s[0]] + t, r)),
            None => None,
        }
    }
}

/// A hexadecimal digit reads back as its value.
proof fn lemma_hex_char(d: nat)
    requires
        d < 16,
    ensures
        is_hex(hex_char(d)),
        hex_val(hex_char(d)) == d,
{
}

/// A written JSON string body, followed by its closing quote, reads back as
/// the characters that were escaped.
proof fn lemma_parse_esc_chars(t: Seq<char>, rest: Seq<char>)
    ensures
        parse_jstring(esc_chars(t) + seq!['"'] + rest) == Some((t, rest)),
    decreases t.len(),
{
    if t.len() == 0 {
        let s = esc_chars(t) + seq!['"'] + rest;
        assert(s =~= seq!['"'] + rest);
        assert(s[0] == '"');
        assert(s.skip(1) =~= rest);
    } else {
        let c = t[0];
        let t2 = t.skip(1);
        let s = esc_chars(t) + seq!['"'] + rest;
        let s2 = esc_chars(t2) + seq!['"'] + rest;
        char_is_scalar(c);
        lemma_parse_esc_chars(t2, rest);
        if c == '"' {
            assert(s =~= seq!['\\', '"'] + s2);
            assert(s[0] == '\\' && s[1] == '"');
            assert(s.skip(2) =~= s2);
            assert(seq![s[1]] + t2 =~= t);
        } else if c == '\\' {
            assert(s =~= seq!['\\', '\\'] + s2);
            assert(s[0] == '\\' && s[1] == '\\');
            assert(s.skip(2) =~= s2);
            assert(seq![s[1]] + t2 =~= t);
        } else if (c as u32) < 32 {
            let hi = ((c as u32) / 16) as nat;
            let lo = ((c as u32) % 16) as nat;
            assert(s =~= seq!['\\', 'u', '0', '0', hex_char(hi), hex_char(lo)] + s2);
            assert(s[0] == '\\' && s[1] == 'u' && s[2] == '0' && s[3] == '0');
            assert(s[4] == hex_char(hi) && s[5] == hex_char(lo));
            lemma_hex_char(hi);
            lemma_hex_char(lo);
            assert(s[1] != '"' && s[1] != '\\') by {
                assert('u' as u32 == 117 && '"' as u32 == 34 && '\\' as u32 == 92);
            }
            assert(16 * hex_val(s[4]) + hex_val(s[5]) == c as u32);
            assert(char_of((c as u32) as nat) == c) by {
                char_u32_cast(c, c as u32);
            }
            assert(s.skip(6) =~= s2);
            assert(seq![char_of(16 * hex_val(s[4]) + hex_val(s[5]))] + t2 =~= t);
        } else {
            assert(esc_char(c) =~= seq![c]);
            assert(s =~= seq![c] + s2);
            assert(s[0] == c);
            assert(s[0] != '"' && s[0] != '\\');
            assert(s.skip(1) =~= s2);
            assert(seq![s[0]] + t2 =~= t);
        }
    }
}

// ---------------------------------------------------------------------------
// The record line.
// ---------------------------------------------------------------------------

/// Reads an exact literal off the front, leaving the rest.
pub open spec fn peel(s: Seq<char>, lit: Seq<char>) -> Option<Seq<char>> {
    if s.len() >= lit.len() && s.take(lit.len() as int) == lit {
        Some(s.skip(lit.len() as int))
    } else {
        None
    }
}

/// A literal peels off itself.
proof fn lemma_peel(lit: Seq<char>, rest: Seq<char>)
    ensures
        peel(lit + rest, lit) == Some(rest),
{
    assert((lit + rest).take(lit.len() as int) =~= lit);
    assert((lit + rest).skip(lit.len() as int) =~= rest);
}

/// A boolean in JSON form.
pub open spec fn bool_chars(b: bool) -> Seq<char> {
    if b {
        "true"@
    } else {
        "false"@
    }
}

/// Reads a boolean.
pub open spec fn parse_bool_chars(s: Seq<char>) -> Option<(bool, Seq<char>)> {
    match peel(s, "true"@) {
        Some(rest) => Some((true, rest)),
        None => match peel(s, "false"@) {
            Some(rest) => Some((false, rest)),
            None => None,
        },
    }
}

/// A written boolean reads back as itself.
proof fn lemma_parse_bool_chars(b: bool, rest: Seq<char>)
    ensures
        parse_bool_chars(bool_chars(b) + rest) == Some((b, rest)),
{
    reveal_strlit("true");
    reveal_strlit("false");
    if b {
        lemma_peel("true"@, rest);
    } else {
        let s = "false"@ + rest;
        assert(peel(s, "true"@) is None) by {
            if peel(s, "true"@) is Some {
                assert(s.take(4)[0] == "true"@[0]);
                assert(s[0] == 'f' && "true"@[0] == 't');
                assert('f' as u32 == 102 && 't' as u32 == 116);
            }
        }
        lemma_peel("false"@, rest);
    }
}

/// The canonical record line of one completed or pending monument: its
/// identity, asset, description, position and construction flag, in the
/// field order of [`Monument`], as one JSON object.
pub open spec fn monument_line(m: MonumentModel) -> Seq<char> {
    "{\"id\":"@ + dec_digits(m.id as nat) + ",\"asset\":\""@ + esc_chars(m.asset) + seq!['"']
        + ",\"description\":\""@ + esc_chars(m.description) + seq!['"']
        + ",\"position\":{\"x\":"@ + int_chars(m.position.x as int) + ",\"y\":"@ + int_chars(
        m.position.y as int,
    ) + "},\"under_construction\":"@ + bool_chars(m.under_construction) + seq!['}']
}

/// Reads one record line; anything but the canonical form is malformed.
pub open spec fn parse_monument_line(s: Seq<char>) -> Option<MonumentModel> {
    match peel(s, "{\"id\":"@) {
        Some(s1) => match parse_u32_chars(s1) {
            Some((id, s2)) => match peel(s2, ",\"asset\":\""@) {
                Some(s3) => match parse_jstring(s3) {
                    Some((asset, s4)) => match peel(s4, ",\"description\":\""@) {
                        Some(s5) => match parse_jstring(s5) {
                            Some((description, s6)) => match peel(
                                s6,
                                ",\"position\":{\"x\":"@,
                            ) {
                                Some(s7) => match parse_i32_chars(s7) {
                                    Some((x, s8)) => match peel(s8, ",\"y\":"@) {
                                        Some(s9) => match parse_i32_chars(s9) {
                                            Some((y, s10)) => match peel(
                                                s10,
                                                "},\"under_construction\":"@,
                                            ) {
                                                Some(s11) => match parse_bool_chars(s11) {
                                                    Some((under_construction, s12)) => if s12
                                                        =~= seq!['}'] {
                                                        Some(
                                                            MonumentModel {
                                                                id,
                                                                asset,
                                                                description,
                                                                position: Coordinate { x, y },
                                                                under_construction,
                                                            },
                                                        )
                                                    } else {
                                                        None
                                                    },
                                                    None => None,
                                                },
                                                None => None,
                                            },
                                            None => None,
                                        },
                                        None => None,
                                    },
                                    None => None,
                                },
                                None => None,
                            },
                            None => None,
                        },
                        None => None,
                    },
                    None => None,
                },
                None => None,
            },
            None => None,
        },
        None => None,
    }
}

/// The round-trip law of the log: a written record line always reads back
/// as the record that was written.
#[verifier::rlimit(100)]
pub proof fn lemma_line_round_trip(m: MonumentModel)
    ensures
        parse_monument_line(monument_line(m)) == Some(m),
{
    reveal_strlit("{\"id\":");
    reveal_strlit(",\"asset\":\"");
    reveal_strlit(",\"description\":\"");
    reveal_strlit(",\"position\":{\"x\":");
    reveal_strlit(",\"y\":");
    reveal_strlit("},\"under_construction\":");
    reveal_strlit("true");
    reveal_strlit("false");
    let r12 = seq!['}'];
    let r11 = bool_chars(m.under_construction) + r12;
    let r10 = "},\"under_construction\":"@ + r11;
    let r9 = int_chars(m.position.y as int) + r10;
    let r8 = ",\"y\":"@ + r9;
    let r7 = int_chars(m.position.x as int) + r8;
    let r6 = ",\"position\":{\"x\":"@ + r7;
    let r5 = esc_chars(m.description) + seq!['"'] + r6;
    let r4 = ",\"description\":\""@ + r5;
    let r3 = esc_chars(m.asset) + seq!['"'] + r4;
    let r2 = ",\"asset\":\""@ + r3;
    let r1 = dec_digits(m.id as nat) + r2;
    let s = monument_line(m);
    assert(s =~= "{\"id\":"@ + r1);
    lemma_peel("{\"id\":"@, r1);
    assert(r2[0] == ',' && ',' as u32 == 44);
    lemma_parse_dec_digits(m.id, r2);
    lemma_peel(",\"asset\":\""@, r3);
    assert(esc_chars(m.asset) + seq!['"'] + r4 =~= r3);
    lemma_parse_esc_chars(m.asset, r4);
    lemma_peel(",\"description\":\""@, r5);
    assert(esc_chars(m.description) + seq!['"'] + r6 =~= r5);
    lemma_parse_esc_chars(m.description, r6);
    lemma_peel(",\"position\":{\"x\":"@, r7);
    assert(r8[0] == ',' && ',' as u32 == 44);
    lemma_parse_int_chars(m.position.x, r8);
    lemma_peel(",\"y\":"@, r9);
    assert(r10[0] == '}' && '}' as u32 == 125);
    lemma_parse_int_chars(m.position.y, r10);
    lemma_peel("},\"under_construction\":"@, r11);
    lemma_parse_bool_chars(m.under_construction, r12);
}

// ---------------------------------------------------------------------------
// The executable writer.
// ---------------------------------------------------------------------------

fn digit_ascii(d: u32) -> (c: char)
    requires
        d < 10,
    ensures
        c == digit_char(d as nat),
{
    match d {
        0 => '0',
        1 => '1',
        2 => '2',
        3 => '3',
        4 => '4',
        5 => '5',
        6 => '6',
        7 => '7',
        8 => '8',
        _ => '9',
    }
}

fn hex_ascii(d: u32) -> (c: char)
    requires
        d < 16,
    ensures
        c == hex_char(d as nat),
{
    if d < 10 {
        digit_ascii(d)
    } else {
        match d {
            10 => 'a',
            11 => 'b',
            12 => 'c',
            13 => 'd',
            14 => 'e',
            _ => 'f',
        }
    }
}

fn push_digits(out: &mut String, v: u32)
    ensures
        final(out)@ == old(out)@ + dec_digits(v as nat),
    decreases v,
{
    if v < 10 {
        crate::codec::push_char(out, digit_ascii(v));
        proof {
            assert(old(out)@.push(digit_char(v as nat)) =~= old(out)@ + dec_digits(v as nat));
        }
    } else {
        push_digits(out, v / 10);
        crate::codec::push_char(out, digit_ascii(v % 10));
        proof {
            assert((old(out)@ + dec_digits((v / 10) as nat)).push(digit_char((v % 10) as nat))
                =~= old(out)@ + dec_digits(v as nat));
        }
    }
}

/// The decimal form of a value, as a string.
pub fn u32_to_decimal(v: u32) -> (r: String)
    ensures
        r@ == dec_digits(v as nat),
{
    let mut out = String::new();
    push_digits(&mut out, v);
    proof {
        assert(Seq::<char>::empty() + dec_digits(v as nat) =~= dec_digits(v as nat));
    }
    out
}

fn push_int(out: &mut String, v: i32)
    ensures
        final(out)@ == old(out)@ + int_chars(v as int),
{
    if v < 0 {
        crate::codec::push_char(out, '-');
        let m: u32 = (-(v as i64)) as u32;
        push_digits(out, m);
        proof {
            assert(old(out)@.push('-') + dec_digits(m as nat) =~= old(out)@ + int_chars(
                v as int,
            ));
        }
    } else {
        push_digits(out, v as u32);
    }
}

fn push_escaped(out: &mut String, s: &str)
    ensures
        final(out)@ == old(out)@ + esc_chars(s@),
{
    let n = s.unicode_len();
    let mut k: usize = 0;
    proof {
        assert(old(out)@ + esc_chars(s@.take(0)) =~= old(out)@);
    }
    while k < n
        invariant
            n == s@.len(),
            k <= n,
            out@ == old(out)@ + esc_chars(s@.take(k as int)),
        decreases n - k,
    {
        let c = s.get_char(k);
        let u = c as u32;
        if c == '"' {
            crate::codec::push_char(out, '\\');
            crate::codec::push_char(out, '"');
        } else if c == '\\' {
            crate::codec::push_char(out, '\\');
            crate::codec::push_char(out, '\\');
        } else if u < 32 {
            crate::codec::push_char(out, '\\');
            crate::codec::push_char(out, 'u');
            crate::codec::push_char(out, '0');
            crate::codec::push_char(out, '0');
            crate::codec::push_char(out, hex_ascii(u / 16));
            crate::codec::push_char(out, hex_ascii(u % 16));
        } else {
            crate::codec::push_char(out, c);
        }
        proof {
            lemma_esc_chars_snoc(s@.take(k as int), s@[k as int]);
            assert(s@.take(k + 1 as int) =~= s@.take(k as int).push(s@[k as int]));
            assert(out@ =~= old(out)@ + esc_chars(s@.take(k + 1 as int)));
        }
        k = k + 1;
    }
    proof {
        assert(s@.take(n as int) =~= s@);
    }
}

/// Escaping one more character extends the escaped form.
proof fn lemma_esc_chars_snoc(s: Seq<char>, c: char)
    ensures
        esc_chars(s.push(c)) == esc_chars(s) + esc_char(c),
    decreases s.len(),
{
    let t = s.push(c);
    if s.len() == 0 {
        assert(t[0] == c);
        assert(t.skip(1) =~= Seq::<char>::empty());
        assert(esc_chars(t.skip(1)) == Seq::<char>::empty());
        assert(esc_chars(t) == esc_char(c) + Seq::<char>::empty());
        assert(esc_char(c) + Seq::<char>::empty() =~= esc_char(c));
        assert(esc_chars(s) == Seq::<char>::empty());
        assert(esc_chars(s) + esc_char(c) =~= esc_char(c));
    } else {
        assert(t[0] == s[0]);
        assert(t.skip(1) =~= s.skip(1).push(c));
        lemma_esc_chars_snoc(s.skip(1), c);
        assert(esc_chars(t) == esc_char(s[0]) + (esc_chars(s.skip(1)) + esc_char(c)));
        assert(esc_char(s[0]) + (esc_chars(s.skip(1)) + esc_char(c)) =~= (esc_char(s[0])
            + esc_chars(s.skip(1))) + esc_char(c));
    }
}

/// Writes the canonical record line of one monument.
pub fn monument_to_line(m: &Monument) -> (r: String)
    ensures
        r@ == monument_line(m@),
{
    let mut out = String::new();
    out.append("{\"id\":");
    push_digits(&mut out, m.id);
    out.append(",\"asset\":\"");
    push_escaped(&mut out, m.asset.as_str());
    crate::codec::push_char(&mut out, '"');
    out.append(",\"description\":\"");
    push_escaped(&mut out, m.description.as_str());
    crate::codec::push_char(&mut out, '"');
    out.append(",\"position\":{\"x\":");
    push_int(&mut out, m.position.x);
    out.append(",\"y\":");
    push_int(&mut out, m.position.y);
    out.append("},\"under_construction\":");
    if m.under_construction {
        out.append("true");
    } else {
        out.append("false");
    }
    crate::codec::push_char(&mut out, '}');
    proof {
        assert(out@ =~= monument_line(m@));
    }
    out
}

// ---------------------------------------------------------------------------
// The executable parser. Each helper reads at a cursor position and relates
// its outcome to the specification parser applied to the characters from
// there.
// ---------------------------------------------------------------------------

fn expect(s: &str, n: usize, i: usize, lit: &str) -> (r: Option<usize>)
    requires
        n == s@.len(),
        i <= n,
    ensures
        match r {
            Some(j) => i <= j <= n && peel(s@.skip(i as int), lit@) == Some(s@.skip(j as int)),
            None => peel(s@.skip(i as int), lit@) is None,
        },
{
    let m = lit.unicode_len();
    if n - i < m {
        return None;
    }
    let mut t: usize = 0;
    while t < m
        invariant
            n == s@.len(),
            m == lit@.len(),
            i + m <= n,
            t <= m,
            forall|q: int| 0 <= q < t ==> s@[i + q] == lit@[q],
        decreases m - t,
    {
        if s.get_char(i + t) != lit.get_char(t) {
            proof {
                let rem = s@.skip(i as int);
                assert(rem.take(m as int)[t as int] == s@[i + t]);
                assert(rem.take(m as int) != lit@);
            }
            return None;
        }
        t = t + 1;
    }
    proof {
        let rem = s@.skip(i as int);
        assert(rem.take(m as int) =~= lit@);
        assert(rem.skip(m as int) =~= s@.skip(i + m as int));
    }
    Some(i + m)
}

fn take_u32_chars(s: &str, n: usize, i: usize) -> (r: Option<(u32, usize)>)
    requires
        n == s@.len(),
        i <= n,
    ensures
        match r {
            Some((v, j)) => i <= j <= n && parse_u32_chars(s@.skip(i as int)) == Some(
                (v, s@.skip(j as int)),
            ),
            None => parse_u32_chars(s@.skip(i as int)) is None,
        },
{
    let ghost rem = s@.skip(i as int);
    let mut c: usize = 0;
    loop
        invariant
            n == s@.len(),
            i <= n,
            i + c <= n,
            forall|q: int| 0 <= q < c ==> is_digit(#[trigger] s@[i + q]),
        ensures
            i + c <= n,
            forall|q: int| 0 <= q < c ==> is_digit(#[trigger] s@[i + q]),
            i + c == n || !is_digit(s@[i + c as int]),
        decreases n - i - c,
    {
        if i + c == n {
            break;
        }
        let ch = s.get_char(i + c);
        let u = ch as u32;
        if !(48 <= u && u <= 57) {
            break;
        }
        c = c + 1;
    }
    proof {
        assert forall|q: int| 0 <= q < c implies is_digit(#[trigger] rem[q]) by {
            assert(rem[q] == s@[i + q]);
        }
        assert(c == rem.len() || !is_digit(rem[c as int]));
        lemma_digits_prefix(rem, c as nat);
    }
    if c == 0 || c > 10 {
        return None;
    }
    let ghost ds = rem.take(c as int);
    let mut acc: u64 = 0;
    let mut k: usize = 0;
    while k < c
        invariant
            n == s@.len(),
            i + c <= n,
            k <= c <= 10,
            ds == s@.skip(i as int).take(c as int),
            ds.len() == c,
            forall|q: int| 0 <= q < c ==> is_digit(#[trigger] ds[q]),
            acc == digits_val(ds.take(k as int)),
            acc < pow10(k as nat),
        decreases c - k,
    {
        let ch = s.get_char(i + k);
        proof {
            assert(ds[k as int] == s@[i + k]);
            assert(is_digit(ds[k as int]));
        }
        let d = (ch as u32) - 48;
        proof {
            assert(acc * 10 + 9 < pow10(k as nat) * 10) by (nonlinear_arith)
                requires
                    acc < pow10(k as nat),
            ;
            assert(pow10((k + 1) as nat) == 10 * pow10(k as nat));
            assert(pow10(k as nat) <= pow10(10)) by {
                lemma_pow10_mono(k as nat, 10);
            }
            assert(pow10(10) == 10000000000) by {
                reveal_with_fuel(pow10, 11);
            }
            assert(ds.take(k + 1 as int).drop_last() =~= ds.take(k as int));
            assert(ds.take(k + 1 as int).last() == ds[k as int]);
        }
        acc = acc * 10 + (d as u64);
        k = k + 1;
    }
    proof {
        assert(ds.take(c as int) =~= ds);
    }
    if acc > 0xFFFF_FFFFu64 {
        return None;
    }
    proof {
        assert(rem.skip(c as int) =~= s@.skip(i + c as int));
    }
    Some((acc as u32, i + c))
}

fn take_i32_chars(s: &str, n: usize, i: usize) -> (r: Option<(i32, usize)>)
    requires
        n == s@.len(),
        i <= n,
    ensures
        match r {
            Some((v, j)) => i <= j <= n && parse_i32_chars(s@.skip(i as int)) == Some(
                (v, s@.skip(j as int)),
            ),
            None => parse_i32_chars(s@.skip(i as int)) is None,
        },
{
    if i < n && s.get_char(i) == '-' {
        proof {
            assert(s@.skip(i as int)[0] == s@[i as int]);
            assert(s@.skip(i as int).skip(1) =~= s@.skip(i + 1 as int));
        }
        match take_u32_chars(s, n, i + 1) {
            Some((u, j)) => if 1 <= u && u <= 0x8000_0000u32 {
                Some(((-(u as i64)) as i32, j))
            } else {
                None
            },
            None => None,
        }
    } else {
        proof {
            if i < n {
                assert(s@.skip(i as int)[0] == s@[i as int]);
            }
        }
        match take_u32_chars(s, n, i) {
            Some((u, j)) => if u <= 0x7FFF_FFFFu32 {
                Some((u as i32, j))
            } else {
                None
            },
            None => None,
        }
    }
}

fn take_jstring(s: &str, n: usize, i: usize) -> (r: Option<(String, usize)>)
    requires
        n == s@.len(),
        i <= n,
    ensures
        match r {
            Some((t, j)) => i <= j <= n && parse_jstring(s@.skip(i as int)) == Some(
                (t@, s@.skip(j as int)),
            ),
            None => parse_jstring(s@.skip(i as int)) is None,
        },
{
    let mut acc = String::new();
    let mut j: usize = i;
    proof {
        match parse_jstring(s@.skip(i as int)) {
            Some((t, r)) => {
                assert(Seq::<char>::empty() + t =~= t);
            },
            None => {},
        }
    }
    while j < n
        invariant
            n == s@.len(),
            i <= j <= n,
            parse_jstring(s@.skip(i as int)) == (match parse_jstring(s@.skip(j as int)) {
                Some((t, r)) => Some((acc@ + t, r)),
                None => None::<(Seq<char>, Seq<char>)>,
            }),
        decreases n - j,
    {
        let ghost rem = s@.skip(j as int);
        let ghost pre = acc@;
        let c = s.get_char(j);
        proof {
            assert(rem[0] == s@[j as int]);
        }
        if c == '"' {
            proof {
                assert(rem.skip(1) =~= s@.skip(j + 1 as int));
                assert(acc@ + Seq::<char>::empty() =~= acc@);
            }
            return Some((acc, j + 1));
        } else if c == '\\' {
            if n - j < 2 {
                return None;
            }
            let c2 = s.get_char(j + 1);
            proof {
                assert(rem[1] == s@[j + 1]);
            }
            if c2 == '"' || c2 == '\\' {
                crate::codec::push_char(&mut acc, c2);
                proof {
                    assert(rem.skip(2) =~= s@.skip(j + 2 as int));
                    match parse_jstring(s@.skip(j + 2 as int)) {
                        Some((t, r)) => {
                            assert(pre + (seq![c2] + t) =~= pre.push(c2) + t);
                        },
                        None => {},
                    }
                }
                j = j + 2;
            } else if c2 == 'u' {
                if n - j < 6 {
                    proof {
                        assert('u' as u32 == 117 && '"' as u32 == 34 && '\\' as u32 == 92);
                    }
                    return None;
                }
                let c3 = s.get_char(j + 2);
                let c4 = s.get_char(j + 3);
                let h1 = s.get_char(j + 4);
                let h2 = s.get_char(j + 5);
                proof {
                    assert(rem[2] == s@[j + 2] && rem[3] == s@[j + 3] && rem[4] == s@[j + 4]
                        && rem[5] == s@[j + 5]);
                    assert('u' as u32 == 117 && '"' as u32 == 34 && '\\' as u32 == 92);
                    assert('0' as u32 == 48 && '9' as u32 == 57 && 'a' as u32 == 97 && 'f' as u32
                        == 102);
                }
                if c3 != '0' || c4 != '0' {
                    return None;
                }
                let u1 = h1 as u32;
                let u2 = h2 as u32;
                let hex1 = (48 <= u1 && u1 <= 57) || (97 <= u1 && u1 <= 102);
                let hex2 = (48 <= u2 && u2 <= 57) || (97 <= u2 && u2 <= 102);
                if !hex1 || !hex2 {
                    return None;
                }
                let v1 = if u1 <= 57 {
                    u1 - 48
                } else {
                    u1 - 87
                };
                let v2 = if u2 <= 57 {
                    u2 - 48
                } else {
                    u2 - 87
                };
                let v = 16 * v1 + v2;
                if v >= 32 {
                    return None;
                }
                let cc = (v as u8) as char;
                proof {
                    assert(v1 == hex_val(rem[4]) && v2 == hex_val(rem[5]));
                    assert(cc == char_of(v as nat));
                }
                crate::codec::push_char(&mut acc, cc);
                proof {
                    assert(rem.skip(6) =~= s@.skip(j + 6 as int));
                    match parse_jstring(s@.skip(j + 6 as int)) {
                        Some((t, r)) => {
                            assert(pre + (seq![cc] + t) =~= pre.push(cc) + t);
                        },
                        None => {},
                    }
                }
                j = j + 6;
            } else {
                proof {
                    assert('u' as u32 == 117 && '"' as u32 == 34 && '\\' as u32 == 92);
                }
                return None;
            }
        } else if (c as u32) < 32 {
            return None;
        } else {
            crate::codec::push_char(&mut acc, c);
            proof {
                assert(rem.skip(1) =~= s@.skip(j + 1 as int));
                match parse_jstring(s@.skip(j + 1 as int)) {
                    Some((t, r)) => {
                        assert(pre + (seq![c] + t) =~= pre.push(c) + t);
                    },
                    None => {},
                }
            }
            j = j + 1;
        }
    }
    proof {
        assert(s@.skip(j as int).len() == 0);
    }
    None
}

fn take_bool_chars(s: &str, n: usize, i: usize) -> (r: Option<(bool, usize)>)
    requires
        n == s@.len(),
        i <= n,
    ensures
        match r {
            Some((b, j)) => i <= j <= n && parse_bool_chars(s@.skip(i as int)) == Some(
                (b, s@.skip(j as int)),
            ),
            None => parse_bool_chars(s@.skip(i as int)) is None,
        },
{
    match expect(s, n, i, "true") {
        Some(j) => Some((true, j)),
        None => match expect(s, n, i, "false") {
            Some(j) => Some((false, j)),
            None => None,
        },
    }
}

/// Reads one record line back; anything but the canonical form yields
/// nothing and has no further effect.
#[verifier::rlimit(100)]
pub fn monument_from_line(line: &str) -> (r: Option<Monument>)
    ensures
        match r {
            Some(m) => parse_monument_line(line@) == Some(m@),
            None => parse_monument_line(line@) is None,
        },
{
    let n = line.unicode_len();
    proof {
        assert(line@.skip(0) =~= line@);
    }
    let s1 = match expect(line, n, 0, "{\"id\":") {
        Some(j) => j,
        None => {
            return None;
        },
    };
    let (id, s2) = match take_u32_chars(line, n, s1) {
        Some(p) => p,
        None => {
            return None;
        },
    };
    let s3 = match expect(line, n, s2, ",\"asset\":\"") {
        Some(j) => j,
        None => {
            return None;
        },
    };
    let (asset, s4) = match take_jstring(line, n, s3) {
        Some(p) => p,
        None => {
            return None;
        },
    };
    let s5 = match expect(line, n, s4, ",\"description\":\"") {
        Some(j) => j,
        None => {
            return None;
        },
    };
    let (description, s6) = match take_jstring(line, n, s5) {
        Some(p) => p,
        None => {
            return None;
        },
    };
    let s7 = match expect(line, n, s6, ",\"position\":{\"x\":") {
        Some(j) => j,
        None => {
            return None;
        },
    };
    let (x, s8) = match take_i32_chars(line, n, s7) {
        Some(p) => p,
        None => {
            return None;
        },
    };
    let s9 = match expect(line, n, s8, ",\"y\":") {
        Some(j) => j,
        None => {
            return None;
        },
    };
    let (y, s10) = match take_i32_chars(line, n, s9) {
        Some(p) => p,
        None => {
            return None;
        },
    };
    let s11 = match expect(line, n, s10, "},\"under_construction\":") {
        Some(j) => j,
        None => {
            return None;
        },
    };
    let (under_construction, s12) = match take_bool_chars(line, n, s11) {
        Some(p) => p,
        None => {
            return None;
        },
    };
    if n - s12 == 1 && line.get_char(s12) == '}' {
        proof {
            assert(line@.skip(s12 as int) =~= seq!['}']);
        }
        Some(
            Monument {
                id,
                asset,
                description,
                position: Coordinate { x, y },
                under_construction,
            },
        )
    } else {
        proof {
            let tail = line@.skip(s12 as int);
            if s12 < n {
                assert(tail[0] == line@[s12 as int]);
            }
            assert(!(tail =~= seq!['}']));
        }
        None
    }
}

/// Reads an unsigned 32-bit decimal number that fills the whole string:
/// how a webhook's identity field is read.
pub open spec fn parse_u32_str(s: Seq<char>) -> Option<u32> {
    match parse_u32_chars(s) {
        Some((v, rest)) => if rest.len() == 0 {
            Some(v)
        } else {
            None
        },
        None => None,
    }
}

/// Reads a whole string as an unsigned 32-bit decimal number.
pub fn parse_u32(s: &str) -> (r: Option<u32>)
    ensures
        r == parse_u32_str(s@),
{
    let n = s.unicode_len();
    proof {
        assert(s@.skip(0) =~= s@);
    }
    match take_u32_chars(s, n, 0) {
        Some((v, j)) => if j == n {
            Some(v)
        } else {
            None
        },
        None => None,
    }
}

// ---------------------------------------------------------------------------
// Replaying the log.
// ---------------------------------------------------------------------------

/// The monument map after replaying the log lines in order: each readable
/// record overwrites its identity's entry, and the replay stops at the
/// first unreadable line, keeping what was restored before it.
pub open spec fn replay(
    m: Map<u32, MonumentModel>,
    lines: Seq<Seq<char>>,
) -> Map<u32, MonumentModel>
    decreases lines.len(),
{
    if lines.len() == 0 {
        m
    } else {
        match parse_monument_line(lines[0]) {
            Some(rec) => replay(m.insert(rec.id, rec), lines.skip(1)),
            None => m,
        }
    }
}

/// True when every log line reads back as a record.
pub open spec fn replay_ok(lines: Seq<Seq<char>>) -> bool
    decreases lines.len(),
{
    lines.len() == 0 || (parse_monument_line(lines[0]) is Some && replay_ok(lines.skip(1)))
}

/// The log lines as character sequences.
pub open spec fn line_models(lines: Seq<String>) -> Seq<Seq<char>> {
    lines.map_values(|l: String| l@)
}

/// The record lines of a record sequence.
pub open spec fn monument_lines(records: Seq<MonumentModel>) -> Seq<Seq<char>> {
    records.map_values(|r: MonumentModel| monument_line(r))
}

/// The monument map after storing the records in order, the last per
/// identity winning.
pub open spec fn last_wins(
    m: Map<u32, MonumentModel>,
    records: Seq<MonumentModel>,
) -> Map<u32, MonumentModel>
    decreases records.len(),
{
    if records.len() == 0 {
        m
    } else {
        last_wins(m.insert(records[0].id, records[0]), records.skip(1))
    }
}

/// True when some record of the sequence carries the identity.
pub open spec fn appears(records: Seq<MonumentModel>, k: u32) -> bool {
    exists|i: int| 0 <= i < records.len() && (#[trigger] records[i]).id == k
}

/// An identity that no record carries keeps its entry through the fold.
proof fn lemma_last_wins_untouched(m: Map<u32, MonumentModel>, records: Seq<MonumentModel>, k: u32)
    requires
        !appears(records, k),
    ensures
        last_wins(m, records).dom().contains(k) == m.dom().contains(k),
        m.dom().contains(k) ==> last_wins(m, records)[k] == m[k],
    decreases records.len(),
{
    if records.len() > 0 {
        let r0 = records[0];
        assert(r0.id != k);
        assert(forall|i: int|
            0 <= i < records.skip(1).len() ==> (#[trigger] records.skip(1)[i]).id != k) by {
            assert(forall|i: int|
                0 <= i < records.skip(1).len() ==> records.skip(1)[i] == records[i + 1]);
        }
        lemma_last_wins_untouched(m.insert(r0.id, r0), records.skip(1), k);
    }
}

/// The entry of an identity that some record carries is decided by the
/// records alone, whatever map the fold started from.
proof fn lemma_last_wins_covered(
    m1: Map<u32, MonumentModel>,
    m2: Map<u32, MonumentModel>,
    records: Seq<MonumentModel>,
    k: u32,
)
    requires
        appears(records, k),
    ensures
        last_wins(m1, records).dom().contains(k),
        last_wins(m2, records).dom().contains(k),
        last_wins(m1, records)[k] == last_wins(m2, records)[k],
    decreases records.len(),
{
    let r0 = records[0];
    let tail = records.skip(1);
    assert(forall|i: int| 0 <= i < tail.len() ==> #[trigger] tail[i] == records[i + 1]);
    if appears(tail, k) {
        lemma_last_wins_covered(m1.insert(r0.id, r0), m2.insert(r0.id, r0), tail, k);
    } else {
        assert(r0.id == k) by {
            let i = choose|i: int| 0 <= i < records.len() && (#[trigger] records[i]).id == k;
            if i > 0 {
                assert(tail[i - 1] == records[i]);
                assert(appears(tail, k));
            }
        }
        lemma_last_wins_untouched(m1.insert(k, r0), tail, k);
        lemma_last_wins_untouched(m2.insert(k, r0), tail, k);
    }
}

/// The idempotency law of restoring: replaying a written log into the map it
/// already produced changes nothing — the last record per identity has
/// already won.
pub proof fn lemma_restore_idempotent(m: Map<u32, MonumentModel>, records: Seq<MonumentModel>)
    ensures
        last_wins(last_wins(m, records), records) == last_wins(m, records),
        replay(replay(m, monument_lines(records)), monument_lines(records)) == replay(
            m,
            monument_lines(records),
        ),
{
    lemma_restore_round_trip(m, records);
    lemma_restore_round_trip(last_wins(m, records), records);
    let once = last_wins(m, records);
    let twice = last_wins(once, records);
    assert forall|k: u32| true implies #[trigger] twice.dom().contains(k) == once.dom().contains(
        k,
    ) && (once.dom().contains(k) ==> twice[k] == once[k]) by {
        if appears(records, k) {
            lemma_last_wins_covered(once, m, records, k);
        } else {
            lemma_last_wins_untouched(once, records, k);
        }
    }
    assert(twice =~= once);
}

/// The round-trip law of persistence: writing any number of records and
/// replaying the written log restores, for each identity, exactly the
/// last-written record, with nothing lost and nothing invented.
pub proof fn lemma_restore_round_trip(m: Map<u32, MonumentModel>, records: Seq<MonumentModel>)
    ensures
        replay(m, monument_lines(records)) == last_wins(m, records),
        replay_ok(monument_lines(records)),
    decreases records.len(),
{
    if records.len() == 0 {
    } else {
        lemma_line_round_trip(records[0]);
        assert(monument_lines(records)[0] == monument_line(records[0]));
        assert(monument_lines(records).skip(1) =~= monument_lines(records.skip(1)));
        lemma_restore_round_trip(m.insert(records[0].id, records[0]), records.skip(1));
    }
}

impl crate::world::World {
    /// Replays the durable log into the monument table, line by line in log
    /// order, before the world accepts connections. Returns whether the whole
    /// log was readable; an unreadable line stops the replay there, keeping
    /// what earlier lines restored — an unrestorable log simply leaves fewer
    /// monuments, never a broken world.
    pub fn restore_from_log(&mut self, lines: &Vec<String>) -> (r: bool)
        requires
            old(self).wf(),
        ensures
            final(self).wf(),
            final(self).players == old(self).players,
            final(self).monuments_map() == replay(old(self).monuments_map(), line_models(lines@)),
            r == replay_ok(line_models(lines@)),
    {
        let ghost lm = line_models(lines@);
        let ghost m0 = self.monuments_map();
        let mut k: usize = 0;
        proof {
            assert(lm.skip(0) =~= lm);
        }
        while k < lines.len()
            invariant
                self.wf(),
                k <= lines@.len(),
                lm == line_models(lines@),
                lm.len() == lines@.len(),
                m0 == old(self).monuments_map(),
                self.players == old(self).players,
                replay(m0, lm) == replay(self.monuments_map(), lm.skip(k as int)),
                replay_ok(lm) == replay_ok(lm.skip(k as int)),
            decreases lines@.len() - k,
        {
            let ghost pre = self.monuments_map();
            proof {
                assert(lm.skip(k as int)[0] == lm[k as int]);
                assert(lm[k as int] == lines@[k as int]@);
                assert(lm.skip(k as int).skip(1) =~= lm.skip(k + 1 as int));
            }
            match monument_from_line(lines[k].as_str()) {
                Some(monument) => {
                    let ghost rec = monument@;
                    self.add_monument(monument);
                    proof {
                        assert(replay(pre, lm.skip(k as int)) == replay(
                            pre.insert(rec.id, rec),
                            lm.skip(k + 1 as int),
                        ));
                    }
                },
                None => {
                    proof {
                        assert(replay(pre, lm.skip(k as int)) == pre);
                        assert(!replay_ok(lm.skip(k as int)));
                    }
                    return false;
                },
            }
            k = k + 1;
        }
        proof {
            assert(lm.skip(lm.len() as int) =~= Seq::<Seq<char>>::empty());
        }
        true
    }
}

} // verus!
