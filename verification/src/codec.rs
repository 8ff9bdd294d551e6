//! The percent codec: two independent, stateless transformations over
//! character sequences.
//!
//! Encoding escapes, as `%` plus two uppercase hexadecimal digits, every
//! byte of the UTF-8 encoding that is outside ASCII or belongs to a fixed
//! unsafe set (controls, space, `"#%<>`, backtick, `?{};=+@\[]^|`).
//! Decoding is permissive: `%` followed by two hexadecimal digits yields a
//! byte, anything else passes through; the decoded bytes must then form
//! valid UTF-8 or decoding fails.

use crate::strutil::push_char;
use vstd::prelude::*;
use vstd::string::*;
use vstd::utf8::*;

verus! {

/// ASCII bytes escaped by the canonical formatter: the control bytes,
/// space, `"`, `#`, `%`, `<`, `>`, backtick, `?`, `{`, `}`, `;`, `=`, `+`,
/// `@`, backslash, `[`, `]`, `^` and `|`.
pub open spec fn escape_set_byte(b: u8) -> bool {
    ||| b < 0x20
    ||| b == 0x7f
    ||| b == 0x20  // space
    ||| b == 0x22  // "
    ||| b == 0x23  // #
    ||| b == 0x25  // %
    ||| b == 0x3c  // <
    ||| b == 0x3e  // >
    ||| b == 0x60  // `
    ||| b == 0x3f  // ?
    ||| b == 0x7b  // {
    ||| b == 0x7d  // }
    ||| b == 0x3b  // ;
    ||| b == 0x3d  // =
    ||| b == 0x2b  // +
    ||| b == 0x40  // @
    ||| b == 0x5c  // backslash
    ||| b == 0x5b  // [
    ||| b == 0x5d  // ]
    ||| b == 0x5e  // ^
    ||| b == 0x7c  // |
}

/// A character the encoder escapes: every non-ASCII character and the
/// ASCII characters of the unsafe set.
pub open spec fn needs_escape(c: char) -> bool {
    (c as u32) >= 0x80 || escape_set_byte((c as u32) as u8)
}

/// A hexadecimal digit, either case.
pub open spec fn is_hex_char(c: char) -> bool {
    ||| 48 <= (c as u32) && (c as u32) <= 57
    ||| 97 <= (c as u32) && (c as u32) <= 102
    ||| 65 <= (c as u32) && (c as u32) <= 70
}

/// Numeric value of a hexadecimal digit.
pub open spec fn hex_value(c: char) -> u32
    recommends
        is_hex_char(c),
{
    let u = c as u32;
    if 48 <= u && u <= 57 {
        (u - 48) as u32
    } else if 97 <= u && u <= 102 {
        (u - 87) as u32
    } else {
        (u - 55) as u32
    }
}

/// Uppercase hexadecimal digit of a value below 16.
pub open spec fn hex_upper_char(v: u8) -> char
    recommends
        v < 16,
{
    if v < 10 {
        (((v + 48) as u8) as char)
    } else {
        (((v + 55) as u8) as char)
    }
}

/// The three characters `%XY` escaping one byte.
pub open spec fn escape_byte(b: u8) -> Seq<char> {
    seq!['%', hex_upper_char(b / 16), hex_upper_char(b % 16)]
}

/// Each byte escaped in turn.
pub open spec fn escape_bytes(bs: Seq<u8>) -> Seq<char>
    decreases bs.len(),
{
    if bs.len() == 0 {
        Seq::empty()
    } else {
        escape_byte(bs[0]) + escape_bytes(bs.drop_first())
    }
}

/// One character as the encoder emits it: itself when safe, otherwise the
/// escapes of its UTF-8 bytes.
pub open spec fn pe_char(c: char) -> Seq<char> {
    if needs_escape(c) {
        escape_bytes(encode_scalar(c as u32))
    } else {
        seq![c]
    }
}

/// The canonical percent-encoding of a character sequence.
pub open spec fn pe(s: Seq<char>) -> Seq<char>
    decreases s.len(),
{
    if s.len() == 0 {
        Seq::empty()
    } else {
        pe_char(s[0]) + pe(s.drop_first())
    }
}

/// The bytes yielded by permissive percent-decoding: `%` with two
/// hexadecimal digits becomes one byte, any other character passes
/// through as its UTF-8 bytes.
pub open spec fn pd_bytes(s: Seq<char>) -> Seq<u8>
    decreases s.len(),
{
    if s.len() == 0 {
        Seq::empty()
    } else if s[0] == '%' && s.len() >= 3 && is_hex_char(s[1]) && is_hex_char(s[2]) {
        seq![((hex_value(s[1]) * 16 + hex_value(s[2])) as u8)] + pd_bytes(s.skip(3))
    } else {
        encode_scalar(s[0] as u32) + pd_bytes(s.drop_first())
    }
}

/// The percent-decoding of a character sequence; `None` exactly when the
/// decoded bytes are not valid UTF-8.
pub open spec fn pd(s: Seq<char>) -> Option<Seq<char>> {
    if valid_utf8(pd_bytes(s)) {
        Some(decode_utf8(pd_bytes(s)))
    } else {
        None
    }
}

// --- executable encoder ---
fn is_escape_set(b: u8) -> (r: bool)
    ensures
        r == escape_set_byte(b),
{
    b < 0x20 || b == 0x7f || b == 0x20 || b == 0x22 || b == 0x23 || b == 0x25 || b == 0x3c || b
        == 0x3e || b == 0x60 || b == 0x3f || b == 0x7b || b == 0x7d || b == 0x3b || b == 0x3d || b
        == 0x2b || b == 0x40 || b == 0x5c || b == 0x5b || b == 0x5d || b == 0x5e || b == 0x7c
}

fn hex_upper(v: u8) -> (r: char)
    requires
        v < 16,
    ensures
        r == hex_upper_char(v),
{
    if v < 10 {
        (v + 48) as char
    } else {
        (v + 55) as char
    }
}

fn is_hex(c: char) -> (r: bool)
    ensures
        r == is_hex_char(c),
{
    let u = c as u32;
    (48 <= u && u <= 57) || (97 <= u && u <= 102) || (65 <= u && u <= 70)
}

fn hex_val(c: char) -> (r: u8)
    requires
        is_hex_char(c),
    ensures
        r == hex_value(c),
        r < 16,
{
    let u = c as u32;
    if 48 <= u && u <= 57 {
        (u - 48) as u8
    } else if 97 <= u && u <= 102 {
        (u - 87) as u8
    } else {
        (u - 55) as u8
    }
}

/// The UTF-8 bytes of one character.
fn scalar_bytes(c: char) -> (r: Vec<u8>)
    ensures
        r@ == encode_scalar(c as u32),
        1 <= r@.len() <= 4,
{
    let u = c as u32;
    proof {
        char_is_scalar(c);
    }
    let mut v: Vec<u8> = Vec::new();
    if u < 0x80 {
        v.push((u & 0x7F) as u8);
        proof {
            assert(v@ =~= encode_scalar(u));
        }
    } else if u < 0x800 {
        v.push(0xC0 | ((u >> 6) & 0x1F) as u8);
        v.push(0x80 | (u & 0x3F) as u8);
        proof {
            assert(v@ =~= encode_scalar(u));
        }
    } else if u < 0x10000 {
        v.push(0xE0 | ((u >> 12) & 0x0F) as u8);
        v.push(0x80 | ((u >> 6) & 0x3F) as u8);
        v.push(0x80 | (u & 0x3F) as u8);
        proof {
            assert(v@ =~= encode_scalar(u));
        }
    } else {
        v.push(0xF0 | ((u >> 18) & 0x7) as u8);
        v.push(0x80 | ((u >> 12) & 0x3F) as u8);
        v.push(0x80 | ((u >> 6) & 0x3F) as u8);
        v.push(0x80 | (u & 0x3F) as u8);
        proof {
            assert(v@ =~= encode_scalar(u));
        }
    }
    v
}

/// Appending one character extends the encoding by that character's part.
proof fn lemma_pe_push(t: Seq<char>, c: char)
    ensures
        pe(t.push(c)) == pe(t) + pe_char(c),
    decreases t.len(),
{
    reveal_with_fuel(pe, 3);
    if t.len() == 0 {
        assert(t.push(c)[0] == c);
        assert(t.push(c).drop_first() =~= Seq::<char>::empty());
        assert(pe(t.push(c)) =~= pe(t) + pe_char(c));
    } else {
        assert(t.push(c)[0] == t[0]);
        assert(t.push(c).drop_first() =~= t.drop_first().push(c));
        lemma_pe_push(t.drop_first(), c);
        assert(pe(t.push(c)) == pe_char(t[0]) + pe(t.drop_first().push(c)));
        assert(pe(t.push(c)) == pe_char(t[0]) + (pe(t.drop_first()) + pe_char(c)));
        assert(pe(t) == pe_char(t[0]) + pe(t.drop_first()));
        assert(pe(t.push(c)) =~= pe(t) + pe_char(c));
    }
}

proof fn lemma_escape_bytes_push(bs: Seq<u8>, b: u8)
    ensures
        escape_bytes(bs.push(b)) == escape_bytes(bs) + escape_byte(b),
    decreases bs.len(),
{
    reveal_with_fuel(escape_bytes, 3);
    if bs.len() == 0 {
        assert(bs.push(b)[0] == b);
        assert(bs.push(b).drop_first() =~= Seq::<u8>::empty());
        assert(escape_bytes(bs.push(b)) =~= escape_bytes(bs) + escape_byte(b));
    } else {
        assert(bs.push(b)[0] == bs[0]);
        assert(bs.push(b).drop_first() =~= bs.drop_first().push(b));
        lemma_escape_bytes_push(bs.drop_first(), b);
        assert(escape_bytes(bs.push(b)) == escape_byte(bs[0]) + escape_bytes(
            bs.drop_first().push(b),
        ));
        assert(escape_bytes(bs.push(b)) == escape_byte(bs[0]) + (escape_bytes(bs.drop_first())
            + escape_byte(b)));
        assert(escape_bytes(bs) == escape_byte(bs[0]) + escape_bytes(bs.drop_first()));
        assert(escape_bytes(bs.push(b)) =~= escape_bytes(bs) + escape_byte(b));
    }
}

/// Escape every byte of `bs` onto the end of `out`.
fn push_escaped(out: &mut String, bs: &Vec<u8>)
    ensures
        final(out)@ == old(out)@ + escape_bytes(bs@),
{
    let n = bs.len();
    let mut k: usize = 0;
    proof {
        assert(bs@.take(0) =~= Seq::<u8>::empty());
        assert(old(out)@ + escape_bytes(bs@.take(0)) =~= old(out)@);
    }
    while k < n
        invariant
            n == bs@.len(),
            0 <= k <= n,
            out@ == old(out)@ + escape_bytes(bs@.take(k as int)),
        decreases n - k,
    {
        let b = bs[k];
        push_char(out, '%');
        push_char(out, hex_upper(b / 16));
        push_char(out, hex_upper(b % 16));
        proof {
            assert(bs@.take(k + 1).drop_last() =~= bs@.take(k as int));
            assert(bs@.take(k + 1) =~= bs@.take(k as int).push(b));
            lemma_escape_bytes_push(bs@.take(k as int), b);
            assert(out@ =~= old(out)@ + escape_bytes(bs@.take(k + 1)));
        }
        k += 1;
    }
    proof {
        assert(bs@.take(n as int) =~= bs@);
    }
}

/// Canonical percent-encoding of a string.
pub fn percent_encode(input: &str) -> (r: String)
    ensures
        r@ == pe(input@),
{
    let n = input.unicode_len();
    let mut out = String::new();
    let mut i: usize = 0;
    proof {
        assert(input@.take(0) =~= Seq::<char>::empty());
    }
    while i < n
        invariant
            n == input@.len(),
            0 <= i <= n,
            out@ == pe(input@.take(i as int)),
        decreases n - i,
    {
        let c = input.get_char(i);
        let u = c as u32;
        if u < 0x80 && !is_escape_set(u as u8) {
            push_char(&mut out, c);
            proof {
                assert(pe_char(c) =~= seq![c]);
                assert(out@ =~= pe(input@.take(i as int)) + pe_char(c));
            }
        } else {
            let bs = scalar_bytes(c);
            push_escaped(&mut out, &bs);
        }
        proof {
            assert(input@.take(i + 1) =~= input@.take(i as int).push(input@[i as int]));
            lemma_pe_push(input@.take(i as int), input@[i as int]);
        }
        i += 1;
    }
    proof {
        assert(input@.take(n as int) =~= input@);
    }
    out
}

// --- executable decoder ---
/// Relies on `String::from_utf8`, which succeeds exactly on byte vectors
/// that are valid UTF-8 and returns the string they encode.
#[verifier::external_body]
fn string_from_utf8(bytes: Vec<u8>) -> (r: Option<String>)
    ensures
        match r {
            Some(s) => valid_utf8(bytes@) && encode_utf8(s@) == bytes@,
            None => !valid_utf8(bytes@),
        },
{
    match String::from_utf8(bytes) {
        Ok(s) => Some(s),
        Err(_) => None,
    }
}

/// Permissive percent-decoding of a string; `None` exactly when the
/// decoded bytes are not valid UTF-8.
pub fn percent_decode(input: &str) -> (r: Option<String>)
    ensures
        match r {
            Some(t) => pd(input@) == Some(t@),
            None => pd(input@) is None,
        },
{
    let n = input.unicode_len();
    let mut bytes: Vec<u8> = Vec::new();
    let mut i: usize = 0;
    proof {
        assert(input@.skip(0) =~= input@);
        assert(bytes@ + pd_bytes(input@) =~= pd_bytes(input@));
    }
    while i < n
        invariant
            n == input@.len(),
            0 <= i <= n,
            pd_bytes(input@) == bytes@ + pd_bytes(input@.skip(i as int)),
        decreases n - i,
    {
        let ghost rest = input@.skip(i as int);
        let c = input.get_char(i);
        if c == '%' && n - i > 2 {
            let h1 = input.get_char(i + 1);
            let h2 = input.get_char(i + 2);
            if is_hex(h1) && is_hex(h2) {
                let b = hex_val(h1) * 16 + hex_val(h2);
                bytes.push(b);
                proof {
                    assert(rest[0] == '%' && rest.len() >= 3);
                    assert(rest[1] == input@[i + 1] && rest[2] == input@[i + 2]);
                    assert(rest.skip(3) =~= input@.skip(i + 3));
                    assert(pd_bytes(rest) =~= seq![b] + pd_bytes(input@.skip(i + 3)));
                    assert(bytes@ + pd_bytes(input@.skip(i + 3)) =~= pd_bytes(input@));
                }
                i += 3;
                continue ;
            }
        }
        let mut bs = scalar_bytes(c);
        bytes.append(&mut bs);
        proof {
            assert(rest[0] == c);
            assert(!(rest[0] == '%' && rest.len() >= 3 && is_hex_char(rest[1]) && is_hex_char(
                rest[2],
            )));
            assert(rest.drop_first() =~= input@.skip(i + 1));
            assert(pd_bytes(rest) =~= encode_scalar(c as u32) + pd_bytes(input@.skip(i + 1)));
            assert(bytes@ + pd_bytes(input@.skip(i + 1)) =~= pd_bytes(input@));
        }
        i += 1;
    }
    proof {
        assert(input@.skip(n as int) =~= Seq::<char>::empty());
        assert(bytes@ =~= pd_bytes(input@));
    }
    match string_from_utf8(bytes) {
        Some(t) => {
            proof {
                vstd::utf8::decode_utf8_encode_utf8(encode_utf8(t@));
                vstd::utf8::encode_utf8_decode_utf8(t@);
            }
            Some(t)
        },
        None => None,
    }
}

// --- the round trip ---
proof fn lemma_hex_char_roundtrip(v: u8)
    requires
        v < 16,
    ensures
        is_hex_char(hex_upper_char(v)),
        hex_value(hex_upper_char(v)) == v,
        hex_upper_char(v) != '%',
{
}

/// Decoding consumes an escaped byte run exactly.
proof fn lemma_pd_escape(bs: Seq<u8>, t: Seq<char>)
    ensures
        pd_bytes(escape_bytes(bs) + t) == bs + pd_bytes(t),
    decreases bs.len(),
{
    if bs.len() == 0 {
        assert(escape_bytes(bs) + t =~= t);
        assert(bs + pd_bytes(t) =~= pd_bytes(t));
    } else {
        let b = bs[0];
        let e = escape_byte(b);
        let rest = escape_bytes(bs.drop_first()) + t;
        assert(escape_bytes(bs) + t =~= e + rest);
        let w = e + rest;
        lemma_hex_char_roundtrip(b / 16);
        lemma_hex_char_roundtrip(b % 16);
        assert(w[0] == '%' && w.len() >= 3 && w[1] == hex_upper_char(b / 16) && w[2]
            == hex_upper_char(b % 16));
        assert(w.skip(3) =~= rest);
        assert((hex_value(w[1]) * 16 + hex_value(w[2])) as u8 == b);
        lemma_pd_escape(bs.drop_first(), t);
        assert(pd_bytes(w) =~= bs + pd_bytes(t));
    }
}

/// Decoding the encoding of `s` yields exactly the UTF-8 bytes of `s`.
proof fn lemma_pd_bytes_pe(s: Seq<char>)
    ensures
        pd_bytes(pe(s)) == encode_utf8(s),
    decreases s.len(),
{
    if s.len() == 0 {
        assert(pd_bytes(pe(s)) =~= encode_utf8(s));
    } else {
        let c = s[0];
        lemma_pd_bytes_pe(s.drop_first());
        if needs_escape(c) {
            lemma_pd_escape(encode_scalar(c as u32), pe(s.drop_first()));
            assert(pe(s) =~= escape_bytes(encode_scalar(c as u32)) + pe(s.drop_first()));
            assert(pd_bytes(pe(s)) =~= encode_utf8(s));
        } else {
            let w = pe(s);
            assert(w =~= seq![c] + pe(s.drop_first()));
            assert(w[0] == c);
            assert(c != '%') by {
                assert(('%' as u32) == 0x25);
            }
            assert(w.drop_first() =~= pe(s.drop_first()));
            assert(pd_bytes(w) =~= encode_scalar(c as u32) + pd_bytes(pe(s.drop_first())));
            assert(pd_bytes(pe(s)) =~= encode_utf8(s));
        }
    }
}

/// The percent codec round trip: decoding an encoded sequence restores it
/// exactly, for every character sequence.
pub proof fn lemma_percent_roundtrip(s: Seq<char>)
    ensures
        pd(pe(s)) == Some(s),
{
    lemma_pd_bytes_pe(s);
    vstd::utf8::encode_utf8_valid_utf8(s);
    vstd::utf8::encode_utf8_decode_utf8(s);
}

// --- what characters encoder output can hold ---
/// An uppercase hexadecimal digit.
pub open spec fn is_upper_hex(c: char) -> bool {
    ||| 48 <= (c as u32) && (c as u32) <= 57
    ||| 65 <= (c as u32) && (c as u32) <= 70
}

/// Every character of encoder output is `%`, an uppercase hexadecimal
/// digit, or an unescaped character of the source.
pub open spec fn pe_char_from(c: char, s: Seq<char>) -> bool {
    ||| c == '%'
    ||| is_upper_hex(c)
    ||| (!needs_escape(c) && s.contains(c))
}

proof fn lemma_escape_bytes_chars(bs: Seq<u8>)
    ensures
        forall|i: int|
            0 <= i < escape_bytes(bs).len() ==> (#[trigger] escape_bytes(bs)[i] == '%'
                || is_upper_hex(escape_bytes(bs)[i])),
    decreases bs.len(),
{
    if bs.len() > 0 {
        lemma_escape_bytes_chars(bs.drop_first());
        let e = escape_byte(bs[0]);
        assert(is_upper_hex(hex_upper_char(bs[0] / 16)));
        assert(is_upper_hex(hex_upper_char(bs[0] % 16)));
        assert(forall|i: int|
            0 <= i < escape_bytes(bs).len() ==> escape_bytes(bs)[i] == (if i < 3 {
                e[i]
            } else {
                escape_bytes(bs.drop_first())[i - 3]
            }));
    }
}

/// The characters the encoder can emit for `s`.
pub proof fn lemma_pe_chars(s: Seq<char>)
    ensures
        forall|i: int| 0 <= i < pe(s).len() ==> pe_char_from(#[trigger] pe(s)[i], s),
    decreases s.len(),
{
    if s.len() > 0 {
        lemma_pe_chars(s.drop_first());
        let h = pe_char(s[0]);
        let t = pe(s.drop_first());
        assert(pe(s) == h + t);
        if needs_escape(s[0]) {
            lemma_escape_bytes_chars(encode_scalar(s[0] as u32));
        } else {
            assert(s.contains(s[0]));
            assert(h[0] == s[0]);
        }
        assert forall|i: int| 0 <= i < pe(s).len() implies pe_char_from(#[trigger] pe(s)[i], s) by {
            if i < h.len() {
                assert(pe(s)[i] == h[i]);
            } else {
                assert(pe(s)[i] == t[i - h.len()]);
                assert(pe_char_from(t[i - h.len()], s.drop_first()));
                if !(t[i - h.len()] == '%' || is_upper_hex(t[i - h.len()])) {
                    let c = t[i - h.len()];
                    let w = choose|w: int| 0 <= w < s.drop_first().len() && s.drop_first()[w] == c;
                    assert(s[w + 1] == c);
                    assert(s.contains(c));
                }
            }
        }
    }
}

/// A character that the encoder escapes, other than `%` and the
/// hexadecimal digits, never appears in encoder output.
pub proof fn lemma_pe_absent_escaped(s: Seq<char>, c: char)
    requires
        needs_escape(c),
        !is_upper_hex(c),
        c != '%',
    ensures
        forall|i: int| 0 <= i < pe(s).len() ==> #[trigger] pe(s)[i] != c,
{
    lemma_pe_chars(s);
}

/// An unescaped character outside `%` and the hexadecimal digits appears
/// in encoder output only where the source holds it.
pub proof fn lemma_pe_absent_unescaped(s: Seq<char>, c: char)
    requires
        !is_upper_hex(c),
        c != '%',
        !s.contains(c),
    ensures
        forall|i: int| 0 <= i < pe(s).len() ==> #[trigger] pe(s)[i] != c,
{
    lemma_pe_chars(s);
}

/// Encoder output is empty exactly for an empty source.
pub proof fn lemma_pe_empty(s: Seq<char>)
    ensures
        (pe(s).len() == 0) == (s.len() == 0),
        s.len() > 0 ==> pe(s).len() > 0 && pe(s)[0] == pe_char(s[0])[0],
    decreases s.len(),
{
    if s.len() > 0 {
        let h = pe_char(s[0]);
        if needs_escape(s[0]) {
            vstd::utf8::char_is_scalar(s[0]);
            assert(encode_scalar(s[0] as u32).len() >= 1);
            assert(escape_bytes(encode_scalar(s[0] as u32)).len() >= 3) by {
                let bs = encode_scalar(s[0] as u32);
                assert(escape_bytes(bs) == escape_byte(bs[0]) + escape_bytes(bs.drop_first()));
            }
        }
        assert(h.len() >= 1);
        assert(pe(s)[0] == h[0]);
    }
}

/// Decoding a non-empty sequence, where it succeeds, yields a non-empty
/// sequence.
pub proof fn lemma_pd_nonempty(s: Seq<char>)
    requires
        s.len() > 0,
    ensures
        pd(s) matches Some(t) ==> t.len() > 0,
{
    if valid_utf8(pd_bytes(s)) {
        assert(pd_bytes(s).len() > 0) by {
            if s[0] == '%' && s.len() >= 3 && is_hex_char(s[1]) && is_hex_char(s[2]) {
            } else {
                vstd::utf8::char_is_scalar(s[0]);
            }
        }
        reveal_with_fuel(vstd::utf8::decode_utf8, 2);
        assert(decode_utf8(pd_bytes(s)).len() > 0);
    }
}

/// The encoder is injective: what encodes equally was equal.
pub proof fn lemma_pe_injective(a: Seq<char>, b: Seq<char>)
    requires
        pe(a) == pe(b),
    ensures
        a == b,
{
    lemma_percent_roundtrip(a);
    lemma_percent_roundtrip(b);
}

} // verus!
