//! The file a root key is kept in: 32 raw bytes, or their 64 hexadecimal digits.

use crate::bytes::exactly;
use crate::envelope::RootKey;
use crate::framing::{lossy, text_of};
use crate::text::{
    chars_of, hex_bytes, hex_text, hex_value, law_hex_is_digits_and_nothing_else,
    law_hex_round_trips, lowered, unhex,
};
use vstd::prelude::*;
use vstd::string::StrSliceExecFns;
use vstd::utf8::{
    decode_utf8_encode_utf8, encode_utf8, encode_utf8_decode_utf8, encode_utf8_valid_utf8,
    is_ascii_chars, is_ascii_chars_encode_utf8, valid_utf8,
};

verus! {

/// Whether a character is white space, as Unicode has it.
pub open spec fn is_white(c: char) -> bool {
    let n = c as int;
    ||| 0x9 <= n <= 0xd
    ||| n == 0x20 || n == 0x85 || n == 0xa0 || n == 0x1680
    ||| 0x2000 <= n <= 0x200a
    ||| n == 0x2028 || n == 0x2029 || n == 0x202f || n == 0x205f || n == 0x3000
}

/// A text without the white space before it.
pub open spec fn trimmed_start(s: Seq<char>) -> Seq<char>
    decreases s.len(),
{
    if s.len() > 0 && is_white(s[0]) {
        trimmed_start(s.drop_first())
    } else {
        s
    }
}

/// A text without the white space behind it.
pub open spec fn trimmed_end(s: Seq<char>) -> Seq<char>
    decreases s.len(),
{
    if s.len() > 0 && is_white(s.last()) {
        trimmed_end(s.drop_last())
    } else {
        s
    }
}

/// A text without the white space around it.
pub open spec fn trimmed(s: Seq<char>) -> Seq<char> {
    trimmed_end(trimmed_start(s))
}

/// Whether a character is a hexadecimal digit of either case.
pub open spec fn is_hex_char(c: char) -> bool {
    ||| '0' <= c <= '9'
    ||| 'a' <= c <= 'f'
    ||| 'A' <= c <= 'F'
}

/// Whether a text is 64 hexadecimal digits.
pub open spec fn is_key_text(s: Seq<char>) -> bool {
    &&& s.len() == 64
    &&& forall|i: int| 0 <= i < s.len() ==> is_hex_char(#[trigger] s[i])
}

/// The key that a file holds, if it holds one.
pub open spec fn key_in(raw: Seq<u8>) -> Option<Seq<u8>> {
    let t = trimmed(text_of(raw));
    if is_key_text(t) {
        hex_bytes(encode_utf8(t))
    } else if raw.len() == 32 {
        Some(raw)
    } else {
        None
    }
}

/// Whether a character is white space.
fn white(c: char) -> (r: bool)
    ensures
        r == is_white(c),
{
    let n: u32 = c as u32;
    (0x9 <= n && n <= 0xd) || n == 0x20 || n == 0x85 || n == 0xa0 || n == 0x1680 || (0x2000 <= n
        && n <= 0x200a) || n == 0x2028 || n == 0x2029 || n == 0x202f || n == 0x205f || n == 0x3000
}

/// A text without the white space around it.
pub fn trim(s: &str) -> (r: &str)
    ensures
        r@ == trimmed(s@),
{
    let c = chars_of(s);
    let mut lo: usize = 0;
    proof {
        assert(s@.skip(0) =~= s@);
    }
    while lo < c.len() && white(c[lo])
        invariant
            c@ == s@,
            lo <= c.len(),
            trimmed_start(s@) == trimmed_start(s@.skip(lo as int)),
        decreases c.len() - lo,
    {
        proof {
            assert(s@.skip(lo as int).drop_first() =~= s@.skip(lo + 1));
        }
        lo = lo + 1;
    }
    let ghost rest = s@.skip(lo as int);
    let mut hi: usize = c.len();
    proof {
        assert(rest == trimmed_start(s@));
        assert(rest.take(hi - lo) =~= rest);
    }
    while hi > lo && white(c[hi - 1])
        invariant
            c@ == s@,
            rest == s@.skip(lo as int),
            lo <= hi <= c.len(),
            trimmed_end(rest) == trimmed_end(rest.take(hi - lo)),
        decreases hi - lo,
    {
        proof {
            assert(rest.take(hi - lo).drop_last() =~= rest.take(hi - lo - 1));
        }
        hi = hi - 1;
    }
    proof {
        assert(rest.take(hi - lo) =~= s@.subrange(lo as int, hi as int));
    }
    s.substring_char(lo, hi)
}

/// Whether there is nothing in a text but white space.
pub fn is_blank(s: &str) -> (r: bool)
    ensures
        r == (trimmed(s@).len() == 0),
{
    trim(s).unicode_len() == 0
}

/// Whether a text is 64 hexadecimal digits.
fn spells_key(s: &str) -> (r: bool)
    ensures
        r == is_key_text(s@),
{
    let c = chars_of(s);
    if c.len() != 64 {
        return false;
    }
    let mut i: usize = 0;
    while i < c.len()
        invariant
            c@ == s@,
            i <= c.len(),
            forall|j: int| 0 <= j < i ==> is_hex_char(#[trigger] s@[j]),
        decreases c.len() - i,
    {
        let x: char = c[i];
        if !(('0' <= x && x <= '9') || ('a' <= x && x <= 'f') || ('A' <= x && x <= 'F')) {
            proof {
                assert(!is_hex_char(s@[i as int]));
            }
            return false;
        }
        i = i + 1;
    }
    true
}

/// 64 hexadecimal digits spell 32 bytes.
proof fn key_texts_spell_keys(t: Seq<char>)
    requires
        is_key_text(t),
    ensures
        hex_bytes(encode_utf8(t)) matches Some(b) && b.len() == 32,
{
    assert(is_ascii_chars(t));
    is_ascii_chars_encode_utf8(t);
    let u = encode_utf8(t);
    assert forall|i: int| 0 <= i < u.len() / 2 implies (#[trigger] crate::text::hex_pair(
        u[2 * i],
        u[2 * i + 1],
    )) is Some by {
        assert(is_hex_char(t[2 * i]));
        assert(is_hex_char(t[2 * i + 1]));
        assert(u[2 * i] == t[2 * i] as u8);
        assert(u[2 * i + 1] == t[2 * i + 1] as u8);
        assert(hex_value(u[2 * i]) is Some);
        assert(hex_value(u[2 * i + 1]) is Some);
    }
}

/// Reads a root key out of the contents of its file. Anything but 32 raw bytes or 64 hexadecimal
/// digits is refused.
pub fn read_key(raw: &[u8]) -> (r: Result<RootKey, String>)
    ensures
        match key_in(raw@) {
            Some(key) => r matches Ok(root) && root@ == key,
            None => r matches Err(why) && why@
                == "key file must hold 32 raw bytes or 64 hex characters"@,
        },
{
    let text = lossy(raw);
    let digits = trim(text.as_str());
    if spells_key(digits) {
        proof {
            key_texts_spell_keys(digits@);
        }
        if let Some(bytes) = unhex(digits) {
            if let Some(key) = exactly::<32>(bytes.as_slice()) {
                return Ok(RootKey::from_bytes(key));
            }
        }
    }
    match exactly::<32>(raw) {
        Some(key) => Ok(RootKey::from_bytes(key)),
        None => Err("key file must hold 32 raw bytes or 64 hex characters".to_owned()),
    }
}

/// Whether a text is white space throughout.
pub open spec fn all_white(s: Seq<char>) -> bool {
    forall|i: int| 0 <= i < s.len() ==> is_white(#[trigger] s[i])
}

/// White space in front is left off, whatever follows it.
proof fn white_in_front_goes(before: Seq<char>, s: Seq<char>)
    requires
        all_white(before),
    ensures
        trimmed_start(before + s) == trimmed_start(s),
    decreases before.len(),
{
    if before.len() == 0 {
        assert(before + s =~= s);
    } else {
        let rest = before.drop_first();
        assert(is_white(before[0]));
        assert(all_white(rest)) by {
            assert forall|i: int| 0 <= i < rest.len() implies is_white(#[trigger] rest[i]) by {
                assert(rest[i] == before[i + 1]);
            }
        }
        assert((before + s).drop_first() =~= rest + s);
        white_in_front_goes(rest, s);
    }
}

/// White space behind is left off, whatever stands before it.
proof fn white_behind_goes(s: Seq<char>, after: Seq<char>)
    requires
        all_white(after),
    ensures
        trimmed_end(s + after) == trimmed_end(s),
    decreases after.len(),
{
    if after.len() == 0 {
        assert(s + after =~= s);
    } else {
        let rest = after.drop_last();
        assert(is_white(after.last()));
        assert((s + after).drop_last() =~= s + rest);
        assert((s + after).last() == after.last());
        white_behind_goes(s, rest);
    }
}

/// Trimming takes off the white space around a text and nothing of the text: what begins and ends
/// with other characters stays whole, and white space alone leaves nothing.
pub proof fn law_only_white_space_is_trimmed(before: Seq<char>, s: Seq<char>, after: Seq<char>)
    requires
        all_white(before),
        all_white(after),
        s.len() > 0 ==> !is_white(s[0]) && !is_white(s.last()),
    ensures
        trimmed(before + s + after) == s,
{
    assert(before + s + after =~= before + (s + after));
    white_in_front_goes(before, s + after);
    if s.len() > 0 {
        assert((s + after)[0] == s[0]);
        white_behind_goes(s, after);
    } else {
        assert(s + after =~= after + s);
        white_in_front_goes(after, s);
        assert(trimmed_start(s) =~= s);
    }
}

/// The white space that is trimmed is the characters that Unicode gives that property, and no
/// others: the controls from tab to carriage return and the next line, and the spaces and the
/// separators.
pub proof fn law_white_space_is_what_unicode_says(c: char)
    ensures
        is_white(c) <==> {
            ||| c == '\t' || c == '\n' || c == '\u{b}' || c == '\u{c}' || c == '\r'
            ||| c == ' ' || c == '\u{85}' || c == '\u{a0}' || c == '\u{1680}'
            ||| c == '\u{2000}' || c == '\u{2001}' || c == '\u{2002}' || c == '\u{2003}'
            ||| c == '\u{2004}' || c == '\u{2005}' || c == '\u{2006}' || c == '\u{2007}'
            ||| c == '\u{2008}' || c == '\u{2009}' || c == '\u{200a}'
            ||| c == '\u{2028}' || c == '\u{2029}' || c == '\u{202f}' || c == '\u{205f}'
            ||| c == '\u{3000}'
        },
{
}

/// A text has no more characters than bytes.
proof fn texts_are_no_longer_than_their_bytes(s: Seq<char>)
    ensures
        s.len() <= encode_utf8(s).len(),
    decreases s.len(),
{
    if s.len() > 0 {
        texts_are_no_longer_than_their_bytes(s.drop_first());
    }
}

/// Trimming makes no text longer.
proof fn trimming_only_shortens(s: Seq<char>)
    ensures
        trimmed_start(s).len() <= s.len(),
        trimmed_end(s).len() <= s.len(),
    decreases s.len(),
{
    if s.len() > 0 {
        trimming_only_shortens(s.drop_first());
        trimming_only_shortens(s.drop_last());
    }
}

/// A key that is written out in hexadecimal digits reads back as itself, with white space around it
/// or without; digits of either case spell the same key.
pub proof fn law_written_keys_read_back(
    key: Seq<u8>,
    digits: Seq<char>,
    before: Seq<char>,
    after: Seq<char>,
)
    requires
        key.len() == 32,
        digits.len() == 64,
        is_ascii_chars(digits),
        forall|i: int|
            0 <= i < 64 ==> lowered(#[trigger] digits[i] as u8) == hex_text(key)[i] as u8,
        all_white(before),
        all_white(after),
    ensures
        key_in(encode_utf8(before + digits + after)) == Some(key),
{
    let raw = encode_utf8(before + digits + after);
    encode_utf8_valid_utf8(before + digits + after);
    encode_utf8_decode_utf8(before + digits + after);
    assert forall|i: int| 0 <= i < 64 implies is_hex_char(#[trigger] digits[i]) by {
        let d = hex_text(key)[i];
        let c = digits[i];
        assert(('0' <= d <= '9') || ('a' <= d <= 'f'));
        assert('\0' <= c <= '\u{7f}');
        assert(lowered(c as u8) == d as u8);
    }
    assert(is_key_text(digits));
    assert(is_hex_char(digits[0]));
    assert(is_hex_char(digits[63]));
    law_only_white_space_is_trimmed(before, digits, after);
    key_texts_spell_keys(digits);
    let u = encode_utf8(digits);
    is_ascii_chars_encode_utf8(digits);
    law_hex_is_digits_and_nothing_else(u);
    let read = hex_bytes(u)->0;
    assert forall|i: int| 0 <= i < 64 implies hex_text(read)[i] == hex_text(key)[i] by {
        assert(u[i] == digits[i] as u8);
        assert(hex_text(read)[i] as u8 == lowered(u[i]));
        let a = hex_text(read)[i];
        let b = hex_text(key)[i];
        assert('\0' <= a <= '\u{7f}' && '\0' <= b <= '\u{7f}');
    }
    assert(hex_text(read) =~= hex_text(key));
    law_hex_round_trips(read);
    law_hex_round_trips(key);
}

/// 32 bytes are a key whatever they are, themselves where they are a text, and every key has 32
/// bytes. Anything else is refused unless it is a text of 64 digits but for white space.
pub proof fn law_raw_keys_are_themselves(raw: Seq<u8>)
    ensures
        raw.len() == 32 ==> key_in(raw) is Some,
        raw.len() == 32 && valid_utf8(raw) ==> key_in(raw) == Some(raw),
        key_in(raw) matches Some(key) ==> key.len() == 32,
        raw.len() != 32 && valid_utf8(raw) && key_in(raw) is Some ==> raw.len() >= 64 && exists|
            before: Seq<char>,
            digits: Seq<char>,
            after: Seq<char>,
        | #[trigger]
            encode_utf8(before + digits + after) == raw && all_white(before) && all_white(after)
                && is_key_text(digits),
{
    let s = text_of(raw);
    let t = trimmed(s);
    if is_key_text(t) {
        key_texts_spell_keys(t);
    }
    if valid_utf8(raw) {
        decode_utf8_encode_utf8(raw);
        texts_are_no_longer_than_their_bytes(s);
        trimming_only_shortens(s);
        trimming_only_shortens(trimmed_start(s));
        let (before, after) = what_was_trimmed(s);
        assert(before + t + after == s);
    }
}

/// What was trimmed off a text is white space on either side of it.
proof fn what_was_trimmed(s: Seq<char>) -> (r: (Seq<char>, Seq<char>))
    ensures
        r.0 + trimmed(s) + r.1 == s,
        all_white(r.0),
        all_white(r.1),
{
    let before = trimmed_from_the_front(s);
    let rest = trimmed_start(s);
    let after = trimmed_from_behind(rest);
    assert(before + trimmed(s) + after =~= before + (trimmed(s) + after));
    (before, after)
}

/// What stood in front of a trimmed text is white space.
proof fn trimmed_from_the_front(s: Seq<char>) -> (before: Seq<char>)
    ensures
        before + trimmed_start(s) == s,
        all_white(before),
    decreases s.len(),
{
    if s.len() > 0 && is_white(s[0]) {
        let rest = trimmed_from_the_front(s.drop_first());
        let before = seq![s[0]] + rest;
        assert(before + trimmed_start(s) =~= seq![s[0]] + s.drop_first());
        assert(seq![s[0]] + s.drop_first() =~= s);
        assert forall|i: int| 0 <= i < before.len() implies is_white(#[trigger] before[i]) by {
            if i > 0 {
                assert(before[i] == rest[i - 1]);
            }
        }
        before
    } else {
        let before = Seq::<char>::empty();
        assert(before + s =~= s);
        before
    }
}

/// What stood behind a trimmed text is white space.
proof fn trimmed_from_behind(s: Seq<char>) -> (after: Seq<char>)
    ensures
        trimmed_end(s) + after == s,
        all_white(after),
    decreases s.len(),
{
    if s.len() > 0 && is_white(s.last()) {
        let rest = trimmed_from_behind(s.drop_last());
        let after = rest.push(s.last());
        assert(trimmed_end(s) + after =~= s.drop_last().push(s.last()));
        assert(s.drop_last().push(s.last()) =~= s);
        assert forall|i: int| 0 <= i < after.len() implies is_white(#[trigger] after[i]) by {
            if i < rest.len() {
                assert(after[i] == rest[i]);
            }
        }
        after
    } else {
        let after = Seq::<char>::empty();
        assert(s + after =~= s);
        after
    }
}

} // verus!
