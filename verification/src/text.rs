//! Texts and their UTF-8 bytes, and the decimal and hexadecimal spellings of numbers and bytes.

use crate::bytes::same_bytes;
use vstd::prelude::*;
use vstd::string::StringExecFns;
use vstd::utf8::{encode_utf8, encode_utf8_decode_utf8, is_ascii_chars, is_ascii_chars_encode_utf8};

verus! {

/// Two texts with the same UTF-8 bytes are the same text.
pub proof fn utf8_is_injective(a: Seq<char>, b: Seq<char>)
    requires
        encode_utf8(a) == encode_utf8(b),
    ensures
        a == b,
{
    encode_utf8_decode_utf8(a);
    encode_utf8_decode_utf8(b);
}

/// Whether two texts are the same.
pub fn same_text(a: &str, b: &str) -> (r: bool)
    ensures
        r == (a@ == b@),
{
    let r = same_bytes(a.as_bytes(), b.as_bytes());
    proof {
        if r {
            utf8_is_injective(a@, b@);
        }
    }
    r
}

/// The lower-case hexadecimal digit of a value below sixteen.
pub open spec fn hex_digit(n: int) -> char {
    if n < 10 {
        ('0' as int + n) as char
    } else {
        ('a' as int + n - 10) as char
    }
}

/// Two lower-case hexadecimal digits per byte, the high half first.
pub open spec fn hex_text(b: Seq<u8>) -> Seq<char> {
    Seq::new(
        2 * b.len(),
        |i: int|
            if i % 2 == 0 {
                hex_digit(b[i / 2] as int / 16)
            } else {
                hex_digit(b[i / 2] as int % 16)
            },
    )
}

/// The value of one hexadecimal digit of either case.
pub open spec fn hex_value(b: u8) -> Option<u8> {
    if 0x30 <= b <= 0x39 {
        Some((b - 0x30) as u8)
    } else if 0x41 <= b <= 0x46 {
        Some((b - 0x37) as u8)
    } else if 0x61 <= b <= 0x66 {
        Some((b - 0x57) as u8)
    } else {
        None
    }
}

/// The byte that two hexadecimal digits spell.
pub open spec fn hex_pair(hi: u8, lo: u8) -> Option<u8> {
    match (hex_value(hi), hex_value(lo)) {
        (Some(h), Some(l)) => Some((16 * h + l) as u8),
        _ => None,
    }
}

/// The bytes that hexadecimal text spells, given the text's own bytes: an even number of them,
/// each pair a byte, or nothing at all.
pub open spec fn hex_bytes(t: Seq<u8>) -> Option<Seq<u8>> {
    if t.len() % 2 == 0 && forall|i: int|
        0 <= i < t.len() / 2 ==> (#[trigger] hex_pair(t[2 * i], t[2 * i + 1])) is Some {
        Some(Seq::new((t.len() / 2) as nat, |i: int| hex_pair(t[2 * i], t[2 * i + 1])->0))
    } else {
        None
    }
}

/// Spelling bytes in hexadecimal loses nothing: reading the text back gives the same bytes.
pub proof fn law_hex_round_trips(b: Seq<u8>)
    ensures
        hex_bytes(encode_utf8(hex_text(b))) == Some(b),
{
    let t = hex_text(b);
    assert(is_ascii_chars(t));
    is_ascii_chars_encode_utf8(t);
    let u = encode_utf8(t);
    assert forall|i: int| 0 <= i < u.len() / 2 implies (#[trigger] hex_pair(u[2 * i], u[2 * i + 1]))
        == Some(b[i]) by {
        assert(t[2 * i] == hex_digit(b[i] as int / 16));
        assert(t[2 * i + 1] == hex_digit(b[i] as int % 16));
        assert(u[2 * i] == t[2 * i] as u8);
        assert(u[2 * i + 1] == t[2 * i + 1] as u8);
    }
    assert(Seq::new((u.len() / 2) as nat, |i: int| hex_pair(u[2 * i], u[2 * i + 1])->0) =~= b);
}

/// Whether a byte is a hexadecimal digit of either case.
pub open spec fn is_hex_digit(b: u8) -> bool {
    ||| '0' as u8 <= b <= '9' as u8
    ||| 'a' as u8 <= b <= 'f' as u8
    ||| 'A' as u8 <= b <= 'F' as u8
}

/// A byte with an upper-case letter made lower.
pub open spec fn lowered(b: u8) -> u8 {
    if 'A' as u8 <= b <= 'Z' as u8 {
        (b + 0x20) as u8
    } else {
        b
    }
}

/// Exactly an even number of hexadecimal digits is read, and what is read spells the same digits
/// again but for their case.
pub proof fn law_hex_is_digits_and_nothing_else(t: Seq<u8>)
    ensures
        hex_bytes(t) is Some <==> t.len() % 2 == 0 && forall|i: int|
            0 <= i < t.len() ==> is_hex_digit(#[trigger] t[i]),
        hex_bytes(t) matches Some(b) ==> {
            &&& t.len() == 2 * b.len()
            &&& forall|i: int|
                0 <= i < t.len() ==> hex_text(b)[i] as u8 == lowered(#[trigger] t[i])
        },
{
    if t.len() % 2 == 0 && forall|i: int| 0 <= i < t.len() ==> is_hex_digit(#[trigger] t[i]) {
        assert forall|i: int| 0 <= i < t.len() / 2 implies (#[trigger] hex_pair(
            t[2 * i],
            t[2 * i + 1],
        )) is Some by {
            assert(is_hex_digit(t[2 * i]));
            assert(is_hex_digit(t[2 * i + 1]));
        }
    }
    if hex_bytes(t) is Some {
        let b = hex_bytes(t)->0;
        assert forall|i: int| 0 <= i < t.len() implies is_hex_digit(#[trigger] t[i])
            && hex_text(b)[i] as u8 == lowered(t[i]) by {
            let j = i / 2;
            assert(hex_pair(t[2 * j], t[2 * j + 1]) is Some);
            assert(b[j] == hex_pair(t[2 * j], t[2 * j + 1])->0);
            if i % 2 == 0 {
                assert(i == 2 * j);
            } else {
                assert(i == 2 * j + 1);
            }
        }
    }
}

/// One hexadecimal digit.
fn hex_digit_text(n: u8) -> (r: &'static str)
    requires
        n < 16,
    ensures
        r@ == seq![hex_digit(n as int)],
{
    proof {
        reveal_strlit("0");
        reveal_strlit("1");
        reveal_strlit("2");
        reveal_strlit("3");
        reveal_strlit("4");
        reveal_strlit("5");
        reveal_strlit("6");
        reveal_strlit("7");
        reveal_strlit("8");
        reveal_strlit("9");
        reveal_strlit("a");
        reveal_strlit("b");
        reveal_strlit("c");
        reveal_strlit("d");
        reveal_strlit("e");
        reveal_strlit("f");
    }
    let r = match n {
        0 => "0",
        1 => "1",
        2 => "2",
        3 => "3",
        4 => "4",
        5 => "5",
        6 => "6",
        7 => "7",
        8 => "8",
        9 => "9",
        10 => "a",
        11 => "b",
        12 => "c",
        13 => "d",
        14 => "e",
        _ => "f",
    };
    proof {
        assert(r@ =~= seq![hex_digit(n as int)]);
    }
    r
}

/// Spells bytes in lower-case hexadecimal.
pub fn hex(b: &[u8]) -> (r: String)
    ensures
        r@ == hex_text(b@),
{
    let mut out = String::new();
    let mut i: usize = 0;
    while i < b.len()
        invariant
            i <= b.len(),
            out@ == hex_text(b@.take(i as int)),
        decreases b.len() - i,
    {
        out.append(hex_digit_text(b[i] / 16));
        out.append(hex_digit_text(b[i] % 16));
        proof {
            assert(out@ =~= hex_text(b@.take(i + 1)));
        }
        i = i + 1;
    }
    proof {
        assert(b@.take(i as int) =~= b@);
    }
    out
}

/// The value of one hexadecimal digit.
fn digit_value(b: u8) -> (r: Option<u8>)
    ensures
        r == hex_value(b),
{
    if 0x30 <= b && b <= 0x39 {
        Some(b - 0x30)
    } else if 0x41 <= b && b <= 0x46 {
        Some(b - 0x37)
    } else if 0x61 <= b && b <= 0x66 {
        Some(b - 0x57)
    } else {
        None
    }
}

/// The byte that two hexadecimal digits spell.
fn pair_value(hi: u8, lo: u8) -> (r: Option<u8>)
    ensures
        r == hex_pair(hi, lo),
{
    match (digit_value(hi), digit_value(lo)) {
        (Some(h), Some(l)) => Some(16 * h + l),
        _ => None,
    }
}

/// Reads hexadecimal text. Anything that is not a whole number of digit pairs is refused rather
/// than truncated.
pub fn unhex(s: &str) -> (r: Option<Vec<u8>>)
    ensures
        match r {
            Some(v) => hex_bytes(encode_utf8(s@)) == Some(v@),
            None => hex_bytes(encode_utf8(s@)) is None,
        },
{
    let t = s.as_bytes();
    if t.len() % 2 != 0 {
        return None;
    }
    let mut out: Vec<u8> = Vec::new();
    let mut i: usize = 0;
    while i < t.len() / 2
        invariant
            t@ == encode_utf8(s@),
            t.len() % 2 == 0,
            i <= t.len() / 2,
            out@.len() == i,
            forall|j: int|
                0 <= j < i ==> (#[trigger] hex_pair(t@[2 * j], t@[2 * j + 1])) == Some(out@[j]),
        decreases t.len() / 2 - i,
    {
        match pair_value(t[2 * i], t[2 * i + 1]) {
            Some(v) => {
                out.push(v);
            },
            None => {
                proof {
                    assert(hex_pair(t@[2 * (i as int)], t@[2 * (i as int) + 1]) is None);
                }
                return None;
            },
        }
        i = i + 1;
    }
    proof {
        assert(Seq::new((t@.len() / 2) as nat, |j: int| hex_pair(t@[2 * j], t@[2 * j + 1])->0)
            =~= out@);
    }
    Some(out)
}

/// The decimal spelling of a number, without leading zeros.
pub open spec fn decimal_text(n: nat) -> Seq<char>
    decreases n,
{
    if n < 10 {
        seq![hex_digit(n as int)]
    } else {
        decimal_text(n / 10) + seq![hex_digit((n % 10) as int)]
    }
}

/// The number that decimal digits spell.
pub open spec fn number_spelled(s: Seq<char>) -> int
    decreases s.len(),
{
    if s.len() == 0 {
        0
    } else {
        10 * number_spelled(s.drop_last()) + (s.last() as int - '0' as int)
    }
}

/// A number's decimal spelling is digits, with no zero in front of others, and spells the number.
pub proof fn law_decimals_spell_their_number(n: nat)
    ensures
        number_spelled(decimal_text(n)) == n,
        decimal_text(n).len() > 0,
        forall|i: int| 0 <= i < decimal_text(n).len() ==> '0' <= #[trigger] decimal_text(n)[i] <= '9',
        decimal_text(n)[0] == '0' ==> n == 0,
        n < 10 ==> decimal_text(n).len() == 1,
    decreases n,
{
    let s = decimal_text(n);
    if n < 10 {
        assert(s.drop_last() =~= Seq::empty());
        reveal_with_fuel(number_spelled, 2);
    } else {
        law_decimals_spell_their_number(n / 10);
        assert(s.drop_last() =~= decimal_text(n / 10));
        assert(s[0] == decimal_text(n / 10)[0]);
    }
}

/// Spells a number in decimal.
pub fn decimal(n: u64) -> (r: String)
    ensures
        r@ == decimal_text(n as nat),
    decreases n,
{
    let mut out = if n < 10 {
        String::new()
    } else {
        decimal(n / 10)
    };
    out.append(hex_digit_text((n % 10) as u8));
    proof {
        assert(out@ =~= decimal_text(n as nat));
    }
    out
}

/// The characters of a text.
pub fn chars_of(s: &str) -> (r: Vec<char>)
    ensures
        r@ == s@,
{
    let mut out: Vec<char> = Vec::new();
    for c in it: s.chars()
        invariant
            it.seq() == s@,
            out@ == s@.take(it.index() as int),
    {
        proof {
            assert(s@.take(it.index() + 1) =~= s@.take(it.index() as int).push(c));
        }
        out.push(c);
    }
    proof {
        assert(s@.take(s@.len() as int) =~= s@);
    }
    out
}

/// Two texts, one after the other.
pub fn join(a: &str, b: &str) -> (r: String)
    ensures
        r@ == a@ + b@,
{
    let mut out = a.to_owned();
    out.append(b);
    out
}

} // verus!
