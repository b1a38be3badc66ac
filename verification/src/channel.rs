//! A conversation as a notification spells it: sixty-four hex characters.
//!
//! One writer and one reader, so that what goes out to the platform with a
//! notification and what comes back with a press on it are read the same.
use vstd::prelude::*;
use vstd::string::StringSliceAdditionalSpecFns;
use vstd::utf8::{encode_utf8, is_ascii_chars};

use crate::text::string_of;

verus! {

pub open spec fn hex_digit(n: int) -> char {
    if n < 10 {
        (('0' as int) + n) as char
    } else {
        (('a' as int) + n - 10) as char
    }
}

/// Bytes in lower-case hex, two characters each, most significant first.
pub open spec fn hex_text(b: Seq<u8>) -> Seq<char>
    decreases b.len(),
{
    if b.len() == 0 {
        Seq::<char>::empty()
    } else {
        hex_text(b.drop_last()) + seq![hex_digit((b.last() / 16) as int), hex_digit((b.last() % 16) as int)]
    }
}

/// A hex digit's value, in either case.
pub open spec fn digit_value(b: u8) -> Option<u8> {
    if 48 <= b <= 57 {
        Some((b - 48) as u8)
    } else if 97 <= b <= 102 {
        Some((b - 87) as u8)
    } else if 65 <= b <= 70 {
        Some((b - 55) as u8)
    } else {
        None
    }
}

/// Two bytes of text as one byte: two hex digits, most significant first.
pub open spec fn pair_value(a: u8, b: u8) -> Option<u8> {
    match (digit_value(a), digit_value(b)) {
        (Some(x), Some(y)) => Some((16 * x + y) as u8),
        _ => None,
    }
}

/// Every byte is an ASCII hex digit, in either case.
pub open spec fn all_hex(text: Seq<u8>) -> bool {
    forall|i: int| 0 <= i < text.len() ==> (#[trigger] digit_value(text[i])) is Some
}

/// The first `n` bytes that the text's pairs spell, if every pair does.
pub open spec fn read_pairs(text: Seq<u8>, n: nat) -> Option<Seq<u8>>
    decreases n,
{
    if n == 0 {
        Some(Seq::<u8>::empty())
    } else {
        match (read_pairs(text, (n - 1) as nat), pair_value(text[2 * n - 2], text[2 * n - 1])) {
            (Some(s), Some(v)) => Some(s.push(v)),
            _ => None,
        }
    }
}

/// The conversation a text names: sixty-four bytes, read in pairs.
pub open spec fn channel_read(text: Seq<u8>) -> Option<Seq<u8>> {
    if text.len() != 64 {
        None
    } else {
        read_pairs(text, 32)
    }
}

fn hex_char(n: u8) -> (r: char)
    requires
        n < 16,
    ensures
        r == hex_digit(n as int),
{
    if n == 0 { '0' }
    else if n == 1 { '1' }
    else if n == 2 { '2' }
    else if n == 3 { '3' }
    else if n == 4 { '4' }
    else if n == 5 { '5' }
    else if n == 6 { '6' }
    else if n == 7 { '7' }
    else if n == 8 { '8' }
    else if n == 9 { '9' }
    else if n == 10 { 'a' }
    else if n == 11 { 'b' }
    else if n == 12 { 'c' }
    else if n == 13 { 'd' }
    else if n == 14 { 'e' }
    else { 'f' }
}

/// A conversation's text.
pub fn hex(bytes: &[u8; 32]) -> (r: String)
    ensures
        r@ == hex_text(bytes@),
{
    let mut out: Vec<char> = Vec::new();
    let mut i: usize = 0;
    while i < 32
        invariant
            i <= 32,
            bytes@.len() == 32,
            out@ == hex_text(bytes@.take(i as int)),
        decreases 32 - i,
    {
        assert(bytes@.take(i + 1).drop_last() == bytes@.take(i as int));
        out.push(hex_char(bytes[i] / 16));
        out.push(hex_char(bytes[i] % 16));
        i = i + 1;
    }
    assert(bytes@.take(32) == bytes@);
    string_of(&out)
}

fn digit_of(b: u8) -> (r: Option<u8>)
    ensures
        r == digit_value(b),
{
    if 48 <= b && b <= 57 {
        Some(b - 48)
    } else if 97 <= b && b <= 102 {
        Some(b - 87)
    } else if 65 <= b && b <= 70 {
        Some(b - 55)
    } else {
        None
    }
}

fn pair_of(a: u8, b: u8) -> (r: Option<u8>)
    ensures
        r == pair_value(a, b),
{
    match (digit_of(a), digit_of(b)) {
        (Some(x), Some(y)) => Some(16 * x + y),
        _ => None,
    }
}

/// The conversation a notification's text names, if it names one: some
/// exactly when the text is sixty-four hex digits.
pub fn channel_from_hex(hex: &str) -> (r: Option<[u8; 32]>)
    ensures
        r is Some <==> (hex.spec_bytes().len() == 64 && all_hex(hex.spec_bytes())),
        match r {
            Some(c) => channel_read(hex.spec_bytes()) == Some(c@),
            None => channel_read(hex.spec_bytes()) is None,
        },
{
    let text = hex.as_bytes();
    if text.len() != 64 {
        return None;
    }
    assert(text@ == hex.spec_bytes());
    proof {
        lemma_pairs_hex(text@, 32);
    }
    let mut out = [0u8; 32];
    let mut i: usize = 0;
    while i < 32
        invariant
            i <= 32,
            text@.len() == 64,
            text@ == hex.spec_bytes(),
            read_pairs(text@, i as nat) == Some(out@.take(i as int)),
        decreases 32 - i,
    {
        match pair_of(text[2 * i], text[2 * i + 1]) {
            Some(v) => {
                let ghost before = out@;
                out[i] = v;
                assert(out@.take(i + 1) =~= before.take(i as int).push(v));
            },
            None => {
                proof {
                    lemma_pairs_fail(text@, i as nat, 32);
                }
                assert(channel_read(hex.spec_bytes()) is None);
                return None;
            },
        }
        i = i + 1;
    }
    assert(out@.take(32) == out@);
    Some(out)
}

proof fn lemma_pairs_hex(text: Seq<u8>, n: nat)
    requires
        2 * n <= text.len(),
    ensures
        read_pairs(text, n) is Some <==> forall|i: int| 0 <= i < 2 * n ==> (#[trigger] digit_value(text[i])) is Some,
    decreases n,
{
    if n > 0 {
        lemma_pairs_hex(text, (n - 1) as nat);
        if read_pairs(text, n) is Some {
            assert forall|i: int| 0 <= i < 2 * n implies (#[trigger] digit_value(text[i])) is Some by {
                if i >= 2 * n - 2 {
                    assert(pair_value(text[2 * n - 2], text[2 * n - 1]) is Some);
                }
            }
        } else if forall|i: int| 0 <= i < 2 * n ==> (#[trigger] digit_value(text[i])) is Some {
            assert(digit_value(text[2 * n - 2]) is Some);
            assert(digit_value(text[2 * n - 1]) is Some);
            assert(forall|i: int| 0 <= i < 2 * (n - 1) ==> (#[trigger] digit_value(text[i])) is Some);
        }
    }
}

proof fn lemma_pairs_fail(text: Seq<u8>, k: nat, n: nat)
    requires
        k < n,
        2 * n <= text.len(),
        pair_value(text[2 * k as int], text[2 * k as int + 1]) is None,
    ensures
        read_pairs(text, n) is None,
    decreases n,
{
    if n - 1 > k {
        lemma_pairs_fail(text, k, (n - 1) as nat);
    }
}

proof fn lemma_hex_text_at(b: Seq<u8>, k: int)
    requires
        0 <= k < b.len(),
    ensures
        hex_text(b).len() == 2 * b.len(),
        hex_text(b)[2 * k] == hex_digit((b[k] / 16) as int),
        hex_text(b)[2 * k + 1] == hex_digit((b[k] % 16) as int),
    decreases b.len(),
{
    if k < b.len() - 1 {
        lemma_hex_text_at(b.drop_last(), k);
    }
    lemma_hex_text_len(b.drop_last());
}

proof fn lemma_hex_text_len(b: Seq<u8>)
    ensures
        hex_text(b).len() == 2 * b.len(),
    decreases b.len(),
{
    if b.len() > 0 {
        lemma_hex_text_len(b.drop_last());
    }
}

proof fn lemma_hex_digit(n: int)
    requires
        0 <= n < 16,
    ensures
        '\0' <= hex_digit(n) <= '\u{7f}',
        digit_value(hex_digit(n) as u8) == Some(n as u8),
{
}

proof fn lemma_hex_ascii(b: Seq<u8>)
    ensures
        is_ascii_chars(hex_text(b)),
{
    lemma_hex_text_len(b);
    assert forall|i: int| 0 <= i < hex_text(b).len() implies '\0' <= #[trigger] hex_text(b)[i] <= '\u{7f}' by {
        let k = i / 2;
        lemma_hex_text_at(b, k);
        lemma_hex_digit((b[k] / 16) as int);
        lemma_hex_digit((b[k] % 16) as int);
        if i % 2 == 0 {
            assert(i == 2 * k);
        } else {
            assert(i == 2 * k + 1);
        }
    }
}

proof fn lemma_read_hex(b: Seq<u8>, text: Seq<u8>, n: nat)
    requires
        n <= b.len(),
        text.len() == 2 * b.len(),
        forall|i: int| 0 <= i < text.len() ==> text[i] == #[trigger] hex_text(b)[i] as u8,
    ensures
        read_pairs(text, n) == Some(b.take(n as int)),
    decreases n,
{
    if n > 0 {
        lemma_read_hex(b, text, (n - 1) as nat);
        let k = n - 1;
        lemma_hex_text_at(b, k as int);
        let hi = b[k as int] / 16;
        let lo = b[k as int] % 16;
        lemma_hex_digit(hi as int);
        lemma_hex_digit(lo as int);
        assert(text[2 * n - 2] == hex_digit(hi as int) as u8);
        assert(text[2 * n - 1] == hex_digit(lo as int) as u8);
        assert(16 * hi + lo == b[k as int]);
        assert(b.take(n as int) == b.take(k as int).push(b[k as int]));
    }
}

/// **A conversation read back from its text is the conversation.** Its
/// text is all ASCII, one byte to a character, and every pair reads back
/// the byte it was written from.
pub proof fn channel_round_trip(channel: [u8; 32], text: &str)
    requires
        text@ == hex_text(channel@),
    ensures
        channel_read(text.spec_bytes()) == Some(channel@),
{
    let chars = hex_text(channel@);
    lemma_hex_ascii(channel@);
    lemma_hex_text_len(channel@);
    vstd::utf8::is_ascii_chars_encode_utf8(chars);
    vstd::utf8::encode_utf8_valid_utf8(chars);
    let bytes = text.spec_bytes();
    assert(bytes == encode_utf8(chars));
    assert(bytes.len() == 64);
    lemma_read_hex(channel@, bytes, 32);
    assert(channel@.take(32) == channel@);
}

} // verus!
