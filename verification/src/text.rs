//! Text: how numbers are spelled in messages, and how bytes become strings.

use vstd::prelude::*;
use vstd::string::*;
use vstd::utf8::*;

verus! {

/// One digit of a number in base sixteen or below.
pub open spec fn digit_text(d: u64) -> Seq<char> {
    match d {
        0 => "0"@,
        1 => "1"@,
        2 => "2"@,
        3 => "3"@,
        4 => "4"@,
        5 => "5"@,
        6 => "6"@,
        7 => "7"@,
        8 => "8"@,
        9 => "9"@,
        10 => "a"@,
        11 => "b"@,
        12 => "c"@,
        13 => "d"@,
        14 => "e"@,
        _ => "f"@,
    }
}

/// `n` in decimal, without leading zeroes.
pub open spec fn dec_text(n: nat) -> Seq<char>
    decreases n,
{
    if n < 10 {
        digit_text(n as u64)
    } else {
        dec_text(n / 10) + digit_text((n % 10) as u64)
    }
}

/// `n` in lowercase hexadecimal, without prefix or leading zeroes.
pub open spec fn hex_text(n: nat) -> Seq<char>
    decreases n,
{
    if n < 16 {
        digit_text(n as u64)
    } else {
        hex_text(n / 16) + digit_text((n % 16) as u64)
    }
}

/// The lowest `width` hexadecimal digits of `n`.
pub open spec fn hex_digits_text(n: nat, width: nat) -> Seq<char>
    decreases width,
{
    if width <= 1 {
        digit_text((n % 16) as u64)
    } else {
        hex_digits_text(n / 16, (width - 1) as nat) + digit_text((n % 16) as u64)
    }
}

fn digit(d: u64) -> (s: &'static str)
    requires
        d < 16,
    ensures
        s@ == digit_text(d),
{
    match d {
        0 => "0",
        1 => "1",
        2 => "2",
        3 => "3",
        4 => "4",
        5 => "5",
        6 => "6",
        7 => "7",
        8 => "8",
        9 => "9",
        10 => "a",
        11 => "b",
        12 => "c",
        13 => "d",
        14 => "e",
        _ => "f",
    }
}

/// Spell `n` in decimal.
pub fn dec(n: u64) -> (s: String)
    ensures
        s@ == dec_text(n as nat),
    decreases n,
{
    if n < 10 {
        String::from_str(digit(n))
    } else {
        dec(n / 10).concat(digit(n % 10))
    }
}

/// Spell `n` in hexadecimal.
pub fn hex(n: u64) -> (s: String)
    ensures
        s@ == hex_text(n as nat),
    decreases n,
{
    if n < 16 {
        String::from_str(digit(n))
    } else {
        hex(n / 16).concat(digit(n % 16))
    }
}

/// Spell the lowest `width` hexadecimal digits of `n`.
pub fn hex_digits(n: u64, width: usize) -> (s: String)
    ensures
        s@ == hex_digits_text(n as nat, width as nat),
    decreases width,
{
    if width <= 1 {
        String::from_str(digit(n % 16))
    } else {
        hex_digits(n / 16, width - 1).concat(digit(n % 16))
    }
}

/// A 16-bit number as `0x` and four hexadecimal digits.
pub open spec fn word_text(n: u16) -> Seq<char> {
    "0x"@ + hex_digits_text(n as nat, 4)
}

/// A 32-bit number as `0x` and eight hexadecimal digits.
pub open spec fn dword_text(n: u32) -> Seq<char> {
    "0x"@ + hex_digits_text(n as nat, 8)
}

/// Spell a 16-bit number.
pub fn word(n: u16) -> (s: String)
    ensures
        s@ == word_text(n),
{
    String::from_str("0x").concat(hex_digits(n as u64, 4).as_str())
}

/// Spell a 32-bit number.
pub fn dword(n: u32) -> (s: String)
    ensures
        s@ == dword_text(n),
{
    String::from_str("0x").concat(hex_digits(n as u64, 8).as_str())
}

/// The text that stands for bytes that are not valid UTF-8, with
/// replacement characters where they break.
pub uninterp spec fn replaced_text(bytes: Seq<u8>) -> Seq<char>;

/// The text of `bytes`, with replacement characters where they are not UTF-8.
pub open spec fn lossy_text(bytes: Seq<u8>) -> Seq<char> {
    if valid_utf8(bytes) {
        decode_utf8(bytes)
    } else {
        replaced_text(bytes)
    }
}

/// `String::from_utf8_lossy`: valid bytes give the text they encode; others
/// give a text that depends on the bytes alone.
#[verifier::external_body]
pub(crate) fn lossy(bytes: &[u8]) -> (s: String)
    ensures
        valid_utf8(bytes@) ==> s@ == decode_utf8(bytes@),
        !valid_utf8(bytes@) ==> s@ == replaced_text(bytes@),
{
    String::from_utf8_lossy(bytes).into_owned()
}

/// What `std::str::from_utf8` reports of bytes that are not valid UTF-8.
pub uninterp spec fn utf8_error_text(bytes: Seq<u8>) -> Seq<char>;

/// `std::str::from_utf8`: valid bytes give the text they encode; others give
/// a report that depends on the bytes alone.
#[verifier::external_body]
pub(crate) fn strict(bytes: &[u8]) -> (r: Result<String, String>)
    ensures
        r is Ok <==> valid_utf8(bytes@),
        r matches Ok(s) ==> s@ == decode_utf8(bytes@),
        r matches Err(report) ==> report@ == utf8_error_text(bytes@),
{
    match std::str::from_utf8(bytes) {
        Ok(s) => Ok(s.to_string()),
        Err(e) => Err(e.to_string()),
    }
}

/// How the `Debug` form of `str` shows a text: in quotes, with escapes.
pub uninterp spec fn quoted_text(s: Seq<char>) -> Seq<char>;

/// The `Debug` form of `str`.
#[verifier::external_body]
pub(crate) fn quoted(s: &str) -> (r: String)
    ensures
        r@ == quoted_text(s@),
{
    format!("{:?}", s)
}

/// How `str::to_lowercase` makes a text small that is not all ASCII.
pub uninterp spec fn unicode_lowercase_text(s: Seq<char>) -> Seq<char>;

/// An ASCII character made small.
pub open spec fn lower_char(c: char) -> char {
    if 'A' <= c && c <= 'Z' {
        (c as u32 + 0x20) as char
    } else {
        c
    }
}

/// The small form of a text.
pub open spec fn lowercase_text(s: Seq<char>) -> Seq<char> {
    if is_ascii_chars(s) {
        s.map_values(|c: char| lower_char(c))
    } else {
        unicode_lowercase_text(s)
    }
}

/// `str::to_lowercase`: an ASCII text has its capitals made small; of
/// another the result depends on the text alone.
#[verifier::external_body]
pub(crate) fn lowercase(s: &str) -> (r: String)
    ensures
        is_ascii_chars(s@) ==> r@ == s@.map_values(|c: char| lower_char(c)),
        !is_ascii_chars(s@) ==> r@ == unicode_lowercase_text(s@),
{
    s.to_lowercase()
}

/// What a decimal digit stands for.
pub open spec fn digit_value(c: char) -> int {
    if '0' <= c && c <= '9' {
        c as int - '0' as int
    } else {
        c as int - 'a' as int + 10
    }
}

/// What digits stand for in a given base.
pub open spec fn number_of(digits: Seq<char>, base: int) -> int
    decreases digits.len(),
{
    if digits.len() == 0 {
        0
    } else {
        number_of(digits.drop_last(), base) * base + digit_value(digits.last())
    }
}

proof fn lemma_digit(d: u64)
    requires
        d < 16,
    ensures
        digit_text(d).len() == 1,
        digit_value(digit_text(d)[0]) == d,
{
    reveal_strlit("0");
    reveal_strlit("1");
    reveal_strlit("2");
    reveal_strlit("3");
    reveal_strlit("4");
    reveal_strlit("5");
    reveal_strlit("6");
    reveal_strlit("7");
    reveal_strlit("8");
    reveal_strlit("9");
    reveal_strlit("a");
    reveal_strlit("b");
    reveal_strlit("c");
    reveal_strlit("d");
    reveal_strlit("e");
    reveal_strlit("f");
}

proof fn lemma_number_of_more(digits: Seq<char>, d: u64, base: int)
    requires
        d < 16,
    ensures
        number_of(digits + digit_text(d), base) == number_of(digits, base) * base + d,
{
    lemma_digit(d);
    let all = digits + digit_text(d);
    assert(all.drop_last() =~= digits);
    assert(all.last() == digit_text(d)[0]);
}

/// A number in decimal, or in hexadecimal, reads as that number, and starts with no
/// zero unless it is zero.
pub proof fn law_number_texts(n: nat)
    ensures
        number_of(dec_text(n), 10) == n,
        number_of(hex_text(n), 16) == n,
        n > 0 ==> digit_value(dec_text(n)[0]) != 0,
        n > 0 ==> digit_value(hex_text(n)[0]) != 0,
        dec_text(n).len() > 0,
        hex_text(n).len() > 0,
    decreases n,
{
    if n < 10 {
        lemma_number_of_more(Seq::empty(), n as u64, 10);
        assert(Seq::<char>::empty() + digit_text(n as u64) =~= digit_text(n as u64));
        lemma_digit(n as u64);
    } else {
        law_number_texts(n / 10);
        lemma_number_of_more(dec_text(n / 10), (n % 10) as u64, 10);
        lemma_digit((n % 10) as u64);
    }
    if n < 16 {
        lemma_number_of_more(Seq::empty(), n as u64, 16);
        assert(Seq::<char>::empty() + digit_text(n as u64) =~= digit_text(n as u64));
        lemma_digit(n as u64);
    } else {
        law_number_texts(n / 16);
        lemma_number_of_more(hex_text(n / 16), (n % 16) as u64, 16);
        lemma_digit((n % 16) as u64);
    }
}


} // verus!
