//! The two text rules that requests are held to, both written as regular
//! expressions: a master passphrase needs sixteen characters in a row on one
//! line, and a website name must not hold something shaped like an IPv4
//! address.
use regex::Regex;
use vstd::prelude::*;
use vstd::utf8::is_ascii_chars;

verus! {

/// What `Regex::new(pattern)` followed by `is_match(text)` gives: `None` when
/// the pattern does not compile, else whether the pattern matches anywhere in
/// the text.
pub uninterp spec fn regex_match_result(pattern: Seq<char>, text: Seq<char>) -> Option<bool>;

/// Whether the `n` characters of `text` from position `i` on exist and none
/// of them is a line feed.
pub open spec fn run_without_newline_at(text: Seq<char>, i: int, n: int) -> bool {
    0 <= i && i + n <= text.len() && (forall|j: int| i <= j < i + n ==> #[trigger] text[j] != '\n')
}

/// Whether `text` holds `n` characters in a row none of which is a line feed.
pub open spec fn has_run_without_newline(text: Seq<char>, n: int) -> bool {
    exists|i: int| #[trigger] run_without_newline_at(text, i, n)
}

/// The pattern a master passphrase must match.
pub open spec fn master_passphrase_pattern() -> Seq<char> {
    ".{16,}"@
}

/// The pattern that marks a name as shaped like an IPv4 address, with an
/// optional port.
pub open spec fn ip_address_pattern() -> Seq<char> {
    "\\d{1,3}\\.\\d{1,3}\\.\\d{1,3}\\.\\d{1,3}(?::\\d{0,4})?"@
}

/// Whether `c` is an ASCII decimal digit.
pub open spec fn is_ascii_digit_char(c: char) -> bool {
    '0' <= c && c <= '9'
}

/// Whether `text` holds one to three ASCII digits (`n` of them) from `i` on.
pub open spec fn digits_at(text: Seq<char>, i: int, n: int) -> bool {
    &&& 1 <= n <= 3
    &&& 0 <= i
    &&& i + n <= text.len()
    &&& forall|j: int| i <= j < i + n ==> is_ascii_digit_char(#[trigger] text[j])
}

/// Whether `text` holds, from `i` on, four groups of `a`, `b`, `c` and `d`
/// ASCII digits (one to three each) joined by dots.
pub open spec fn dotted_quad_at(text: Seq<char>, i: int, a: int, b: int, c: int, d: int) -> bool {
    &&& digits_at(text, i, a)
    &&& digits_at(text, i + a + 1, b)
    &&& digits_at(text, i + a + b + 2, c)
    &&& digits_at(text, i + a + b + c + 3, d)
    &&& text[i + a] == '.'
    &&& text[i + a + b + 1] == '.'
    &&& text[i + a + b + c + 2] == '.'
}

/// Whether `text` holds a dotted quad of ASCII digit groups somewhere.
pub open spec fn has_dotted_quad(text: Seq<char>) -> bool {
    exists|i: int, a: int, b: int, c: int, d: int| #[trigger] dotted_quad_at(text, i, a, b, c, d)
}

/// `regex::Regex::new(pattern)` and then `Regex::is_match(text)`. Claimed: the
/// result is the named one; the two patterns of this library compile; and for
/// `.{16,}` (`.` is any character but a line feed, unanchored search) it
/// matches exactly when sixteen non-line-feed characters stand in a row; and
/// on ASCII text (where `\d` is `0`-`9`) the IP pattern matches exactly when
/// a dotted quad of one-to-three-digit groups stands in it (the optional
/// port suffix does not change whether a match exists).
#[verifier::external_body]
fn regex_is_match(pattern: &str, text: &str) -> (r: Option<bool>)
    ensures
        r == regex_match_result(pattern@, text@),
        pattern@ == ".{16,}"@ ==> r == Some(has_run_without_newline(text@, 16)),
        pattern@ == "\\d{1,3}\\.\\d{1,3}\\.\\d{1,3}\\.\\d{1,3}(?::\\d{0,4})?"@ ==> r is Some,
        pattern@ == "\\d{1,3}\\.\\d{1,3}\\.\\d{1,3}\\.\\d{1,3}(?::\\d{0,4})?"@ && is_ascii_chars(text@)
            ==> r == Some(has_dotted_quad(text@)),
{
    match Regex::new(pattern) {
        Ok(re) => Some(re.is_match(text)),
        Err(_) => None,
    }
}

/// Whether `passphrase` is acceptable as a master passphrase: it holds
/// sixteen characters in a row with no line feed among them.
pub fn is_valid_master_passphrase(passphrase: &str) -> (r: bool)
    ensures
        r == has_run_without_newline(passphrase@, 16),
        r == (regex_match_result(master_passphrase_pattern(), passphrase@) == Some(true)),
{
    match regex_is_match(".{16,}", passphrase) {
        Some(b) => b,
        None => false,
    }
}

/// Whether `name` holds something shaped like an IPv4 address: four groups
/// of one to three decimal digits joined by dots (`\d` is any Unicode decimal
/// digit; on ASCII text, `0`-`9`).
pub fn looks_like_ip_address(name: &str) -> (r: bool)
    ensures
        r == (regex_match_result(ip_address_pattern(), name@) == Some(true)),
        is_ascii_chars(name@) ==> r == has_dotted_quad(name@),
{
    match regex_is_match("\\d{1,3}\\.\\d{1,3}\\.\\d{1,3}\\.\\d{1,3}(?::\\d{0,4})?", name) {
        Some(b) => b,
        None => false,
    }
}

} // verus!
