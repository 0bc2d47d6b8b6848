//! Text helpers: UTF-8 checks and decoding, ASCII case mapping and decimal
//! numerals.
use vstd::prelude::*;
use vstd::utf8::*;

verus! {

/// The ASCII upper-case form of one character: `a`..=`z` become `A`..=`Z`,
/// every other character is kept.
pub open spec fn ascii_upper(c: char) -> char {
    if 'a' <= c && c <= 'z' {
        ((c as u32) - 32) as char
    } else {
        c
    }
}

/// The ASCII upper-case form of a text.
pub open spec fn ascii_upper_text(s: Seq<char>) -> Seq<char> {
    s.map_values(|c: char| ascii_upper(c))
}

/// What `String::from_utf8_lossy` makes of a byte sequence: the decoded text,
/// with each ill-formed part replaced by U+FFFD.
pub uninterp spec fn lossy_utf8(bytes: Seq<u8>) -> Seq<char>;

/// Whether `bytes` is well-formed UTF-8.
///
/// Calls `std::str::from_utf8`, which accepts exactly the well-formed UTF-8
/// sequences; the contract states that as vstd's `valid_utf8`.
#[verifier::external_body]
pub(crate) fn is_utf8(bytes: &[u8]) -> (ok: bool)
    ensures
        ok == valid_utf8(bytes@),
{
    std::str::from_utf8(bytes).is_ok()
}

/// The text that `bytes` decode to: the UTF-8 decoding where they are well
/// formed, the lossy decoding otherwise.
pub open spec fn decode_text(bytes: Seq<u8>) -> Seq<char> {
    if valid_utf8(bytes) {
        decode_utf8(bytes)
    } else {
        lossy_utf8(bytes)
    }
}

/// Decodes `bytes`, replacing ill-formed parts by U+FFFD.
///
/// Calls `String::from_utf8_lossy`. On well-formed UTF-8 the documentation
/// promises that nothing is replaced, so the contract states the decoded text;
/// on other input it names the result `lossy_utf8(bytes)` and says no more of
/// it.
#[verifier::external_body]
pub(crate) fn decode_lossy(bytes: &[u8]) -> (s: String)
    ensures
        valid_utf8(bytes@) ==> s@ == decode_utf8(bytes@),
        !valid_utf8(bytes@) ==> s@ == lossy_utf8(bytes@),
{
    String::from_utf8_lossy(bytes).into_owned()
}

/// The ASCII upper-case copy of `s`.
///
/// Calls `str::to_ascii_uppercase`, which maps `a`..=`z` to `A`..=`Z` and
/// leaves every other character as it is.
#[verifier::external_body]
pub(crate) fn to_ascii_uppercase(s: &str) -> (r: String)
    ensures
        r@ == ascii_upper_text(s@),
{
    s.to_ascii_uppercase()
}

/// Whether two texts are equal.
pub(crate) fn same_text(a: &str, b: &str) -> (r: bool)
    ensures
        r == (a@ == b@),
{
    let x: String = a.to_owned();
    let y: String = b.to_owned();
    x == y
}

/// The character of a decimal digit.
pub open spec fn digit_char(d: nat) -> char {
    ((d + 48) as u32) as char
}

/// The decimal numeral of `n`, most significant digit first, no leading zeros.
pub open spec fn decimal(n: nat) -> Seq<char>
    decreases n,
{
    if n < 10 {
        seq![digit_char(n)]
    } else {
        decimal(n / 10).push(digit_char(n % 10))
    }
}

fn digit_text(d: usize) -> (r: &'static str)
    requires
        d < 10,
    ensures
        r@ == seq![digit_char(d as nat)],
{
    if d == 0 {
        proof { reveal_strlit("0"); }
        "0"
    } else if d == 1 {
        proof { reveal_strlit("1"); }
        "1"
    } else if d == 2 {
        proof { reveal_strlit("2"); }
        "2"
    } else if d == 3 {
        proof { reveal_strlit("3"); }
        "3"
    } else if d == 4 {
        proof { reveal_strlit("4"); }
        "4"
    } else if d == 5 {
        proof { reveal_strlit("5"); }
        "5"
    } else if d == 6 {
        proof { reveal_strlit("6"); }
        "6"
    } else if d == 7 {
        proof { reveal_strlit("7"); }
        "7"
    } else if d == 8 {
        proof { reveal_strlit("8"); }
        "8"
    } else {
        proof { reveal_strlit("9"); }
        "9"
    }
}

/// The decimal numeral of `n`.
pub fn format_decimal(n: usize) -> (s: String)
    ensures
        s@ == decimal(n as nat),
{
    let mut m: usize = n;
    let mut s = String::new();
    loop
        invariant_except_break
            m > 0 || (m == 0 && n == 0 && s@.len() == 0),
            decimal(n as nat) == decimal(m as nat) + s@,
        ensures
            s@ == decimal(n as nat),
        decreases m,
    {
        let d = m % 10;
        let digit = String::from_str(digit_text(d));
        s = digit.concat(s.as_str());
        if m < 10 {
            assert(decimal(m as nat) == seq![digit_char(m as nat)]);
            break;
        }
        assert(decimal(m as nat) == decimal((m / 10) as nat).push(digit_char((m % 10) as nat)));
        m = m / 10;
        assert(decimal(n as nat) == decimal(m as nat) + s@);
    }
    s
}

} // verus!
