//! The wire framing: every field is sent as `LENGTH$FIELD$`, where `LENGTH`
//! is a decimal numeral giving the field's size in bytes.
use vstd::prelude::*;
use vstd::slice::slice_subrange;
use vstd::utf8::*;
use crate::text::{decode_lossy, decode_text, is_utf8};

verus! {

/// The delimiter byte `$`.
pub open spec fn is_dollar(b: u8) -> bool {
    b == 36u8
}

/// `i` is the position of the first `$` in `buf`.
pub open spec fn is_first_dollar(buf: Seq<u8>, i: int) -> bool {
    &&& 0 <= i < buf.len()
    &&& is_dollar(buf[i])
    &&& forall|j: int| 0 <= j < i ==> !is_dollar(#[trigger] buf[j])
}

/// `buf` holds a `$` somewhere.
pub open spec fn has_dollar(buf: Seq<u8>) -> bool {
    exists|i: int| 0 <= i < buf.len() && is_dollar(#[trigger] buf[i])
}

/// The position of the first `$` in `buf` (meaningful when there is one).
pub open spec fn first_dollar(buf: Seq<u8>) -> int {
    choose|i: int| is_first_dollar(buf, i)
}

/// An ASCII decimal digit.
pub open spec fn is_digit(b: u8) -> bool {
    48u8 <= b && b <= 57u8
}

/// Every byte of `s` is an ASCII decimal digit.
pub open spec fn all_digits(s: Seq<u8>) -> bool {
    forall|i: int| 0 <= i < s.len() ==> is_digit(#[trigger] s[i])
}

/// The number that a string of decimal digits denotes.
pub open spec fn digits_value(s: Seq<u8>) -> nat
    decreases s.len(),
{
    if s.len() == 0 {
        0
    } else {
        digits_value(s.drop_last()) * 10 + (s.last() - 48u8) as nat
    }
}

/// What reading a length prefix does to the bytes received so far: the result
/// (`Ok(None)` while no `$` has arrived) and the bytes left afterwards.
pub open spec fn length_scan(buf: Seq<u8>) -> (Result<Option<usize>, Seq<char>>, Seq<u8>) {
    if !has_dollar(buf) {
        (Ok(None), buf)
    } else {
        let pos = first_dollar(buf);
        let digits = buf.take(pos);
        if !valid_utf8(digits) {
            (Err("contains invalid characters"@), buf)
        } else if !all_digits(digits) {
            (Err("the length must be numbers only. "@), buf.skip(pos + 1))
        } else if digits.len() == 0 || digits_value(digits) > usize::MAX {
            (Err("unable to convert to number"@), buf)
        } else {
            (Ok(Some(digits_value(digits) as usize)), buf.skip(pos + 1))
        }
    }
}

/// What reading a field of `len` bytes and its closing `$` does to the bytes
/// received so far: the result (`Ok(None)` while too few bytes have arrived)
/// and the bytes left afterwards.
pub open spec fn field_scan(buf: Seq<u8>, len: nat) -> (Result<Option<Seq<char>>, Seq<char>>, Seq<u8>) {
    if buf.len() < len + 1 {
        (Ok(None), buf)
    } else if !is_dollar(buf[len as int]) {
        (Err("invalid command!"@), buf.skip(len as int + 1))
    } else {
        (Ok(Some(decode_text(buf.take(len as int)))), buf.skip(len as int + 1))
    }
}

/// The view of a length reading's result.
pub open spec fn length_result_view(r: Result<Option<usize>, String>) -> Result<Option<usize>, Seq<char>> {
    match r {
        Ok(v) => Ok(v),
        Err(e) => Err(e@),
    }
}

/// The view of a field reading's result.
pub open spec fn field_result_view(r: Result<Option<String>, String>) -> Result<Option<Seq<char>>, Seq<char>> {
    match r {
        Ok(Some(s)) => Ok(Some(s@)),
        Ok(None) => Ok(None),
        Err(e) => Err(e@),
    }
}

/// Index of the first `$` in `buf`, if there is one.
pub fn find_dollar(buf: &[u8]) -> (r: Option<usize>)
    ensures
        match r {
            Some(i) => is_first_dollar(buf@, i as int),
            None => !has_dollar(buf@),
        },
{
    let mut i: usize = 0;
    while i < buf.len()
        invariant
            i <= buf@.len(),
            forall|j: int| 0 <= j < i ==> !is_dollar(#[trigger] buf@[j]),
        decreases buf@.len() - i,
    {
        if buf[i] == 36u8 {
            return Some(i);
        }
        i += 1;
    }
    None
}

/// The first `$` is unique.
pub proof fn lemma_first_dollar_unique(buf: Seq<u8>, i: int)
    requires
        is_first_dollar(buf, i),
    ensures
        has_dollar(buf),
        first_dollar(buf) == i,
{
    assert(is_dollar(buf[i]));
    let k = first_dollar(buf);
    assert(is_first_dollar(buf, k));
    if k < i {
        assert(!is_dollar(buf[k]));
    } else if i < k {
        assert(!is_dollar(buf[i]));
    }
}

/// Where `buf` holds a `$`, it has a first one.
pub proof fn lemma_first_dollar_exists(buf: Seq<u8>)
    requires
        has_dollar(buf),
    ensures
        is_first_dollar(buf, first_dollar(buf)),
{
    let i = choose|i: int| 0 <= i < buf.len() && is_dollar(#[trigger] buf[i]);
    lemma_some_first_dollar(buf, i);
}

proof fn lemma_some_first_dollar(buf: Seq<u8>, i: int)
    requires
        0 <= i < buf.len(),
        is_dollar(buf[i]),
    ensures
        exists|k: int| is_first_dollar(buf, k),
    decreases i,
{
    if forall|j: int| 0 <= j < i ==> !is_dollar(#[trigger] buf[j]) {
        assert(is_first_dollar(buf, i));
    } else {
        let j = choose|j: int| 0 <= j < i && is_dollar(#[trigger] buf[j]);
        lemma_some_first_dollar(buf, j);
    }
}

/// The value of a prefix of a digit string never exceeds the value of the whole.
pub proof fn lemma_digits_value_prefix(s: Seq<u8>, k: int)
    requires
        0 <= k <= s.len(),
        all_digits(s),
    ensures
        digits_value(s.take(k)) <= digits_value(s),
    decreases s.len(),
{
    if k < s.len() {
        let t = s.drop_last();
        assert(t.take(k) =~= s.take(k));
        assert(all_digits(t));
        lemma_digits_value_prefix(t, k);
    } else {
        assert(s.take(k) =~= s);
    }
}

/// Whether every byte of `s` is an ASCII decimal digit.
fn is_all_digits(s: &[u8]) -> (r: bool)
    ensures
        r == all_digits(s@),
{
    let mut i: usize = 0;
    while i < s.len()
        invariant
            i <= s@.len(),
            forall|j: int| 0 <= j < i ==> is_digit(#[trigger] s@[j]),
        decreases s@.len() - i,
    {
        if s[i] < 48u8 || s[i] > 57u8 {
            assert(!is_digit(s@[i as int]));
            return false;
        }
        i += 1;
    }
    true
}

/// The number that a non-empty digit string denotes, or `None` where it is
/// empty or exceeds `usize::MAX`.
fn digits_to_usize(s: &[u8]) -> (r: Option<usize>)
    requires
        all_digits(s@),
    ensures
        match r {
            Some(v) => s@.len() > 0 && v as nat == digits_value(s@),
            None => s@.len() == 0 || digits_value(s@) > usize::MAX,
        },
{
    if s.len() == 0 {
        return None;
    }
    let mut v: usize = 0;
    let mut i: usize = 0;
    while i < s.len()
        invariant
            i <= s@.len(),
            all_digits(s@),
            v as nat == digits_value(s@.take(i as int)),
        decreases s@.len() - i,
    {
        let d = (s[i] - 48u8) as usize;
        proof {
            assert(s@.take(i as int + 1).drop_last() =~= s@.take(i as int));
            assert(is_digit(s@[i as int]));
        }
        match v.checked_mul(10) {
            Some(t) => match t.checked_add(d) {
                Some(w) => {
                    v = w;
                },
                None => {
                    proof { lemma_digits_value_prefix(s@, i as int + 1); }
                    return None;
                },
            },
            None => {
                proof { lemma_digits_value_prefix(s@, i as int + 1); }
                return None;
            },
        }
        i += 1;
    }
    proof { assert(s@.take(i as int) =~= s@); }
    Some(v)
}

/// Drops the first `n` bytes of `buffer`.
fn drop_front(buffer: &mut Vec<u8>, n: usize)
    requires
        n <= old(buffer)@.len(),
    ensures
        final(buffer)@ == old(buffer)@.skip(n as int),
{
    let rest = buffer.split_off(n);
    *buffer = rest;
}

/// Reads a length prefix `DIGITS$` from the front of `buffer`.
///
/// Until a `$` has arrived it returns `Ok(None)` and leaves `buffer` alone. It
/// then rejects a prefix that is not UTF-8 or does not convert to a `usize`
/// (keeping the bytes), and one that holds anything but digits (dropping it
/// with its `$`); otherwise it drops the prefix and its `$` and returns the
/// number.
pub fn parse_length(buffer: &mut Vec<u8>) -> (r: Result<Option<usize>, String>)
    ensures
        (length_result_view(r), final(buffer)@) == length_scan(old(buffer)@),
{
    let pos = match find_dollar(buffer.as_slice()) {
        Some(p) => p,
        None => {
            return Ok(None);
        },
    };
    let total = buffer.len();
    proof { lemma_first_dollar_unique(buffer@, pos as int); }
    assert(pos < total);
    let digits = slice_subrange(buffer.as_slice(), 0, pos);
    assert(digits@ =~= buffer@.take(pos as int));
    if !is_utf8(digits) {
        return Err(String::from_str("contains invalid characters"));
    }
    if !is_all_digits(digits) {
        drop_front(buffer, pos + 1);
        return Err(String::from_str("the length must be numbers only. "));
    }
    match digits_to_usize(digits) {
        None => Err(String::from_str("unable to convert to number")),
        Some(length) => {
            drop_front(buffer, pos + 1);
            Ok(Some(length))
        },
    }
}

/// Reads a field of `length` bytes and its closing `$` from the front of
/// `buffer`.
///
/// While fewer than `length + 1` bytes have arrived it returns `Ok(None)` and
/// leaves `buffer` alone. Otherwise it drops those bytes, and returns the field
/// decoded (ill-formed UTF-8 replaced) where the last of them is `$`, an error
/// where it is not.
pub fn parse_field(buffer: &mut Vec<u8>, length: usize) -> (r: Result<Option<String>, String>)
    requires
        length < usize::MAX,
    ensures
        (field_result_view(r), final(buffer)@) == field_scan(old(buffer)@, length as nat),
{
    if buffer.len() < length + 1 {
        return Ok(None);
    }
    if buffer[length] != 36u8 {
        drop_front(buffer, length + 1);
        return Err(String::from_str("invalid command!"));
    }
    let data = slice_subrange(buffer.as_slice(), 0, length);
    assert(data@ =~= buffer@.take(length as int));
    let text = decode_lossy(data);
    drop_front(buffer, length + 1);
    Ok(Some(text))
}

} // verus!
