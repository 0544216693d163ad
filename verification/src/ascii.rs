//! Text in files: decimal numbers written and read as ASCII bytes.

use vstd::prelude::*;
use vstd::utf8::{encode_utf8, is_ascii_chars, valid_utf8};

verus! {

/// Whether the byte is one of the ASCII digits `0` to `9`.
pub open spec fn is_digit(byte: u8) -> bool {
    48 <= byte <= 57
}

/// Whether the byte is ASCII white space: a space, a tab, a line feed, a
/// vertical tab, a form feed or a carriage return.
pub open spec fn is_space(byte: u8) -> bool {
    byte == 32 || 9 <= byte <= 13
}

/// Whether every byte is an ASCII character.
pub open spec fn is_ascii_text(bytes: Seq<u8>) -> bool {
    forall|i: int| 0 <= i < bytes.len() ==> #[trigger] bytes[i] < 128
}

/// The number written in base 10, most significant digit first, without
/// leading zeros.
pub open spec fn decimal(n: nat) -> Seq<u8>
    decreases n,
{
    let front = if n < 10 {
        seq![]
    } else {
        decimal(n / 10)
    };
    front.push((48 + n % 10) as u8)
}

/// The number that a sequence of digits denotes in base 10.
pub open spec fn digits_value(digits: Seq<u8>) -> nat
    decreases digits.len(),
{
    if digits.len() == 0 {
        0
    } else {
        digits_value(digits.drop_last()) * 10 + (digits.last() - 48) as nat
    }
}

/// Whether every byte is a digit.
pub open spec fn all_digits(text: Seq<u8>) -> bool {
    forall|i: int| 0 <= i < text.len() ==> is_digit(#[trigger] text[i])
}

/// The unsigned number that a text denotes: one or more digits, after an
/// optional `+`, whose value fits into a `usize`. Any other text denotes no
/// number.
pub open spec fn parse_number(text: Seq<u8>) -> Option<usize> {
    let digits = if text.len() > 0 && text[0] == 43 {
        text.skip(1)
    } else {
        text
    };
    if digits.len() > 0 && all_digits(digits) && digits_value(digits) <= usize::MAX {
        Some(digits_value(digits) as usize)
    } else {
        None
    }
}

/// The first position at or after `from` that holds `byte`, or the length of
/// `bytes` where there is none.
pub open spec fn find_byte(bytes: Seq<u8>, byte: u8, from: int) -> int
    decreases bytes.len() - from,
{
    if from >= bytes.len() {
        bytes.len() as int
    } else if bytes[from] == byte {
        from
    } else {
        find_byte(bytes, byte, from + 1)
    }
}

/// What a search finds: no position before the result holds the byte, and
/// the result holds it unless the search ran to the end.
pub proof fn lemma_find_byte_finds(bytes: Seq<u8>, byte: u8, from: int)
    requires
        0 <= from <= bytes.len(),
    ensures
        from <= find_byte(bytes, byte, from) <= bytes.len(),
        forall|i: int| from <= i < find_byte(bytes, byte, from) ==> bytes[i] != byte,
        find_byte(bytes, byte, from) < bytes.len() ==> bytes[find_byte(bytes, byte, from)] == byte,
    decreases bytes.len() - from,
{
    if from < bytes.len() && bytes[from] != byte {
        lemma_find_byte_finds(bytes, byte, from + 1);
    }
}

/// A position is what a search finds if no position before it holds the
/// byte, and it holds the byte or is the end.
pub proof fn lemma_find_byte_is(bytes: Seq<u8>, byte: u8, from: int, at: int)
    requires
        0 <= from <= at <= bytes.len(),
        forall|i: int| from <= i < at ==> bytes[i] != byte,
        at < bytes.len() ==> bytes[at] == byte,
    ensures
        find_byte(bytes, byte, from) == at,
    decreases at - from,
{
    if from < at {
        lemma_find_byte_is(bytes, byte, from + 1, at);
    }
}

/// A number written in base 10 consists of digits, at least one.
pub proof fn lemma_decimal_is_digits(n: nat)
    ensures
        decimal(n).len() > 0,
        all_digits(decimal(n)),
        is_ascii_text(decimal(n)),
    decreases n,
{
    if n >= 10 {
        lemma_decimal_is_digits(n / 10);
    }
}

/// Reading a number back from its digits yields the number.
pub proof fn lemma_decimal_reads_back(n: nat)
    ensures
        digits_value(decimal(n)) == n,
    decreases n,
{
    let front = if n < 10 {
        seq![]
    } else {
        decimal(n / 10)
    };
    assert(decimal(n).drop_last() =~= front);
    if n >= 10 {
        lemma_decimal_reads_back(n / 10);
    } else {
        assert(digits_value(front) == 0);
    }
}

/// A longer sequence of digits denotes no smaller number than its start.
proof fn lemma_value_grows(digits: Seq<u8>, n: int)
    requires
        0 <= n <= digits.len(),
        all_digits(digits),
    ensures
        digits_value(digits.take(n)) <= digits_value(digits),
    decreases digits.len() - n,
{
    if n < digits.len() {
        lemma_value_grows(digits, n + 1);
        assert(digits.take(n + 1).drop_last() =~= digits.take(n));
        assert(is_digit(digits[n]));
    } else {
        assert(digits.take(n) =~= digits);
    }
}

/// Appends the decimal digits of `n`.
pub(crate) fn push_decimal(out: &mut Vec<u8>, n: usize)
    ensures
        final(out)@ == old(out)@ + decimal(n as nat),
    decreases n,
{
    if n >= 10 {
        push_decimal(out, n / 10);
    }
    out.push(48 + (n % 10) as u8);
    proof {
        let front = if n < 10 {
            seq![]
        } else {
            decimal((n / 10) as nat)
        };
        assert(out@ =~= old(out)@ + front.push((48 + n % 10) as u8));
    }
}

/// Finds the first position at or after `from` that holds `byte`.
pub(crate) fn position(bytes: &[u8], byte: u8, from: usize) -> (at: usize)
    requires
        from <= bytes@.len(),
    ensures
        at == find_byte(bytes@, byte, from as int),
        from <= at <= bytes@.len(),
{
    let mut at = from;
    while at < bytes.len() && bytes[at] != byte
        invariant
            from <= at <= bytes@.len(),
            find_byte(bytes@, byte, from as int) == find_byte(bytes@, byte, at as int),
        decreases bytes@.len() - at,
    {
        at += 1;
    }
    at
}

/// Reads the unsigned number that the bytes from `start` up to `end` denote.
pub(crate) fn read_number(bytes: &[u8], start: usize, end: usize) -> (number: Option<usize>)
    requires
        start <= end <= bytes@.len(),
    ensures
        number == parse_number(bytes@.subrange(start as int, end as int)),
{
    let ghost text = bytes@.subrange(start as int, end as int);
    let first = if start < end && bytes[start] == 43 {
        start + 1
    } else {
        start
    };
    let ghost digits = bytes@.subrange(first as int, end as int);
    proof {
        if first == start {
            assert(digits =~= text);
        } else {
            assert(digits =~= text.skip(1));
        }
    }
    if first == end {
        return None;
    }
    let mut value: usize = 0;
    let mut i = first;
    proof {
        assert(digits.take(0) =~= Seq::<u8>::empty());
    }
    while i < end
        invariant
            first <= i <= end <= bytes@.len(),
            digits == bytes@.subrange(first as int, end as int),
            digits.len() > 0,
            text == bytes@.subrange(start as int, end as int),
            digits == if text.len() > 0 && text[0] == 43 {
                text.skip(1)
            } else {
                text
            },
            all_digits(digits.take(i - first)),
            value == digits_value(digits.take(i - first)),
        decreases end - i,
    {
        let byte = bytes[i];
        proof {
            assert(digits[i - first] == byte);
            assert(digits.take(i - first + 1).drop_last() =~= digits.take(i - first));
        }
        if byte < 48 || byte > 57 {
            return None;
        }
        proof {
            assert forall|k: int| 0 <= k < i - first + 1 implies is_digit(
                #[trigger] digits.take(i - first + 1)[k],
            ) by {
                if k < i - first {
                    assert(digits.take(i - first)[k] == digits[k]);
                }
            }
            if all_digits(digits) {
                lemma_value_grows(digits, i - first + 1);
            }
        }
        let shifted = match value.checked_mul(10) {
            Some(shifted) => shifted,
            None => { return None; },
        };
        value = match shifted.checked_add((byte - 48) as usize) {
            Some(sum) => sum,
            None => { return None; },
        };
        i += 1;
    }
    proof {
        assert(digits.take(end - first) =~= digits);
    }
    Some(value)
}

/// `String::from_utf8` of the standard library: bytes that are valid UTF-8
/// become the string that is encoded by exactly these bytes, and other bytes
/// become no string.
#[verifier::external_body]
fn string_from_utf8(bytes: Vec<u8>) -> (text: Option<String>)
    ensures
        text is Some <==> valid_utf8(bytes@),
        text matches Some(string) ==> encode_utf8(string@) == bytes@,
{
    String::from_utf8(bytes).ok()
}

/// The string that holds the given ASCII characters.
pub(crate) fn ascii_string(bytes: Vec<u8>) -> (text: String)
    requires
        is_ascii_text(bytes@),
    ensures
        encode_utf8(text@) == bytes@,
{
    proof {
        let chars = Seq::new(bytes@.len(), |i: int| bytes@[i] as char);
        assert(is_ascii_chars(chars));
        vstd::utf8::is_ascii_chars_encode_utf8(chars);
        assert(encode_utf8(chars) =~= bytes@);
        vstd::utf8::encode_utf8_valid_utf8(chars);
    }
    match string_from_utf8(bytes) {
        Some(text) => text,
        None => String::new(),
    }
}

} // verus!
