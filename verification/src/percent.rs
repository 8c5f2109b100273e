//! Percent-encoding of text, and its inverse.
//!
//! Encoding leaves the unreserved characters `A-Z a-z 0-9 - _ . ~` as they
//! are and replaces every other character by one escape per byte of its
//! UTF-8 encoding: `%` and two lowercase hexadecimal digits.
//!
//! Decoding reads each escape as one character, the one whose code point is
//! the escaped byte. Consecutive escapes are not put back together into a
//! multi-byte character, so only ASCII text comes back from an encoding
//! unchanged; `lemma_decode_encode` says what other text comes back as.

use crate::text::push_char;
use vstd::prelude::*;
use vstd::std_specs::iter::IteratorSpec;
use vstd::utf8::*;

verus! {

/// Why a text could not be decoded.
#[derive(Debug, Clone, Copy, PartialEq, Eq, Structural)]
pub enum DecodeError {
    /// A `%` has fewer than two characters after it.
    TruncatedEscape,
    /// The two characters after a `%` are not both hexadecimal digits.
    InvalidHexDigits { first: char, second: char },
}

/// The characters that percent-encoding leaves untouched.
pub open spec fn is_unreserved(c: char) -> bool {
    ||| 'A' <= c <= 'Z'
    ||| 'a' <= c <= 'z'
    ||| '0' <= c <= '9'
    ||| c == '-'
    ||| c == '_'
    ||| c == '.'
    ||| c == '~'
}

/// The lowercase hexadecimal digit for a value below 16.
pub open spec fn hex_digit(n: int) -> char
    recommends
        0 <= n < 16,
{
    if n < 10 {
        ('0' as int + n) as char
    } else {
        ('a' as int + (n - 10)) as char
    }
}

/// The escape for one byte: `%`, then the high and the low hexadecimal digit.
pub open spec fn escape_byte(b: u8) -> Seq<char> {
    seq!['%', hex_digit(b as int / 16), hex_digit(b as int % 16)]
}

/// The escapes for a run of bytes, in byte order.
pub open spec fn escape_bytes(bytes: Seq<u8>) -> Seq<char>
    decreases bytes.len(),
{
    if bytes.len() == 0 {
        Seq::empty()
    } else {
        escape_bytes(bytes.drop_last()) + escape_byte(bytes.last())
    }
}

/// What one character becomes when encoded.
pub open spec fn encode_char(c: char) -> Seq<char> {
    if is_unreserved(c) {
        seq![c]
    } else {
        escape_bytes(encode_utf8(seq![c]))
    }
}

/// The percent-encoding of a text: the encodings of its characters, in order.
pub open spec fn encode_text(text: Seq<char>) -> Seq<char>
    decreases text.len(),
{
    if text.len() == 0 {
        Seq::empty()
    } else {
        encode_text(text.drop_last()) + encode_char(text.last())
    }
}

/// The value of a hexadecimal digit, in either case.
pub open spec fn hex_value(c: char) -> Option<int> {
    if '0' <= c <= '9' {
        Some(c as int - '0' as int)
    } else if 'a' <= c <= 'f' {
        Some(c as int - 'a' as int + 10)
    } else if 'A' <= c <= 'F' {
        Some(c as int - 'A' as int + 10)
    } else {
        None
    }
}

/// The byte that the two characters after a `%` stand for.
pub open spec fn escape_value(first: char, second: char) -> Option<u8> {
    match (hex_value(first), hex_value(second)) {
        (Some(high), Some(low)) => Some((16 * high + low) as u8),
        _ => None,
    }
}

/// `rest` with `head` in front of it, where `rest` is a text.
pub open spec fn prepend(head: Seq<char>, rest: Result<Seq<char>, DecodeError>) -> Result<
    Seq<char>,
    DecodeError,
> {
    match rest {
        Ok(tail) => Ok(head + tail),
        Err(e) => Err(e),
    }
}

/// The decoding of a text, read from left to right: the first escape that
/// is cut short or malformed decides the error.
pub open spec fn decode_text(text: Seq<char>) -> Result<Seq<char>, DecodeError>
    decreases text.len(),
{
    if text.len() == 0 {
        Ok(Seq::empty())
    } else if text[0] != '%' {
        prepend(seq![text[0]], decode_text(text.skip(1)))
    } else if text.len() < 3 {
        Err(DecodeError::TruncatedEscape)
    } else {
        match escape_value(text[1], text[2]) {
            Some(b) => prepend(seq![b as char], decode_text(text.skip(3))),
            None => Err(DecodeError::InvalidHexDigits { first: text[1], second: text[2] }),
        }
    }
}

/// True when position `i` of `text` holds a `%` that is not followed by two
/// hexadecimal digits.
pub open spec fn bad_escape(text: Seq<char>, i: int) -> bool {
    &&& 0 <= i < text.len()
    &&& text[i] == '%'
    &&& (i + 2 >= text.len() || escape_value(text[i + 1], text[i + 2]) is None)
}

/// True when every `%` of `text` is followed by two hexadecimal digits.
pub open spec fn well_escaped(text: Seq<char>) -> bool {
    forall|i: int| !bad_escape(text, i)
}

/// True when the first bad escape of `text` is at position `i`.
pub open spec fn first_bad_escape(text: Seq<char>, i: int) -> bool {
    &&& bad_escape(text, i)
    &&& forall|j: int| 0 <= j < i ==> !bad_escape(text, j)
}

/// The error that a bad escape at position `i` gives.
pub open spec fn escape_error(text: Seq<char>, i: int) -> DecodeError {
    if i + 2 >= text.len() {
        DecodeError::TruncatedEscape
    } else {
        DecodeError::InvalidHexDigits { first: text[i + 1], second: text[i + 2] }
    }
}

/// Each byte read as the character with that code point.
pub open spec fn bytes_as_chars(bytes: Seq<u8>) -> Seq<char> {
    bytes.map_values(|b: u8| b as char)
}

/// Decides whether a character belongs to the unreserved set.
fn unreserved(c: char) -> (yes: bool)
    ensures
        yes == is_unreserved(c),
{
    ('A' <= c && c <= 'Z') || ('a' <= c && c <= 'z') || ('0' <= c && c <= '9') || c == '-' || c
        == '_' || c == '.' || c == '~'
}

/// The lowercase hexadecimal digit for a value below 16.
fn hex_digit_of(n: u8) -> (digit: char)
    requires
        n < 16,
    ensures
        digit == hex_digit(n as int),
{
    if n < 10 {
        ('0' as u8 + n) as char
    } else {
        ('a' as u8 + (n - 10)) as char
    }
}

/// Appends the escape of every byte of `c`'s UTF-8 encoding to `out`.
fn push_escaped(out: &mut String, c: char)
    ensures
        final(out)@ == old(out)@ + escape_bytes(encode_utf8(seq![c])),
{
    let mut single = String::new();
    push_char(&mut single, c);
    let bytes = single.as_str().as_bytes();
    assert(single@ =~= seq![c]);
    let mut i: usize = 0;
    while i < bytes.len()
        invariant
            i <= bytes.len(),
            bytes@ == encode_utf8(seq![c]),
            out@ == old(out)@ + escape_bytes(bytes@.take(i as int)),
        decreases bytes.len() - i,
    {
        let b = bytes[i];
        push_char(out, '%');
        push_char(out, hex_digit_of(b / 16));
        push_char(out, hex_digit_of(b % 16));
        proof {
            let done = bytes@.take(i + 1);
            assert(done.drop_last() =~= bytes@.take(i as int));
            assert(done.last() == b);
            assert(out@ =~= old(out)@ + escape_bytes(done));
        }
        i += 1;
    }
    assert(bytes@.take(bytes.len() as int) =~= bytes@);
}

/// Percent-encodes `input`.
///
/// Every unreserved character is copied; every other character is replaced
/// by the escapes of its UTF-8 bytes. The result is therefore pure ASCII.
pub fn encode(input: &str) -> (encoded: String)
    ensures
        encoded@ == encode_text(input@),
        is_ascii_chars(encoded@),
{
    let mut encoded = String::new();
    for ch in it: input.chars()
        invariant
            it.seq() == input@,
            encoded@ == encode_text(input@.take(it.index())),
    {
        if unreserved(ch) {
            push_char(&mut encoded, ch);
        } else {
            push_escaped(&mut encoded, ch);
        }
        proof {
            let done = input@.take(it.index() + 1);
            assert(done.drop_last() =~= input@.take(it.index()));
            assert(done.last() == ch);
            assert(encoded@ =~= encode_text(done));
        }
    }
    proof {
        assert(input@.take(input@.len() as int) =~= input@);
        lemma_encode_is_ascii(input@);
    }
    encoded
}

/// The value of a hexadecimal digit, in either case.
fn hex_value_of(c: char) -> (value: Option<u8>)
    ensures
        match value {
            Some(v) => hex_value(c) == Some(v as int),
            None => hex_value(c) is None,
        },
{
    if '0' <= c && c <= '9' {
        Some(c as u8 - '0' as u8)
    } else if 'a' <= c && c <= 'f' {
        Some(c as u8 - 'a' as u8 + 10)
    } else if 'A' <= c && c <= 'F' {
        Some(c as u8 - 'A' as u8 + 10)
    } else {
        None
    }
}

/// Decodes percent-encoded text.
///
/// Characters other than `%` are copied. A `%` and the two hexadecimal
/// digits after it become the character whose code point is the byte they
/// spell. Scanning stops at the first `%` that is not followed by two
/// hexadecimal digits.
pub fn decode(input: &str) -> (decoded: Result<String, DecodeError>)
    ensures
        match decoded {
            Ok(text) => decode_text(input@) == Ok::<Seq<char>, DecodeError>(text@),
            Err(e) => decode_text(input@) == Err::<Seq<char>, DecodeError>(e),
        },
        decoded is Ok <==> well_escaped(input@),
        decoded matches Err(e) ==> exists|i: int|
            first_bad_escape(input@, i) && e == escape_error(input@, i),
{
    let mut out = String::new();
    let mut chars = input.chars();
    proof {
        lemma_decode_outcome(input@);
    }
    loop
        invariant
            decode_text(input@) == prepend(out@, decode_text(chars.remaining())),
            decode_text(input@) is Ok <==> well_escaped(input@),
            decode_text(input@) matches Err(e) ==> exists|i: int|
                first_bad_escape(input@, i) && e == escape_error(input@, i),
            chars.decrease() is Some,
        decreases chars.decrease()->0,
    {
        let ghost rest = chars.remaining();
        match chars.next() {
            None => {
                assert(out@ + Seq::<char>::empty() =~= out@);
                return Ok(out);
            },
            Some(c) => {
                if c != '%' {
                    let ghost before = out@;
                    push_char(&mut out, c);
                    proof {
                        assert(chars.remaining() =~= rest.skip(1));
                        assert(out@ =~= before + seq![c]);
                        lemma_prepend_twice(before, seq![c], decode_text(rest.skip(1)));
                    }
                } else {
                    let first = match chars.next() {
                        Some(d) => d,
                        None => {
                            return Err(DecodeError::TruncatedEscape);
                        },
                    };
                    let second = match chars.next() {
                        Some(d) => d,
                        None => {
                            return Err(DecodeError::TruncatedEscape);
                        },
                    };
                    match (hex_value_of(first), hex_value_of(second)) {
                        (Some(high), Some(low)) => {
                            let b: u8 = high * 16 + low;
                            let ghost before = out@;
                            push_char(&mut out, b as char);
                            proof {
                                assert(chars.remaining() =~= rest.skip(3));
                                assert(escape_value(first, second) == Some(b));
                                assert(out@ =~= before + seq![b as char]);
                                lemma_prepend_twice(
                                    before,
                                    seq![b as char],
                                    decode_text(rest.skip(3)),
                                );
                            }
                        },
                        _ => {
                            return Err(DecodeError::InvalidHexDigits { first, second });
                        },
                    }
                }
            },
        }
    }
}

/// Text made of unreserved characters only is its own encoding.
pub proof fn lemma_encode_unreserved(text: Seq<char>)
    requires
        forall|i: int| 0 <= i < text.len() ==> is_unreserved(text[i]),
    ensures
        encode_text(text) == text,
    decreases text.len(),
{
    if text.len() > 0 {
        lemma_encode_unreserved(text.drop_last());
        assert(text.drop_last() + seq![text.last()] =~= text);
    }
}

/// A hexadecimal digit written by the encoder is read back as its value.
pub proof fn lemma_hex_digit_value(n: int)
    requires
        0 <= n < 16,
    ensures
        hex_value(hex_digit(n)) == Some(n),
        is_unreserved(hex_digit(n)),
{
}

/// Escapes consist of `%` and hexadecimal digits.
proof fn lemma_escapes_are_plain(bytes: Seq<u8>)
    ensures
        forall|k: int|
            0 <= k < escape_bytes(bytes).len() ==> is_unreserved(#[trigger] escape_bytes(bytes)[k])
                || escape_bytes(bytes)[k] == '%',
    decreases bytes.len(),
{
    if bytes.len() > 0 {
        lemma_escapes_are_plain(bytes.drop_last());
        let b = bytes.last();
        let front = escape_bytes(bytes.drop_last());
        lemma_hex_digit_value(b as int / 16);
        lemma_hex_digit_value(b as int % 16);
        assert forall|k: int| 0 <= k < escape_bytes(bytes).len() implies is_unreserved(
            #[trigger] escape_bytes(bytes)[k],
        ) || escape_bytes(bytes)[k] == '%' by {
            if k < front.len() {
                assert(escape_bytes(bytes)[k] == front[k]);
            } else {
                assert(escape_bytes(bytes)[k] == escape_byte(b)[k - front.len()]);
            }
        }
    }
}

/// The encoding of any text consists of unreserved characters and `%`, so
/// it is pure ASCII.
pub proof fn lemma_encode_is_ascii(text: Seq<char>)
    ensures
        forall|k: int|
            0 <= k < encode_text(text).len() ==> is_unreserved(#[trigger] encode_text(text)[k])
                || encode_text(text)[k] == '%',
        is_ascii_chars(encode_text(text)),
    decreases text.len(),
{
    if text.len() > 0 {
        lemma_encode_is_ascii(text.drop_last());
        let c = text.last();
        if !is_unreserved(c) {
            lemma_escapes_are_plain(encode_utf8(seq![c]));
        }
    }
}

/// Putting two pieces in front, one after the other, is putting their
/// concatenation in front.
proof fn lemma_prepend_twice(a: Seq<char>, b: Seq<char>, rest: Result<Seq<char>, DecodeError>)
    ensures
        prepend(a, prepend(b, rest)) == prepend(a + b, rest),
{
    if let Ok(tail) = rest {
        assert(a + (b + tail) =~= (a + b) + tail);
    }
}

/// A text that decodes can be followed by any other text: the decoding of
/// the whole is the decoding of the first part, then that of the second.
pub proof fn lemma_decode_concat(a: Seq<char>, b: Seq<char>)
    requires
        decode_text(a) is Ok,
    ensures
        decode_text(a + b) == prepend(decode_text(a)->Ok_0, decode_text(b)),
    decreases a.len(),
{
    if a.len() == 0 {
        assert(a + b =~= b);
        if let Ok(tail) = decode_text(b) {
            assert(Seq::<char>::empty() + tail =~= tail);
        }
    } else if a[0] != '%' {
        lemma_decode_concat(a.skip(1), b);
        assert((a + b).skip(1) =~= a.skip(1) + b);
        lemma_prepend_twice(seq![a[0]], decode_text(a.skip(1))->Ok_0, decode_text(b));
    } else {
        let v = escape_value(a[1], a[2])->Some_0;
        lemma_decode_concat(a.skip(3), b);
        assert((a + b).skip(3) =~= a.skip(3) + b);
        lemma_prepend_twice(seq![v as char], decode_text(a.skip(3))->Ok_0, decode_text(b));
    }
}

/// Escapes decode to the bytes they were written for, one character each.
pub proof fn lemma_decode_escapes(bytes: Seq<u8>)
    ensures
        decode_text(escape_bytes(bytes)) == Ok::<Seq<char>, DecodeError>(bytes_as_chars(bytes)),
    decreases bytes.len(),
{
    if bytes.len() > 0 {
        let b = bytes.last();
        let last = escape_byte(b);
        lemma_decode_escapes(bytes.drop_last());
        lemma_decode_concat(escape_bytes(bytes.drop_last()), last);
        lemma_hex_digit_value(b as int / 16);
        lemma_hex_digit_value(b as int % 16);
        assert(escape_value(last[1], last[2]) == Some(b));
        assert(last.skip(3) =~= Seq::<char>::empty());
        assert(decode_text(last.skip(3)) == Ok::<Seq<char>, DecodeError>(Seq::empty()));
        assert(seq![b as char] + Seq::<char>::empty() =~= seq![b as char]);
        assert(decode_text(last) == Ok::<Seq<char>, DecodeError>(seq![b as char]));
        assert(bytes_as_chars(bytes.drop_last()) + seq![b as char] =~= bytes_as_chars(bytes));
    } else {
        assert(bytes_as_chars(bytes) =~= Seq::<char>::empty());
    }
}

/// The UTF-8 encoding of a text is the encodings of its parts, in order.
pub proof fn lemma_utf8_concat(a: Seq<char>, b: Seq<char>)
    ensures
        encode_utf8(a + b) == encode_utf8(a) + encode_utf8(b),
    decreases a.len(),
{
    if a.len() == 0 {
        assert(a + b =~= b);
        assert(encode_utf8(a) + encode_utf8(b) =~= encode_utf8(b));
    } else {
        lemma_utf8_concat(a.drop_first(), b);
        assert((a + b).drop_first() =~= a.drop_first() + b);
        assert(encode_scalar(a[0] as u32) + (encode_utf8(a.drop_first()) + encode_utf8(b))
            =~= (encode_scalar(a[0] as u32) + encode_utf8(a.drop_first())) + encode_utf8(b));
    }
}

/// What one encoded character decodes to: its UTF-8 bytes, one character each.
proof fn lemma_decode_encoded_char(c: char)
    ensures
        decode_text(encode_char(c)) == Ok::<Seq<char>, DecodeError>(
            bytes_as_chars(encode_utf8(seq![c])),
        ),
{
    if is_unreserved(c) {
        let one = seq![c];
        is_ascii_chars_encode_utf8(one);
        assert(one[0] as u8 == encode_utf8(one)[0]);
        assert(bytes_as_chars(encode_utf8(one)) =~= one);
        assert(one.skip(1) =~= Seq::<char>::empty());
        assert(decode_text(one.skip(1)) == Ok::<Seq<char>, DecodeError>(Seq::empty()));
        assert(seq![c] + Seq::<char>::empty() =~= one);
        assert(decode_text(one) == Ok::<Seq<char>, DecodeError>(one));
    } else {
        lemma_decode_escapes(encode_utf8(seq![c]));
    }
}

/// Decoding an encoding always succeeds, and gives the UTF-8 bytes of the
/// encoded text, each as one character.
pub proof fn lemma_decode_encode(text: Seq<char>)
    ensures
        decode_text(encode_text(text)) == Ok::<Seq<char>, DecodeError>(
            bytes_as_chars(encode_utf8(text)),
        ),
    decreases text.len(),
{
    if text.len() == 0 {
        assert(bytes_as_chars(encode_utf8(text)) =~= Seq::<char>::empty());
    } else {
        let front = text.drop_last();
        let c = text.last();
        lemma_decode_encode(front);
        lemma_decode_encoded_char(c);
        lemma_decode_concat(encode_text(front), encode_char(c));
        lemma_utf8_concat(front, seq![c]);
        assert(front + seq![c] =~= text);
        assert(bytes_as_chars(encode_utf8(front)) + bytes_as_chars(encode_utf8(seq![c]))
            =~= bytes_as_chars(encode_utf8(text)));
    }
}

/// ASCII text comes back from an encoding unchanged.
pub proof fn lemma_round_trip_ascii(text: Seq<char>)
    requires
        is_ascii_chars(text),
    ensures
        decode_text(encode_text(text)) == Ok::<Seq<char>, DecodeError>(text),
{
    lemma_decode_encode(text);
    is_ascii_chars_encode_utf8(text);
    assert(bytes_as_chars(encode_utf8(text)) =~= text) by {
        assert forall|i: int| 0 <= i < text.len() implies bytes_as_chars(encode_utf8(text))[i]
            == text[i] by {
            assert(text[i] as u8 == encode_utf8(text)[i]);
        }
    }
}

/// Dropping the first `k` characters moves every bad escape `k` places down.
proof fn lemma_bad_escape_skip(text: Seq<char>, k: int, i: int)
    requires
        0 <= k <= text.len(),
        0 <= i,
    ensures
        bad_escape(text.skip(k), i) == bad_escape(text, i + k),
{
}

/// Where the first `k` characters hold no bad escape and no `%` later than
/// the first position, the rest decides whether the text is well escaped.
proof fn lemma_well_escaped_skip(text: Seq<char>, k: int)
    requires
        0 < k <= text.len(),
        !bad_escape(text, 0),
        forall|j: int| 0 < j < k ==> text[j] != '%',
    ensures
        well_escaped(text) == well_escaped(text.skip(k)),
{
    if well_escaped(text) {
        assert forall|i: int| !bad_escape(text.skip(k), i) by {
            if 0 <= i {
                lemma_bad_escape_skip(text, k, i);
                assert(!bad_escape(text, i + k));
            }
        }
    }
    if well_escaped(text.skip(k)) {
        assert forall|i: int| !bad_escape(text, i) by {
            if k <= i {
                lemma_bad_escape_skip(text, k, i - k);
                assert(!bad_escape(text.skip(k), i - k));
            }
        }
    }
}

/// A text decodes exactly when every `%` in it is followed by two
/// hexadecimal digits.
pub proof fn lemma_decode_succeeds_iff(text: Seq<char>)
    ensures
        decode_text(text) is Ok <==> well_escaped(text),
    decreases text.len(),
{
    if text.len() == 0 {
    } else if text[0] != '%' {
        lemma_decode_succeeds_iff(text.skip(1));
        lemma_well_escaped_skip(text, 1);
    } else if text.len() < 3 || escape_value(text[1], text[2]) is None {
        assert(bad_escape(text, 0));
    } else {
        lemma_decode_succeeds_iff(text.skip(3));
        lemma_well_escaped_skip(text, 3);
    }
}

/// `%` is no hexadecimal digit.
proof fn lemma_hex_is_not_percent(c: char)
    requires
        hex_value(c) is Some,
    ensures
        c != '%',
{
}

/// The first bad escape of a text decides the error of its decoding.
pub proof fn lemma_decode_error(text: Seq<char>, i: int)
    requires
        first_bad_escape(text, i),
    ensures
        decode_text(text) == Err::<Seq<char>, DecodeError>(escape_error(text, i)),
    decreases text.len(),
{
    if i == 0 {
    } else {
        assert(!bad_escape(text, 0));
        let k: int = if text[0] != '%' { 1 } else { 3 };
        if text[0] == '%' {
            lemma_hex_is_not_percent(text[1]);
            lemma_hex_is_not_percent(text[2]);
            assert(!bad_escape(text, 1));
            assert(!bad_escape(text, 2));
        }
        assert forall|j: int| 0 <= j < i - k implies !bad_escape(text.skip(k), j) by {
            lemma_bad_escape_skip(text, k, j);
        }
        lemma_bad_escape_skip(text, k, i - k);
        lemma_decode_error(text.skip(k), i - k);
    }
}

/// Before any bad escape there is a first one.
proof fn lemma_first_bad_escape(text: Seq<char>, i: int)
    requires
        bad_escape(text, i),
    ensures
        exists|k: int| first_bad_escape(text, k),
    decreases i,
{
    if !first_bad_escape(text, i) {
        let j = choose|j: int| 0 <= j < i && bad_escape(text, j);
        lemma_first_bad_escape(text, j);
    }
}

/// Every decoding is accounted for: it succeeds on well-escaped text and on
/// no other, and an error is the one of the first bad escape.
pub proof fn lemma_decode_outcome(text: Seq<char>)
    ensures
        decode_text(text) is Ok <==> well_escaped(text),
        decode_text(text) matches Err(e) ==> exists|i: int|
            first_bad_escape(text, i) && e == escape_error(text, i),
{
    lemma_decode_succeeds_iff(text);
    if !well_escaped(text) {
        let i = choose|i: int| bad_escape(text, i);
        lemma_first_bad_escape(text, i);
        let k = choose|k: int| first_bad_escape(text, k);
        lemma_decode_error(text, k);
    }
}

} // verus!
