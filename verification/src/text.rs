//! Plumbing between Rust strings and the character sequences that the
//! contracts of this crate speak about.

use vstd::prelude::*;
use vstd::utf8::*;

verus! {

/// Appends `c` to the end of `s`.
///
/// Trusted: the body is `String::push`, which the standard library documents
/// as appending the given character to the end of the string. Nothing else
/// about the string changes.
#[verifier::external_body]
pub(crate) fn push_char(s: &mut String, c: char)
    ensures
        final(s)@ == old(s)@.push(c),
{
    s.push(c)
}

/// Collects the characters of `s` into a vector, so that they can be
/// addressed by position.
pub(crate) fn chars_of(s: &str) -> (chars: Vec<char>)
    ensures
        chars@ == s@,
{
    let mut chars: Vec<char> = Vec::new();
    for c in it: s.chars()
        invariant
            it.seq() == s@,
            chars@ == s@.take(it.index()),
    {
        chars.push(c);
        assert(s@.take(it.index() + 1) =~= s@.take(it.index()).push(c));
    }
    assert(s@.take(s@.len() as int) =~= s@);
    chars
}

/// Builds a string from the characters at positions `from..to`.
pub(crate) fn string_of(chars: &Vec<char>, from: usize, to: usize) -> (s: String)
    requires
        from <= to <= chars.len(),
    ensures
        s@ == chars@.subrange(from as int, to as int),
{
    let mut s = String::new();
    let mut i: usize = from;
    while i < to
        invariant
            from <= i <= to <= chars.len(),
            s@ == chars@.subrange(from as int, i as int),
        decreases to - i,
    {
        push_char(&mut s, chars[i]);
        assert(chars@.subrange(from as int, i + 1) =~= chars@.subrange(from as int, i as int).push(
            chars@[i as int],
        ));
        i += 1;
    }
    s
}

/// The position of the first `c` among positions `from..to`, or `to` when
/// there is none.
pub(crate) fn find_char(chars: &Vec<char>, from: usize, to: usize, c: char) -> (at: usize)
    requires
        from <= to <= chars.len(),
    ensures
        from <= at <= to,
        at < to ==> chars@[at as int] == c,
        forall|j: int| from <= j < at ==> chars@[j] != c,
{
    let mut i: usize = from;
    while i < to && chars[i] != c
        invariant
            from <= i <= to <= chars.len(),
            forall|j: int| from <= j < i ==> chars@[j] != c,
        decreases to - i,
    {
        i += 1;
    }
    i
}

/// Two texts have the same UTF-8 encoding only if they are the same text.
proof fn lemma_utf8_injective(a: Seq<char>, b: Seq<char>)
    requires
        encode_utf8(a) == encode_utf8(b),
    ensures
        a == b,
{
    encode_utf8_decode_utf8(a);
    encode_utf8_decode_utf8(b);
}

/// Decides whether two strings hold the same text.
pub(crate) fn str_eq(a: &str, b: &str) -> (same: bool)
    ensures
        same == (a@ == b@),
{
    let x = a.as_bytes();
    let y = b.as_bytes();
    if x.len() != y.len() {
        return false;
    }
    let mut i: usize = 0;
    while i < x.len()
        invariant
            i <= x.len() == y.len(),
            x@ == encode_utf8(a@),
            y@ == encode_utf8(b@),
            forall|j: int| 0 <= j < i ==> x@[j] == y@[j],
        decreases x.len() - i,
    {
        if x[i] != y[i] {
            return false;
        }
        i += 1;
    }
    proof {
        assert(x@ =~= y@);
        lemma_utf8_injective(a@, b@);
    }
    true
}

} // verus!
