//! Removing characters from a text.

use crate::text::push_char;
use vstd::prelude::*;

verus! {

/// The test that a character passes when it does not occur in `removal`.
pub open spec fn survives(removal: Seq<char>) -> spec_fn(char) -> bool {
    |c: char| !removal.contains(c)
}

/// `text` without the characters that occur in `removal`: what is left keeps
/// its order.
pub open spec fn strip(text: Seq<char>, removal: Seq<char>) -> Seq<char> {
    text.filter(survives(removal))
}

/// Decides whether `c` occurs in `s`.
fn has_char(s: &str, c: char) -> (found: bool)
    ensures
        found == s@.contains(c),
{
    for d in it: s.chars()
        invariant
            it.seq() == s@,
            forall|j: int| 0 <= j < it.index() ==> s@[j] != c,
    {
        if d == c {
            assert(s@[it.index()] == c);
            return true;
        }
    }
    false
}

/// Returns `word` without every character that occurs in `filter`,
/// wherever in `word` it stands.
pub fn remove_char(word: &str, filter: &str) -> (kept: String)
    ensures
        kept@ == strip(word@, filter@),
{
    let mut kept = String::new();
    for c in it: word.chars()
        invariant
            it.seq() == word@,
            kept@ == strip(word@.take(it.index()), filter@),
    {
        proof {
            let done = word@.take(it.index() + 1);
            assert(done =~= word@.take(it.index()).push(c));
            word@.take(it.index()).lemma_filter_push(c, survives(filter@));
        }
        if !has_char(filter, c) {
            push_char(&mut kept, c);
        }
    }
    proof {
        reveal(Seq::filter);
        assert(word@.take(word@.len() as int) =~= word@);
    }
    kept
}

/// Stripping leaves nothing behind that a second stripping could remove.
pub proof fn lemma_strip_idempotent(text: Seq<char>, removal: Seq<char>)
    ensures
        strip(strip(text, removal), removal) == strip(text, removal),
    decreases text.len(),
{
    reveal(Seq::filter);
    if text.len() > 0 {
        lemma_strip_idempotent(text.drop_last(), removal);
        if survives(removal)(text.last()) {
            let front = strip(text.drop_last(), removal);
            assert(front.push(text.last()).drop_last() =~= front);
        }
    }
}

/// Stripping works piece by piece.
pub proof fn lemma_strip_concat(a: Seq<char>, b: Seq<char>, removal: Seq<char>)
    ensures
        strip(a + b, removal) == strip(a, removal) + strip(b, removal),
{
    Seq::filter_distributes_over_add(a, b, survives(removal));
}

/// Text that holds none of the characters to remove is left as it is.
pub proof fn lemma_strip_nothing(text: Seq<char>, removal: Seq<char>)
    requires
        forall|i: int| 0 <= i < text.len() ==> !removal.contains(text[i]),
    ensures
        strip(text, removal) == text,
    decreases text.len(),
{
    reveal(Seq::filter);
    if text.len() > 0 {
        lemma_strip_nothing(text.drop_last(), removal);
        assert(text.drop_last().push(text.last()) =~= text);
    }
}

} // verus!
