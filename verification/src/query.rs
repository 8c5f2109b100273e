//! Query strings: from text to a parameter mapping, and back.
//!
//! A query string is a run of segments separated by `&`. Each segment is a
//! key and a value separated by the segment's first `=`; a segment without
//! `=` is a key with the empty value. The marker characters `?`, `#` and
//! `!` are dropped wherever they stand, before anything is split. An empty
//! segment counts: it is the empty key with the empty value, so the empty
//! query string holds one pair.
//!
//! Nothing here percent-decodes or percent-encodes: keys and values are
//! taken and written as they are.

use crate::helper::{
    lemma_strip_concat, lemma_strip_nothing, remove_char, strip,
};
use crate::params::{
    distinct_keys, has_key, text_pairs, to_map, values_for, MultiParams, Params,
};
use crate::text::{chars_of, find_char, push_char, string_of};
use vstd::prelude::*;
use vstd::string::StringExecFns;

verus! {

/// The characters that are dropped from a query string before it is split.
pub open spec fn markers() -> Seq<char> {
    seq!['?', '#', '!']
}

/// The position of the first `c` in `text`, or the length of `text` where
/// there is none.
pub open spec fn find(text: Seq<char>, c: char) -> nat
    decreases text.len(),
{
    if text.len() == 0 || text[0] == c {
        0
    } else {
        1 + find(text.skip(1), c)
    }
}

/// The key and the value of one segment: what stands before its first `=`
/// and what stands after it.
pub open spec fn split_pair(segment: Seq<char>) -> (Seq<char>, Seq<char>) {
    let at = find(segment, '=') as int;
    if at < segment.len() {
        (segment.take(at), segment.skip(at + 1))
    } else {
        (segment, Seq::empty())
    }
}

/// The pairs of a text without markers, segment by segment.
pub open spec fn split_pairs(text: Seq<char>) -> Seq<(Seq<char>, Seq<char>)>
    decreases text.len(),
{
    let at = find(text, '&') as int;
    if at < text.len() {
        seq![split_pair(text.take(at))] + split_pairs(text.skip(at + 1))
    } else {
        seq![split_pair(text)]
    }
}

/// The pairs of a query string, in the order in which they stand in it.
pub open spec fn query_pairs(query: Seq<char>) -> Seq<(Seq<char>, Seq<char>)> {
    split_pairs(strip(query, markers()))
}

/// The mapping in which each key has all the values that the pairs give it,
/// in the order of the pairs.
pub open spec fn gather(pairs: Seq<(Seq<char>, Seq<char>)>) -> Map<Seq<char>, Seq<Seq<char>>>
    decreases pairs.len(),
{
    if pairs.len() == 0 {
        Map::empty()
    } else {
        let before = gather(pairs.drop_last());
        before.insert(pairs.last().0, values_for(before, pairs.last().0).push(pairs.last().1))
    }
}

/// The test that a pair passes when its key is `key`.
pub open spec fn with_key(key: Seq<char>) -> spec_fn((Seq<char>, Seq<char>)) -> bool {
    |pair: (Seq<char>, Seq<char>)| pair.0 == key
}

/// The values that the pairs give to `key`, in the order of the pairs.
pub open spec fn values_of(pairs: Seq<(Seq<char>, Seq<char>)>, key: Seq<char>) -> Seq<Seq<char>> {
    pairs.filter(with_key(key)).map_values(|pair: (Seq<char>, Seq<char>)| pair.1)
}

/// One pair as it is written: the key, `=`, the value.
pub open spec fn pair_text(pair: (Seq<char>, Seq<char>)) -> Seq<char> {
    pair.0 + seq!['='] + pair.1
}

/// The pairs as they are written, in order, with `&` between one and the
/// next.
pub open spec fn join_pairs(pairs: Seq<(Seq<char>, Seq<char>)>) -> Seq<char>
    decreases pairs.len(),
{
    if pairs.len() == 0 {
        Seq::empty()
    } else if pairs.len() == 1 {
        pair_text(pairs[0])
    } else {
        join_pairs(pairs.drop_last()) + seq!['&'] + pair_text(pairs.last())
    }
}

/// True when a text holds no marker: stripping leaves it as it is.
#[verifier::opaque]
pub open spec fn unmarked(text: Seq<char>) -> bool {
    strip(text, markers()) == text
}

/// True when a pair can be written and read back: its key holds no `&`,
/// no `=` and no marker, its value no `&` and no marker.
pub open spec fn plain_pair(pair: (Seq<char>, Seq<char>)) -> bool {
    &&& !pair.0.contains('&')
    &&& !pair.0.contains('=')
    &&& unmarked(pair.0)
    &&& !pair.1.contains('&')
    &&& unmarked(pair.1)
}

/// Reads the segment that begins at `start`: its key, its value, and the
/// position at which it ends.
fn next_pair(chars: &Vec<char>, start: usize) -> (found: (String, String, usize))
    requires
        start <= chars.len(),
    ensures
        found.2 == start + find(chars@.skip(start as int), '&'),
        found.2 <= chars.len(),
        (found.0@, found.1@) == split_pair(chars@.subrange(start as int, found.2 as int)),
{
    let end = find_char(chars, start, chars.len(), '&');
    let middle = find_char(chars, start, end, '=');
    let ghost segment = chars@.subrange(start as int, end as int);
    proof {
        lemma_find(chars@.skip(start as int), '&', end - start);
        lemma_find(segment, '=', middle - start);
    }
    let key = string_of(chars, start, middle);
    let value = if middle < end {
        string_of(chars, middle + 1, end)
    } else {
        String::new()
    };
    proof {
        assert(key@ =~= segment.take(middle - start));
        if middle < end {
            assert(value@ =~= segment.skip(middle - start + 1));
        }
    }
    (key, value, end)
}

/// Reads the pairs of a query string, in the order in which they stand in
/// it.
fn read_pairs(query: &str) -> (pairs: Vec<(String, String)>)
    ensures
        text_pairs(pairs@) == query_pairs(query@),
{
    proof {
        reveal_strlit("?#!");
        assert("?#!"@ =~= markers());
    }
    let cleaned = remove_char(query, "?#!");
    let chars = chars_of(cleaned.as_str());
    let mut pairs: Vec<(String, String)> = Vec::new();
    let mut start: usize = 0;
    assert(chars@.skip(0) =~= chars@);
    assert(text_pairs(pairs@) =~= Seq::empty());
    loop
        invariant_except_break
            start <= chars.len(),
            split_pairs(chars@) == text_pairs(pairs@) + split_pairs(chars@.skip(start as int)),
        ensures
            text_pairs(pairs@) == split_pairs(chars@),
        decreases chars.len() - start,
    {
        let ghost done = text_pairs(pairs@);
        let (key, value, end) = next_pair(&chars, start);
        proof {
            lemma_split_step(chars@, start as int, end as int);
            let pair = (key@, value@);
            assert(done + (seq![pair] + split_pairs(chars@.skip(end + 1))) =~= done.push(pair)
                + split_pairs(chars@.skip(end + 1)));
            assert(done + seq![pair] =~= done.push(pair));
        }
        pairs.push((key, value));
        assert(text_pairs(pairs@) =~= done.push((key@, value@)));
        if end == chars.len() {
            break;
        }
        start = end + 1;
    }
    pairs
}

/// Parses a query string into the mapping from each key to all its values.
///
/// Markers are dropped, the rest is split at every `&`, and each segment at
/// its first `=`. A key that occurs again gets the new value behind the
/// ones it has.
pub fn parse(query: &str) -> (params: MultiParams)
    ensures
        params@ == gather(query_pairs(query@)),
{
    let pairs = read_pairs(query);
    let ghost all = pairs@;
    let mut params = MultiParams::new();
    for pair in it: pairs
        invariant
            it.seq() == all,
            params@ == gather(text_pairs(all.take(it.index()))),
    {
        proof {
            let done = text_pairs(all.take(it.index() + 1));
            assert(done.drop_last() =~= text_pairs(all.take(it.index())));
            assert(done.last() == (pair.0@, pair.1@));
        }
        params.append(pair.0, pair.1);
    }
    assert(all.take(all.len() as int) =~= all);
    params
}

/// Parses a query string into the mapping from each key to one value: the
/// last that the query string gives it.
pub fn parse_single(query: &str) -> (params: Params)
    ensures
        params@ == to_map(query_pairs(query@)),
{
    let pairs = read_pairs(query);
    let ghost all = pairs@;
    let mut params = Params::new();
    for pair in it: pairs
        invariant
            it.seq() == all,
            params@ == to_map(text_pairs(all.take(it.index()))),
    {
        proof {
            let done = text_pairs(all.take(it.index() + 1));
            assert(done.drop_last() =~= text_pairs(all.take(it.index())));
            assert(done.last() == (pair.0@, pair.1@));
        }
        params.insert(pair.0, pair.1);
    }
    assert(all.take(all.len() as int) =~= all);
    params
}

/// Writes a mapping as a query string: `key=value` for each key, in the
/// order of `entries`, with `&` between one pair and the next.
///
/// Keys and values are written as they are. Each key of the mapping is
/// written once.
pub fn stringify(params: &Params) -> (query: String)
    ensures
        query@ == join_pairs(params.entries()),
        distinct_keys(params.entries()),
{
    let mut query = String::new();
    let n: usize = params.len();
    let mut i: usize = 0;
    while i < n
        invariant
            i <= n == params.entries().len(),
            query@ == join_pairs(params.entries().take(i as int)),
        decreases n - i,
    {
        let ghost before = query@;
        if i > 0 {
            push_char(&mut query, '&');
        }
        match params.entry(i) {
            Some((key, value)) => {
                query.append(key.as_str());
                push_char(&mut query, '=');
                query.append(value.as_str());
                proof {
                    let done = params.entries().take(i + 1);
                    assert(done.drop_last() =~= params.entries().take(i as int));
                    assert(done.last() == (key@, value@));
                    if i > 0 {
                        assert(query@ =~= before + seq!['&'] + pair_text((key@, value@)));
                    } else {
                        assert(query@ =~= pair_text((key@, value@)));
                    }
                }
            },
            None => {},
        }
        i += 1;
    }
    assert(params.entries().take(n as int) =~= params.entries());
    query
}

/// `find` gives the first position that holds `c`.
pub proof fn lemma_find(text: Seq<char>, c: char, at: int)
    requires
        0 <= at <= text.len(),
        forall|j: int| 0 <= j < at ==> text[j] != c,
        at < text.len() ==> text[at] == c,
    ensures
        find(text, c) == at,
    decreases at,
{
    if at > 0 {
        lemma_find(text.skip(1), c, at - 1);
    }
}

/// `find` stays within the text, no earlier position holds `c`, and the
/// position found holds it.
pub proof fn lemma_find_first(text: Seq<char>, c: char)
    ensures
        find(text, c) <= text.len(),
        forall|j: int| 0 <= j < find(text, c) ==> text[j] != c,
        find(text, c) < text.len() ==> text[find(text, c) as int] == c,
    decreases text.len(),
{
    if text.len() > 0 && text[0] != c {
        let rest = text.skip(1);
        lemma_find_first(rest, c);
        assert forall|j: int| 0 <= j < find(text, c) implies text[j] != c by {
            if j > 0 {
                assert(rest[j - 1] == text[j]);
            }
        }
    }
}

/// Steps over one segment of `text`, from `start` to where the segment
/// ends at `end`.
proof fn lemma_split_step(text: Seq<char>, start: int, end: int)
    requires
        0 <= start <= end <= text.len(),
        end == start + find(text.skip(start), '&'),
    ensures
        end < text.len() ==> split_pairs(text.skip(start)) == seq![
            split_pair(text.subrange(start, end)),
        ] + split_pairs(text.skip(end + 1)),
        end == text.len() ==> split_pairs(text.skip(start)) == seq![
            split_pair(text.subrange(start, end)),
        ],
{
    let rest = text.skip(start);
    assert(rest.take(end - start) =~= text.subrange(start, end));
    if end < text.len() {
        assert(rest.skip(end - start + 1) =~= text.skip(end + 1));
    } else {
        assert(rest =~= text.subrange(start, end));
    }
}

/// A marker in front of a query string changes nothing: the pairs are the
/// same, and so are both mappings made of them.
pub proof fn lemma_leading_marker(marker: char, query: Seq<char>)
    requires
        markers().contains(marker),
    ensures
        query_pairs(seq![marker] + query) == query_pairs(query),
        to_map(query_pairs(seq![marker] + query)) == to_map(query_pairs(query)),
        gather(query_pairs(seq![marker] + query)) == gather(query_pairs(query)),
{
    let front = seq![marker];
    lemma_strip_concat(front, query, markers());
    assert(strip(front, markers()) =~= Seq::<char>::empty()) by {
        reveal_with_fuel(Seq::filter, 2);
        assert(front.drop_last() =~= Seq::<char>::empty());
    }
    assert(Seq::<char>::empty() + strip(query, markers()) =~= strip(query, markers()));
}

/// The multi-valued mapping has the keys of the pairs, and for each key
/// the values that the pairs give it, in their order.
pub proof fn lemma_gather_values(pairs: Seq<(Seq<char>, Seq<char>)>, key: Seq<char>)
    ensures
        gather(pairs).contains_key(key) <==> has_key(pairs, key),
        values_for(gather(pairs), key) == values_of(pairs, key),
        has_key(pairs, key) ==> values_of(pairs, key).len() > 0,
    decreases pairs.len(),
{
    reveal(Seq::filter);
    if pairs.len() == 0 {
        assert(values_of(pairs, key) =~= Seq::<Seq<char>>::empty());
    } else {
        let front = pairs.drop_last();
        let last = pairs.last();
        lemma_gather_values(front, key);
        if has_key(front, key) {
            let i = choose|i: int| 0 <= i < front.len() && front[i].0 == key;
            assert(pairs[i].0 == key);
        }
        if last.0 == key {
            assert(pairs[pairs.len() - 1].0 == key);
            assert(values_of(pairs, key) =~= values_of(front, key).push(last.1));
        } else {
            if has_key(pairs, key) {
                let i = choose|i: int| 0 <= i < pairs.len() && pairs[i].0 == key;
                assert(front[i].0 == key);
            }
            assert(values_of(pairs, key) =~= values_of(front, key));
        }
    }
}

/// The single-valued mapping has the same keys as the multi-valued one,
/// and for each key the last of its values.
pub proof fn lemma_single_is_last(pairs: Seq<(Seq<char>, Seq<char>)>, key: Seq<char>)
    ensures
        to_map(pairs).contains_key(key) <==> gather(pairs).contains_key(key),
        gather(pairs).contains_key(key) ==> gather(pairs)[key].len() > 0 && to_map(pairs)[key]
            == gather(pairs)[key].last(),
    decreases pairs.len(),
{
    if pairs.len() > 0 {
        lemma_single_is_last(pairs.drop_last(), key);
    }
}

/// Every pair stands in the written query string as `key=value`.
pub proof fn lemma_join_holds_pair(pairs: Seq<(Seq<char>, Seq<char>)>, i: int)
    requires
        0 <= i < pairs.len(),
    ensures
        exists|at: int|
            0 <= at && at + pair_text(pairs[i]).len() <= join_pairs(pairs).len()
                && #[trigger] join_pairs(pairs).subrange(at, at + pair_text(pairs[i]).len())
                == pair_text(pairs[i]),
    decreases pairs.len(),
{
    let whole = join_pairs(pairs);
    let text = pair_text(pairs[i]);
    if pairs.len() == 1 {
        assert(whole.subrange(0, 0 + text.len() as int) =~= text);
    } else if i == pairs.len() - 1 {
        let at = whole.len() - text.len();
        assert(whole.subrange(at, at + text.len()) =~= text);
    } else {
        let front = join_pairs(pairs.drop_last());
        lemma_join_holds_pair(pairs.drop_last(), i);
        let at = choose|at: int|
            0 <= at && at + text.len() <= front.len() && #[trigger] front.subrange(
                at,
                at + text.len(),
            ) == text;
        assert(whole.subrange(at, at + text.len()) =~= front.subrange(at, at + text.len()));
    }
}

/// A text none of whose characters is a marker holds no marker.
pub proof fn lemma_unmarked(text: Seq<char>)
    requires
        forall|i: int| 0 <= i < text.len() ==> !markers().contains(text[i]),
    ensures
        unmarked(text),
{
    reveal(unmarked);
    lemma_strip_nothing(text, markers());
}

/// Two texts without markers, one after the other, hold no marker.
proof fn lemma_unmarked_concat(a: Seq<char>, b: Seq<char>)
    requires
        unmarked(a),
        unmarked(b),
    ensures
        unmarked(a + b),
{
    reveal(unmarked);
    lemma_strip_concat(a, b, markers());
}

/// A plain pair, written, holds no marker.
proof fn lemma_plain_unmarked(pair: (Seq<char>, Seq<char>))
    requires
        plain_pair(pair),
    ensures
        unmarked(pair_text(pair)),
{
    lemma_unmarked(seq!['=']);
    lemma_unmarked_concat(pair.0, seq!['=']);
    lemma_unmarked_concat(pair.0 + seq!['='], pair.1);
}

/// Plain pairs, written one after the other, hold no marker.
proof fn lemma_join_has_no_marker(pairs: Seq<(Seq<char>, Seq<char>)>)
    requires
        forall|i: int| 0 <= i < pairs.len() ==> plain_pair(#[trigger] pairs[i]),
    ensures
        unmarked(join_pairs(pairs)),
    decreases pairs.len(),
{
    if pairs.len() == 0 {
        lemma_unmarked(join_pairs(pairs));
    } else if pairs.len() == 1 {
        lemma_plain_unmarked(pairs[0]);
    } else {
        let rest = pairs.drop_last();
        let front = join_pairs(rest);
        let last = pair_text(pairs.last());
        assert forall|i: int| 0 <= i < rest.len() implies plain_pair(#[trigger] rest[i]) by {
            assert(rest[i] == pairs[i]);
        }
        lemma_join_has_no_marker(rest);
        lemma_plain_unmarked(pairs.last());
        lemma_unmarked(seq!['&']);
        lemma_unmarked_concat(front, seq!['&']);
        lemma_unmarked_concat(front + seq!['&'], last);
    }
}

/// A `&` between two texts keeps their pairs apart.
pub proof fn lemma_split_joined(a: Seq<char>, b: Seq<char>)
    ensures
        split_pairs(a + seq!['&'] + b) == split_pairs(a) + split_pairs(b),
    decreases a.len(),
{
    let whole = a + seq!['&'] + b;
    let at = find(a, '&') as int;
    lemma_find_first(a, '&');
    lemma_find(whole, '&', at);
    if at < a.len() {
        lemma_split_joined(a.skip(at + 1), b);
        assert(whole.take(at) =~= a.take(at));
        assert(whole.skip(at + 1) =~= a.skip(at + 1) + seq!['&'] + b);
        assert(seq![split_pair(a.take(at))] + (split_pairs(a.skip(at + 1)) + split_pairs(b))
            =~= (seq![split_pair(a.take(at))] + split_pairs(a.skip(at + 1))) + split_pairs(b));
    } else {
        assert(whole.take(at) =~= a);
        assert(whole.skip(at + 1) =~= b);
    }
}

/// A plain pair, written, reads back as itself.
pub proof fn lemma_split_plain(pair: (Seq<char>, Seq<char>))
    requires
        plain_pair(pair),
    ensures
        split_pairs(pair_text(pair)) == seq![pair],
{
    let (key, value) = pair;
    let text = pair_text(pair);
    let n = key.len() as int;
    assert forall|j: int| 0 <= j < text.len() implies text[j] != '&' by {
        if j < n {
            assert(key[j] == text[j]);
        } else if j > n {
            assert(value[j - n - 1] == text[j]);
        }
    }
    assert forall|j: int| 0 <= j < n implies text[j] != '=' by {
        assert(key[j] == text[j]);
    }
    lemma_find(text, '&', text.len() as int);
    lemma_find(text, '=', n);
    assert(text.take(n) =~= key);
    assert(text.skip(n + 1) =~= value);
}

/// Plain pairs, written one after the other with `&` between them, split
/// into themselves.
proof fn lemma_split_join(pairs: Seq<(Seq<char>, Seq<char>)>)
    requires
        pairs.len() > 0,
        forall|i: int| 0 <= i < pairs.len() ==> plain_pair(#[trigger] pairs[i]),
    ensures
        split_pairs(join_pairs(pairs)) == pairs,
    decreases pairs.len(),
{
    if pairs.len() == 1 {
        lemma_split_plain(pairs[0]);
        assert(seq![pairs[0]] =~= pairs);
    } else {
        let front = pairs.drop_last();
        assert forall|i: int| 0 <= i < front.len() implies plain_pair(#[trigger] front[i]) by {
            assert(front[i] == pairs[i]);
        }
        lemma_split_join(front);
        lemma_split_joined(join_pairs(front), pair_text(pairs.last()));
        lemma_split_plain(pairs.last());
        assert(front + seq![pairs.last()] =~= pairs);
    }
}

/// What `stringify` writes, `parse_single` and `parse` read back: a
/// non-empty list of plain pairs, written as a query string, has exactly
/// those pairs.
pub proof fn lemma_parse_join(pairs: Seq<(Seq<char>, Seq<char>)>)
    requires
        pairs.len() > 0,
        forall|i: int| 0 <= i < pairs.len() ==> plain_pair(#[trigger] pairs[i]),
    ensures
        query_pairs(join_pairs(pairs)) == pairs,
{
    reveal(unmarked);
    lemma_join_has_no_marker(pairs);
    lemma_split_join(pairs);
}

} // verus!
