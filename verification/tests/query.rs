use querystring::helper::remove_char;
use querystring::params::{MultiParams, Params};
use querystring::query::{self, parse, parse_single};

#[test]
fn test_parse() {
    let query = "foo=bar&baz=qux";
    let result = parse(query);

    let result1 = result.get("foo").unwrap();
    let result2 = result.get("baz").unwrap();

    assert_eq!(result1[0], "bar");
    assert_eq!(result2[0], "qux");
}

#[test]
fn test_parse_multiple_value() {
    let query = "foo=bar&foo=qux";
    let result = parse(query);

    let result1 = result.get("foo").unwrap();

    assert_eq!(result1.len(), 2);
    assert_eq!(result1[0], "bar");
    assert_eq!(result1[1], "qux");
}

#[test]
fn test_parse_with_leading_character() {
    let query = "?foo=bar&baz=qux";
    let result = parse(query);

    let result1 = result.get("foo").unwrap();
    let result2 = result.get("baz").unwrap();

    assert_eq!(result1[0], "bar");
    assert_eq!(result2[0], "qux");
}

#[test]
fn test_stringify() {
    let mut params = Params::new();
    params.insert("foo".to_string(), "bar".to_string());
    params.insert("baz".to_string(), "qux".to_string());
    let result = query::stringify(&params);
    assert!(result.contains("foo=bar"));
    assert!(result.contains("baz=qux"));
}

fn multi_entries(params: &MultiParams) -> Vec<(String, Vec<String>)> {
    let mut out = Vec::new();
    let mut i = 0;
    while let Some((key, values)) = params.entry(i) {
        out.push((key.clone(), values.clone()));
        i += 1;
    }
    assert_eq!(i, params.len());
    out
}

fn single_entries(params: &Params) -> Vec<(String, String)> {
    let mut out = Vec::new();
    let mut i = 0;
    while let Some((key, value)) = params.entry(i) {
        out.push((key.clone(), value.clone()));
        i += 1;
    }
    assert_eq!(i, params.len());
    out
}

fn owned(pairs: &[(&str, &str)]) -> Vec<(String, String)> {
    pairs.iter().map(|(k, v)| (k.to_string(), v.to_string())).collect()
}

fn owned_multi(pairs: &[(&str, &[&str])]) -> Vec<(String, Vec<String>)> {
    pairs
        .iter()
        .map(|(k, vs)| (k.to_string(), vs.iter().map(|v| v.to_string()).collect()))
        .collect()
}

#[test]
fn strip_removes_every_occurrence() {
    assert_eq!(remove_char("?a#b!c?", "?#!"), "abc");
    assert_eq!(remove_char("hello world", "lo"), "he wrd");
    assert_eq!(remove_char("a?b", "?"), "ab");
}

#[test]
fn strip_of_empty_text_or_empty_set() {
    assert_eq!(remove_char("", "?#!"), "");
    assert_eq!(remove_char("a?b", ""), "a?b");
    assert_eq!(remove_char("???", "?"), "");
}

#[test]
fn strip_keeps_order_and_other_characters() {
    assert_eq!(remove_char("x\u{e9}y\u{1f600}z", "\u{e9}z"), "xy\u{1f600}");
    assert_eq!(remove_char("abcabc", "b"), "acac");
}

#[test]
fn strip_twice_is_strip_once() {
    for text in ["?a#b!c?", "", "plain", "!!##??", "a?b#c!d"] {
        let once = remove_char(text, "?#!");
        assert_eq!(remove_char(&once, "?#!"), once);
    }
}

#[test]
fn parse_multi_keeps_values_in_order() {
    let result = parse("foo=bar&foo=qux");
    assert_eq!(multi_entries(&result), owned_multi(&[("foo", &["bar", "qux"])]));
    assert_eq!(result.len(), 1);
}

#[test]
fn parse_multi_keeps_keys_in_order_of_first_occurrence() {
    let result = parse("b=1&a=2&b=3&c=4&a=5");
    assert_eq!(
        multi_entries(&result),
        owned_multi(&[("b", &["1", "3"]), ("a", &["2", "5"]), ("c", &["4"])])
    );
}

#[test]
fn parse_single_reads_pairs() {
    let result = parse_single("foo=bar&baz=qux");
    assert_eq!(result.get("foo").unwrap(), "bar");
    assert_eq!(result.get("baz").unwrap(), "qux");
    assert_eq!(result.len(), 2);
    assert!(result.get("bar").is_none());
}

#[test]
fn parse_single_last_value_wins() {
    let result = parse_single("foo=bar&x=y&foo=qux");
    assert_eq!(single_entries(&result), owned(&[("foo", "qux"), ("x", "y")]));
}

#[test]
fn parse_single_ignores_a_leading_question_mark() {
    for query in ["foo=bar&baz=qux", "", "a", "a=b=c&&d", "k=v&k=w"] {
        let marked = format!("?{}", query);
        assert_eq!(
            single_entries(&parse_single(query)),
            single_entries(&parse_single(&marked))
        );
        assert_eq!(multi_entries(&parse(query)), multi_entries(&parse(&marked)));
    }
}

#[test]
fn parse_single_has_the_last_value_that_parse_has() {
    for query in ["a=1&b=2&a=3", "k", "x=&x=y&&=z&x", "?#!"] {
        let single = parse_single(query);
        let multi = parse(query);
        assert_eq!(single.len(), multi.len());
        for (key, values) in multi_entries(&multi) {
            assert_eq!(single.get(&key), values.last());
        }
    }
}

#[test]
fn parse_drops_markers_wherever_they_stand() {
    let result = parse_single("#!fo?o=b#ar&ba!z=qux?");
    assert_eq!(single_entries(&result), owned(&[("foo", "bar"), ("baz", "qux")]));
}

#[test]
fn parse_splits_at_the_first_equals_sign_only() {
    let result = parse_single("a=b=c&d==e&=f");
    assert_eq!(
        single_entries(&result),
        owned(&[("a", "b=c"), ("d", "=e"), ("", "f")])
    );
}

#[test]
fn parse_without_equals_sign_gives_the_empty_value() {
    let result = parse("flag&other=");
    assert_eq!(
        multi_entries(&result),
        owned_multi(&[("flag", &[""]), ("other", &[""])])
    );
}

#[test]
fn parse_counts_empty_segments() {
    assert_eq!(multi_entries(&parse("")), owned_multi(&[("", &[""])]));
    assert_eq!(multi_entries(&parse("?")), owned_multi(&[("", &[""])]));
    assert_eq!(
        multi_entries(&parse("a=1&&b=2&")),
        owned_multi(&[("a", &["1"]), ("", &["", ""]), ("b", &["2"])])
    );
    assert_eq!(multi_entries(&parse("&")), owned_multi(&[("", &["", ""])]));
    assert_eq!(single_entries(&parse_single("&&")), owned(&[("", "")]));
}

#[test]
fn parse_does_not_percent_decode() {
    let result = parse_single("a%20b=c%3Dd&e+f=%zz");
    assert_eq!(
        single_entries(&result),
        owned(&[("a%20b", "c%3Dd"), ("e+f", "%zz")])
    );
}

#[test]
fn parse_takes_text_that_is_not_ascii() {
    let result = parse("cl\u{e9}=val\u{1f600}&\u{4e2d}=\u{6587}");
    assert_eq!(result.get("cl\u{e9}").unwrap()[0], "val\u{1f600}");
    assert_eq!(result.get("\u{4e2d}").unwrap()[0], "\u{6587}");
    assert!(result.get("cl").is_none());
}

#[test]
fn stringify_writes_pairs_in_insertion_order() {
    let mut params = Params::new();
    params.insert("foo".to_string(), "bar".to_string());
    params.insert("baz".to_string(), "qux".to_string());
    assert_eq!(query::stringify(&params), "foo=bar&baz=qux");
}

#[test]
fn stringify_of_the_empty_mapping_is_empty() {
    assert_eq!(query::stringify(&Params::new()), "");
}

#[test]
fn stringify_of_one_pair_has_no_separator() {
    let mut params = Params::new();
    params.insert("k".to_string(), "v".to_string());
    assert_eq!(query::stringify(&params), "k=v");
}

#[test]
fn stringify_does_not_percent_encode() {
    let mut params = Params::new();
    params.insert("a b".to_string(), "c&d=e".to_string());
    params.insert("".to_string(), "".to_string());
    assert_eq!(query::stringify(&params), "a b=c&d=e&=");
}

#[test]
fn stringify_writes_a_replaced_key_once() {
    let mut params = Params::new();
    params.insert("a".to_string(), "1".to_string());
    params.insert("b".to_string(), "2".to_string());
    params.insert("a".to_string(), "3".to_string());
    assert_eq!(query::stringify(&params), "a=3&b=2");
    assert_eq!(params.len(), 2);
}

#[test]
fn parse_single_reads_back_what_stringify_wrote() {
    let mut params = Params::new();
    params.insert("name".to_string(), "value".to_string());
    params.insert("eq".to_string(), "a=b".to_string());
    params.insert("empty".to_string(), "".to_string());
    let back = parse_single(&query::stringify(&params));
    assert_eq!(single_entries(&back), single_entries(&params));
}

#[test]
fn params_get_and_insert() {
    let mut params = Params::new();
    assert_eq!(params.len(), 0);
    assert!(params.get("a").is_none());
    assert!(params.entry(0).is_none());
    params.insert("a".to_string(), "1".to_string());
    assert_eq!(params.get("a").unwrap(), "1");
    assert!(params.get("A").is_none());
    assert!(params.get("").is_none());
    params.insert("a".to_string(), "2".to_string());
    assert_eq!(params.get("a").unwrap(), "2");
    assert_eq!(params.len(), 1);
    let (key, value) = params.entry(0).unwrap();
    assert_eq!((key.as_str(), value.as_str()), ("a", "2"));
    assert!(params.entry(1).is_none());
}

#[test]
fn multi_params_get_and_append() {
    let mut params = MultiParams::new();
    assert_eq!(params.len(), 0);
    assert!(params.get("a").is_none());
    params.append("a".to_string(), "1".to_string());
    params.append("b".to_string(), "2".to_string());
    params.append("a".to_string(), "3".to_string());
    assert_eq!(params.get("a").unwrap(), &vec!["1".to_string(), "3".to_string()]);
    assert_eq!(params.get("b").unwrap(), &vec!["2".to_string()]);
    assert!(params.get("ab").is_none());
    assert_eq!(params.len(), 2);
    let (key, values) = params.entry(1).unwrap();
    assert_eq!(key, "b");
    assert_eq!(values.len(), 1);
    assert!(params.entry(2).is_none());
}
