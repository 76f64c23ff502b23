//! Parsing scenarios: grammar acceptance, rejection, capacity and
//! allow-list behaviour.
use kvargs::grammar::{for_each, kv};
use kvargs::store::KVargs;
use kvargs::{rte_kvargs_free, rte_kvargs_parse, rte_kvargs_parse_delim, try_parse, Base, ParseError};

/// Collects the entries of a store as owned byte strings.
fn entries(store: &KVargs) -> Vec<(Vec<u8>, Option<Vec<u8>>)> {
    let mut out = Vec::new();
    for i in 0..store.len() {
        out.push((
            store.key_at(i).to_vec(),
            store.value_at(i).map(|v| v.to_vec()),
        ));
    }
    out
}

/// Parses and hands back the entries, or `None` on a failed parse.
fn parse(input: &[u8], keys: Option<&[&[u8]]>) -> Option<Vec<(Vec<u8>, Option<Vec<u8>>)>> {
    let base = keys.map(|keys| {
        let mut base = Base::new();
        for k in keys {
            base.push(k.to_vec());
        }
        base
    });
    let store = rte_kvargs_parse(input, base.as_ref())?;
    let out = entries(&store);
    rte_kvargs_free(Some(store));
    Some(out)
}

fn pair(k: &[u8], v: Option<&[u8]>) -> (Vec<u8>, Option<Vec<u8>>) {
    (k.to_vec(), v.map(|v| v.to_vec()))
}

#[test]
fn test() {
    let store = KVargs::new(b"hello=world,goodbye").unwrap();
    assert_eq!(
        entries(&store),
        vec![pair(b"hello", Some(b"world")), pair(b"goodbye", None)]
    );
}

#[test]
fn empty_input_parses_to_zero_entries() {
    assert_eq!(parse(b"", None), Some(vec![]));
    assert_eq!(parse(b"", Some(&[b"hello"])), Some(vec![]));
}

#[test]
fn simple_only_key() {
    assert_eq!(parse(b"simple", None), Some(vec![pair(b"simple", None)]));
}

#[test]
fn key_equals_value() {
    assert_eq!(
        parse(b"key=value", None),
        Some(vec![pair(b"key", Some(b"value"))])
    );
}

#[test]
fn order_is_preserved() {
    assert_eq!(
        parse(b"key=value,simple", None),
        Some(vec![pair(b"key", Some(b"value")), pair(b"simple", None)])
    );
    assert_eq!(
        parse(b"simple,key=value", None),
        Some(vec![pair(b"simple", None), pair(b"key", Some(b"value"))])
    );
}

#[test]
fn repeated_keys_keep_every_entry() {
    assert_eq!(
        parse(b"simple,simple", None),
        Some(vec![pair(b"simple", None), pair(b"simple", None)])
    );
    assert_eq!(
        parse(b"key=value1,key=value2", None),
        Some(vec![
            pair(b"key", Some(b"value1")),
            pair(b"key", Some(b"value2"))
        ])
    );
    assert_eq!(
        parse(b"key=value1,simple,key=value2", None),
        Some(vec![
            pair(b"key", Some(b"value1")),
            pair(b"simple", None),
            pair(b"key", Some(b"value2"))
        ])
    );
    assert_eq!(
        parse(b"simple,key=value,simple", None),
        Some(vec![
            pair(b"simple", None),
            pair(b"key", Some(b"value")),
            pair(b"simple", None)
        ])
    );
}

#[test]
fn brackets_are_kept_literally() {
    assert_eq!(
        parse(b"hello=[world]", None),
        Some(vec![pair(b"hello", Some(b"[world]"))])
    );
}

#[test]
fn an_empty_bracket_list_is_a_value() {
    assert_eq!(parse(b"k=[]", None), Some(vec![pair(b"k", Some(b"[]"))]));
    assert_eq!(
        parse(b"k=[]x[],m", None),
        Some(vec![pair(b"k", Some(b"[]x[]")), pair(b"m", None)])
    );
}

#[test]
fn bracket_value_then_only_key() {
    assert_eq!(
        parse(b"hello=[world],hello", None),
        Some(vec![pair(b"hello", Some(b"[world]")), pair(b"hello", None)])
    );
}

#[test]
fn bracket_list_hides_commas() {
    assert_eq!(
        parse(b"hello=[a,b],x=1", None),
        Some(vec![pair(b"hello", Some(b"[a,b]")), pair(b"x", Some(b"1"))])
    );
}

#[test]
fn value_concatenates_bare_runs_and_bracket_lists() {
    assert_eq!(
        parse(b"k=ab[cd]ef", None),
        Some(vec![pair(b"k", Some(b"ab[cd]ef"))])
    );
}

#[test]
fn explicitly_empty_value_is_kept() {
    assert_eq!(parse(b"k=", None), Some(vec![pair(b"k", Some(b""))]));
}

#[test]
fn equals_sign_may_appear_inside_a_value() {
    assert_eq!(parse(b"a==b", None), Some(vec![pair(b"a", Some(b"=b"))]));
}

#[test]
fn malformed_inputs_fail_as_a_whole() {
    assert_eq!(parse(b",a", None), None);
    assert_eq!(parse(b"a,", None), None);
    assert_eq!(parse(b"=v", None), None);
    assert_eq!(parse(b"=", None), None);
    assert_eq!(parse(b"k=[ab", None), None);
    assert_eq!(parse(b"k=[a]b,", None), None);
}

#[test]
fn capacity_limit_is_thirty_two() {
    let thirty_two = vec![&b"k"[..]; 32].join(&b","[..]);
    let thirty_three = vec![&b"k"[..]; 33].join(&b","[..]);
    assert_eq!(parse(&thirty_two, None).map(|e| e.len()), Some(32));
    assert_eq!(parse(&thirty_three, None), None);
}

#[test]
fn allow_list_rejects_unknown_keys() {
    assert_eq!(parse(b"allowed,notallowed", Some(&[b"allowed"])), None);
}

#[test]
fn allow_list_accepts_known_keys() {
    assert_eq!(
        parse(b"hello,world", Some(&[b"hello", b"world"])),
        Some(vec![pair(b"hello", None), pair(b"world", None)])
    );
    assert_eq!(parse(b"hello", Some(&[b"hello"])), Some(vec![pair(b"hello", None)]));
    assert_eq!(
        parse(b"hello=world", Some(&[b"hello"])),
        Some(vec![pair(b"hello", Some(b"world"))])
    );
}

#[test]
fn parse_delim_stops_at_a_terminator() {
    let store = rte_kvargs_parse_delim(b"a=1;rest=&", None, Some(b";&")).unwrap();
    assert_eq!(entries(&store), vec![pair(b"a", Some(b"1"))]);
}

#[test]
fn parse_delim_without_terminators_matches_parse() {
    let store = rte_kvargs_parse_delim(b"a=1,b", None, None).unwrap();
    assert_eq!(entries(&store), vec![pair(b"a", Some(b"1")), pair(b"b", None)]);
    let store = rte_kvargs_parse_delim(b"a=1,b", None, Some(b";")).unwrap();
    assert_eq!(entries(&store), vec![pair(b"a", Some(b"1")), pair(b"b", None)]);
}

#[test]
fn parse_delim_with_leading_terminator_yields_empty_store() {
    let store = rte_kvargs_parse_delim(b";a=1", None, Some(b";")).unwrap();
    assert_eq!(store.len(), 0);
}

#[test]
fn free_accepts_a_missing_store() {
    rte_kvargs_free(None);
}

#[test]
fn tokenizer_reports_spans() {
    let input = b"ab=cd,e";
    let t = kv(input, 0).unwrap();
    assert_eq!((t.key_lo, t.key_hi), (0, 2));
    assert_eq!(t.val, Some((3, 5)));
    assert_eq!(t.end, 5);
    let t = kv(input, 6).unwrap();
    assert_eq!((t.key_lo, t.key_hi), (6, 7));
    assert_eq!(t.val, None);
    assert_eq!(t.end, 7);
    assert!(kv(input, 2).is_none());
}

#[test]
fn tokenizer_walks_the_whole_input() {
    let toks = for_each(b"ab=cd,e").unwrap();
    assert_eq!(toks.len(), 2);
    assert!(for_each(b"a,").is_none());
    assert!(for_each(b"").is_none());
}

#[test]
fn try_parse_reports_the_kind_of_failure() {
    assert!(try_parse(b"a=1,b", None).is_ok());
    assert_eq!(try_parse(b",a", None).unwrap_err(), ParseError::Grammar);
    assert_eq!(try_parse(b"k=[ab", None).unwrap_err(), ParseError::Grammar);
    let thirty_three = vec![&b"k"[..]; 33].join(&b","[..]);
    assert_eq!(
        try_parse(&thirty_three, None).unwrap_err(),
        ParseError::CapacityExceeded
    );
    let mut base = Base::new();
    base.push(b"allowed".to_vec());
    assert_eq!(
        try_parse(b"allowed,notallowed", Some(&base)).unwrap_err(),
        ParseError::AllowlistViolation
    );
}
