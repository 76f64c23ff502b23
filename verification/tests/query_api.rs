//! Lookup, filtered lookup and counting, plus the allow-list helpers and
//! the arena primitive.
use kvargs::store::KVargs;
use kvargs::{
    bump_insert, rte_kvargs_count, rte_kvargs_get, rte_kvargs_get_with_value, rte_kvargs_parse,
    Base,
};

fn store(input: &[u8]) -> KVargs {
    rte_kvargs_parse(input, None).unwrap()
}

#[test]
fn get_returns_the_first_matching_value() {
    let s = store(b"a=1,b=2,a=3");
    assert_eq!(rte_kvargs_get(Some(&s), b"a"), Some(&b"1"[..]));
    assert_eq!(rte_kvargs_get(Some(&s), b"b"), Some(&b"2"[..]));
}

#[test]
fn get_misses_absent_keys() {
    let s = store(b"a=1");
    assert_eq!(rte_kvargs_get(Some(&s), b"c"), None);
    assert_eq!(rte_kvargs_get(None, b"a"), None);
}

#[test]
fn get_stops_at_the_first_match_even_without_a_value() {
    let s = store(b"a,a=1");
    assert_eq!(rte_kvargs_get(Some(&s), b"a"), None);
}

#[test]
fn get_with_value_applies_both_filters() {
    let s = store(b"a=1,b=2,a=3");
    assert_eq!(
        rte_kvargs_get_with_value(Some(&s), Some(b"a"), Some(b"3")),
        Some(&b"3"[..])
    );
    assert_eq!(
        rte_kvargs_get_with_value(Some(&s), Some(b"a"), None),
        Some(&b"1"[..])
    );
    assert_eq!(
        rte_kvargs_get_with_value(Some(&s), None, Some(b"2")),
        Some(&b"2"[..])
    );
    assert_eq!(rte_kvargs_get_with_value(Some(&s), Some(b"a"), Some(b"2")), None);
    assert_eq!(rte_kvargs_get_with_value(None, None, None), None);
}

#[test]
fn get_with_value_skips_entries_without_a_value() {
    let s = store(b"a,b=2");
    assert_eq!(rte_kvargs_get_with_value(Some(&s), None, None), Some(&b"2"[..]));
    let only_keys = store(b"a,b");
    assert_eq!(rte_kvargs_get_with_value(Some(&only_keys), None, None), None);
    assert_eq!(rte_kvargs_get_with_value(Some(&only_keys), Some(b"a"), None), None);
}

#[test]
fn count_without_a_filter_counts_every_item() {
    let s = store(b"a,b=2,a");
    assert_eq!(rte_kvargs_count(Some(&s), None), 3);
    let empty = store(b"");
    assert_eq!(rte_kvargs_count(Some(&empty), None), 0);
}

#[test]
fn count_with_a_filter_counts_matching_keys() {
    let s = store(b"a,b=2,a");
    assert_eq!(rte_kvargs_count(Some(&s), Some(b"a")), 2);
    assert_eq!(rte_kvargs_count(Some(&s), Some(b"b")), 1);
    assert_eq!(rte_kvargs_count(Some(&s), Some(b"c")), 0);
    assert_eq!(rte_kvargs_count(None, None), 0);
}

#[test]
fn round_trip_reproduces_an_equal_store() {
    let input = b"a=1,b,c=23";
    let s = store(input);
    let mut rejoined: Vec<u8> = Vec::new();
    for i in 0..s.len() {
        if i > 0 {
            rejoined.push(b',');
        }
        rejoined.extend_from_slice(s.key_at(i));
        if let Some(v) = s.value_at(i) {
            rejoined.push(b'=');
            rejoined.extend_from_slice(v);
        }
    }
    assert_eq!(rejoined, input.to_vec());
    let again = store(&rejoined);
    assert_eq!(again.len(), s.len());
    for i in 0..s.len() {
        assert_eq!(again.key_at(i), s.key_at(i));
        assert_eq!(again.value_at(i), s.value_at(i));
    }
}

#[test]
fn base_iterates_keys_in_order() {
    let mut base = Base::new();
    base.push(b"one".to_vec());
    base.push(b"two".to_vec());
    assert!(base.contains(b"one"));
    assert!(!base.contains(b"three"));
    let mut it = base.into_iter();
    assert_eq!(it.next(), Some(b"one".to_vec()));
    assert_eq!(it.next(), Some(b"two".to_vec()));
    assert_eq!(it.next(), None);
    assert_eq!(it.next(), None);
}

#[test]
fn bump_insert_appends_a_nul_terminated_copy() {
    let mut buf: Vec<u8> = vec![7];
    let off = bump_insert(&mut buf, b"xabc", 1, 4);
    assert_eq!(off, 1);
    assert_eq!(buf, vec![7, b'a', b'b', b'c', 0]);
    let off = bump_insert(&mut buf, b"", 0, 0);
    assert_eq!(off, 5);
    assert_eq!(buf, vec![7, b'a', b'b', b'c', 0, 0]);
}
