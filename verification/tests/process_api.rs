//! Handler-based processing: strict and permissive walks, early abort, and
//! key filtering.
use kvargs::process::Tally;
use kvargs::{rte_kvargs_parse, rte_kvargs_process, rte_kvargs_process_opt, ArgHandler, KVargs};

/// Records every association it is handed; aborts on a designated key.
struct Recorder {
    seen: Vec<(Vec<u8>, Option<Vec<u8>>)>,
    abort_on: Option<Vec<u8>>,
}

impl Recorder {
    fn new() -> Recorder {
        Recorder { seen: Vec::new(), abort_on: None }
    }
}

impl ArgHandler for Recorder {
    fn handle(&mut self, key: &[u8], value: Option<&[u8]>) -> i32 {
        if self.abort_on.as_deref() == Some(key) {
            return -1;
        }
        self.seen.push((key.to_vec(), value.map(|v| v.to_vec())));
        0
    }
}

fn store(input: &[u8]) -> KVargs {
    rte_kvargs_parse(input, None).unwrap()
}

fn pair(k: &[u8], v: Option<&[u8]>) -> (Vec<u8>, Option<Vec<u8>>) {
    (k.to_vec(), v.map(|v| v.to_vec()))
}

#[test]
fn strict_process_aborts_on_an_only_key_entry() {
    let s = store(b"a=1,b");
    let mut h = Recorder::new();
    assert_eq!(rte_kvargs_process(Some(&s), None, &mut h), -1);
}

#[test]
fn permissive_process_visits_every_entry() {
    let s = store(b"a=1,b");
    let mut h = Recorder::new();
    assert_eq!(rte_kvargs_process_opt(Some(&s), None, &mut h), 0);
    assert_eq!(h.seen, vec![pair(b"a", Some(b"1")), pair(b"b", None)]);
}

#[test]
fn strict_process_succeeds_when_every_match_has_a_value() {
    let s = store(b"a=1,b=2");
    let mut h = Recorder::new();
    assert_eq!(rte_kvargs_process(Some(&s), None, &mut h), 0);
    assert_eq!(h.seen, vec![pair(b"a", Some(b"1")), pair(b"b", Some(b"2"))]);
}

#[test]
fn a_negative_handler_status_aborts_the_walk() {
    let s = store(b"a=1,stop=2,c=3");
    let mut h = Recorder::new();
    h.abort_on = Some(b"stop".to_vec());
    assert_eq!(rte_kvargs_process(Some(&s), None, &mut h), -1);
    assert_eq!(h.seen, vec![pair(b"a", Some(b"1"))]);
}

#[test]
fn a_key_filter_selects_the_entries_to_process() {
    let s = store(b"a=1,b=2,a=3,b");
    let mut h = Recorder::new();
    assert_eq!(rte_kvargs_process(Some(&s), Some(b"a"), &mut h), 0);
    assert_eq!(h.seen, vec![pair(b"a", Some(b"1")), pair(b"a", Some(b"3"))]);
    let mut h = Recorder::new();
    assert_eq!(rte_kvargs_process_opt(Some(&s), Some(b"b"), &mut h), 0);
    assert_eq!(h.seen, vec![pair(b"b", Some(b"2")), pair(b"b", None)]);
}

#[test]
fn a_missing_store_fails_without_consulting_the_handler() {
    let mut h = Recorder::new();
    assert_eq!(rte_kvargs_process(None, None, &mut h), -1);
    assert_eq!(rte_kvargs_process_opt(None, None, &mut h), -1);
    assert!(h.seen.is_empty());
}

#[test]
fn zero_matches_is_a_success() {
    let s = store(b"a=1");
    let mut h = Recorder::new();
    assert_eq!(rte_kvargs_process(Some(&s), Some(b"missing"), &mut h), 0);
    assert_eq!(rte_kvargs_process_opt(Some(&s), Some(b"missing"), &mut h), 0);
    assert!(h.seen.is_empty());
}

#[test]
fn a_tally_counts_the_matching_entries() {
    let s = store(b"a=1,b,a=2");
    let mut t = Tally::new();
    assert_eq!(rte_kvargs_process_opt(Some(&s), None, &mut t), 0);
    assert_eq!(t.count, 3);
    let mut t = Tally::new();
    assert_eq!(rte_kvargs_process_opt(Some(&s), Some(b"a"), &mut t), 0);
    assert_eq!(t.count, 2);
}
