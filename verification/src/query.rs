//! Point lookup, filtered lookup, and counting over a store.
//!
//! All scans walk the associations in their original left-to-right input
//! order; the first match wins.
use vstd::prelude::*;

use crate::grammar::SpecPair;
use crate::store::{slice_eq, KVargs};

verus! {

/// The bytes an optional byte-string argument denotes.
pub open spec fn spec_opt_bytes(v: Option<&[u8]>) -> Option<Seq<u8>> {
    match v {
        Some(bytes) => Some(bytes@),
        None => None,
    }
}

/// Whether a key passes an optional key filter.  No filter matches every
/// key.
pub open spec fn matches_filter(key: Seq<u8>, filter: Option<Seq<u8>>) -> bool {
    match filter {
        Some(f) => key == f,
        None => true,
    }
}

/// The value of the first association whose key equals `key`: `None` if no
/// key matches, or if the first matching association has no value.
pub open spec fn spec_lookup(items: Seq<SpecPair>, key: Seq<u8>) -> Option<Seq<u8>>
    decreases items.len(),
{
    if items.len() == 0 {
        None
    } else if items[0].0 == key {
        items[0].1
    } else {
        spec_lookup(items.drop_first(), key)
    }
}

/// Whether an association passes both optional filters: its key equals the
/// key filter (when supplied), and it holds a value equal to the value
/// filter (when supplied).
pub open spec fn spec_candidate(
    p: SpecPair,
    key: Option<Seq<u8>>,
    value: Option<Seq<u8>>,
) -> bool {
    &&& (key matches Some(k) ==> p.0 == k)
    &&& (value matches Some(v) ==> p.1 == Some(v))
}

/// The value of the first association that passes both filters and holds a
/// value.  An association without a value is never returned, even when both
/// filters are absent.
pub open spec fn spec_lookup_with_value(
    items: Seq<SpecPair>,
    key: Option<Seq<u8>>,
    value: Option<Seq<u8>>,
) -> Option<Seq<u8>>
    decreases items.len(),
{
    if items.len() == 0 {
        None
    } else if spec_candidate(items[0], key, value) && items[0].1 is Some {
        items[0].1
    } else {
        spec_lookup_with_value(items.drop_first(), key, value)
    }
}

/// The number of associations whose key passes the optional filter.
pub open spec fn spec_count(items: Seq<SpecPair>, filter: Option<Seq<u8>>) -> nat
    decreases items.len(),
{
    if items.len() == 0 {
        0
    } else {
        (if matches_filter(items[0].0, filter) {
            1nat
        } else {
            0nat
        }) + spec_count(items.drop_first(), filter)
    }
}

/// Counting without a filter counts every association: over any store, the
/// unfiltered count equals the number of comma-separated items the store
/// was parsed from.
pub proof fn lemma_count_total(items: Seq<SpecPair>)
    ensures
        spec_count(items, None) == items.len(),
    decreases items.len(),
{
    if items.len() > 0 {
        lemma_count_total(items.drop_first());
    }
}

/// A count never exceeds the number of associations.
pub proof fn lemma_count_le_len(items: Seq<SpecPair>, filter: Option<Seq<u8>>)
    ensures
        spec_count(items, filter) <= items.len(),
    decreases items.len(),
{
    if items.len() > 0 {
        lemma_count_le_len(items.drop_first(), filter);
    }
}

/// Returns the value associated with the first association whose key equals
/// `key`, or `None` if no store is supplied, no key matches, or the first
/// matching association has no value.
pub fn rte_kvargs_get<'a>(kvlist: Option<&'a KVargs>, key: &[u8]) -> (r: Option<&'a [u8]>)
    ensures
        spec_opt_bytes(r) == match kvlist {
            Some(store) => spec_lookup(store@, key@),
            None => None::<Seq<u8>>,
        },
{
    let store = match kvlist {
        Some(store) => store,
        None => {
            return None;
        },
    };
    let n = store.len();
    let mut i: usize = 0;
    proof {
        assert(store@.skip(0) =~= store@);
    }
    while i < n
        invariant
            i <= n == store@.len(),
            kvlist == Some(store),
            spec_lookup(store@, key@) == spec_lookup(store@.skip(i as int), key@),
        decreases n - i,
    {
        proof {
            assert(store@.skip(i as int)[0] == store@[i as int]);
            assert(store@.skip(i as int).drop_first() =~= store@.skip(i + 1));
        }
        let k = store.key_at(i);
        if slice_eq(k, key) {
            return store.value_at(i);
        }
        i = i + 1;
    }
    proof {
        assert(store@.skip(n as int) =~= Seq::<SpecPair>::empty());
    }
    None
}

/// Returns the value of the first association that passes both optional
/// filters and holds a value, scanning in order.  Associations without a
/// value are never returned, even when both filters are absent.
pub fn rte_kvargs_get_with_value<'a>(
    kvlist: Option<&'a KVargs>,
    key: Option<&[u8]>,
    value: Option<&[u8]>,
) -> (r: Option<&'a [u8]>)
    ensures
        spec_opt_bytes(r) == match kvlist {
            Some(store) => spec_lookup_with_value(
                store@,
                spec_opt_bytes(key),
                spec_opt_bytes(value),
            ),
            None => None::<Seq<u8>>,
        },
{
    let store = match kvlist {
        Some(store) => store,
        None => {
            return None;
        },
    };
    let n = store.len();
    let mut i: usize = 0;
    proof {
        assert(store@.skip(0) =~= store@);
    }
    while i < n
        invariant
            i <= n == store@.len(),
            kvlist == Some(store),
            spec_lookup_with_value(store@, spec_opt_bytes(key), spec_opt_bytes(value))
                == spec_lookup_with_value(
                store@.skip(i as int),
                spec_opt_bytes(key),
                spec_opt_bytes(value),
            ),
        decreases n - i,
    {
        proof {
            assert(store@.skip(i as int)[0] == store@[i as int]);
            assert(store@.skip(i as int).drop_first() =~= store@.skip(i + 1));
        }
        let k = store.key_at(i);
        let key_ok = match key {
            Some(f) => slice_eq(k, f),
            None => true,
        };
        if key_ok {
            let v = store.value_at(i);
            match v {
                Some(bytes) => {
                    let value_ok = match value {
                        Some(f) => slice_eq(bytes, f),
                        None => true,
                    };
                    if value_ok {
                        return Some(bytes);
                    }
                },
                None => {},
            }
        }
        i = i + 1;
    }
    proof {
        assert(store@.skip(n as int) =~= Seq::<SpecPair>::empty());
    }
    None
}

/// Counts the associations whose key passes the optional filter; every
/// association counts when no filter is supplied.  A missing store counts
/// zero.
pub fn rte_kvargs_count(kvlist: Option<&KVargs>, key_match: Option<&[u8]>) -> (n: u32)
    ensures
        n == match kvlist {
            Some(store) => spec_count(store@, spec_opt_bytes(key_match)),
            None => 0nat,
        },
{
    let store = match kvlist {
        Some(store) => store,
        None => {
            return 0;
        },
    };
    let total = store.len();
    let mut count: u32 = 0;
    let mut i: usize = 0;
    proof {
        assert(store@.skip(0) =~= store@);
    }
    while i < total
        invariant
            i <= total == store@.len(),
            total <= crate::RTE_KVARGS_MAX,
            count <= i,
            count + spec_count(store@.skip(i as int), spec_opt_bytes(key_match)) == spec_count(
                store@,
                spec_opt_bytes(key_match),
            ),
        decreases total - i,
    {
        proof {
            assert(store@.skip(i as int)[0] == store@[i as int]);
            assert(store@.skip(i as int).drop_first() =~= store@.skip(i + 1));
        }
        let k = store.key_at(i);
        let hit = match key_match {
            Some(f) => slice_eq(k, f),
            None => true,
        };
        if hit {
            count = count + 1;
        }
        i = i + 1;
    }
    proof {
        assert(store@.skip(total as int) =~= Seq::<SpecPair>::empty());
    }
    count
}

} // verus!
