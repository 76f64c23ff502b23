//! Ordered iteration over a store with an externally supplied handler.
//!
//! Both entry points visit the associations in original order and hand each
//! matching one to the handler; a negative handler status aborts the walk
//! at once.  [`rte_kvargs_process`] is strict: a matching association
//! without a value aborts before the handler is consulted.
//! [`rte_kvargs_process_opt`] is permissive: such an association is handed
//! to the handler with an absent value.
//!
//! What a call did is captured by [`spec_process`]: a relation between the
//! handler state before and after the call, the associations walked, and
//! the returned status.
use vstd::prelude::*;

use crate::grammar::SpecPair;
use crate::query::{matches_filter, spec_count, spec_opt_bytes};
use crate::store::{slice_eq, KVargs};

verus! {

/// The handler capability consulted for each matching association.
///
/// An implementor describes what a call of [`Self::handle`] may do through
/// the relation [`Self::handled`], and proves its implementation against
/// it.
pub trait ArgHandler: Sized {
    /// Relates the handler state before a call to the state after it, the
    /// key and optional value handed in, and the returned status.  The
    /// default relation promises nothing; an implementor overrides it to
    /// say what its handler does, and proves [`Self::handle`] against it.
    open spec fn handled(&self, post: Self, key: Seq<u8>, value: Option<Seq<u8>>, status: i32) -> bool {
        true
    }

    /// Handles one association.  A negative status asks the caller to
    /// abort.
    fn handle(&mut self, key: &[u8], value: Option<&[u8]>) -> (status: i32)
        ensures
            old(self).handled(*final(self), key@, spec_opt_bytes(value), status),
    ;
}

/// A handler that tallies the associations it is handed and never asks to
/// abort.
pub struct Tally {
    /// Number of associations handed to the handler so far; stops growing
    /// at `u64::MAX`.
    pub count: u64,
}

impl Tally {
    /// A tally of zero.
    pub fn new() -> (t: Tally)
        ensures
            t.count == 0,
    {
        Tally { count: 0 }
    }
}

impl ArgHandler for Tally {
    open spec fn handled(&self, post: Self, key: Seq<u8>, value: Option<Seq<u8>>, status: i32) -> bool {
        &&& status == 0
        &&& post.count == if self.count < u64::MAX {
            self.count + 1
        } else {
            self.count as int
        }
    }

    fn handle(&mut self, key: &[u8], value: Option<&[u8]>) -> (status: i32)
        ensures
            old(self).handled(*final(self), key@, spec_opt_bytes(value), status),
    {
        if self.count < u64::MAX {
            self.count = self.count + 1;
        }
        0
    }
}

/// What one processing walk did, for handler states `pre` before and `post`
/// after it: the associations of `items` are taken in order; one whose key
/// fails the filter is skipped; in strict mode one without a value aborts
/// with `-1`; otherwise the handler runs, and a negative status aborts with
/// `-1`.  A completed walk returns `0`.
pub open spec fn spec_process<H: ArgHandler>(
    pre: H,
    post: H,
    items: Seq<SpecPair>,
    filter: Option<Seq<u8>>,
    strict: bool,
    r: i32,
) -> bool
    decreases items.len(),
{
    if items.len() == 0 {
        r == 0 && post == pre
    } else {
        let p = items[0];
        let rest = items.drop_first();
        if !matches_filter(p.0, filter) {
            spec_process(pre, post, rest, filter, strict, r)
        } else if strict && p.1 is None {
            r == -1 && post == pre
        } else {
            exists|mid: H, status: i32|
                {
                    &&& #[trigger] pre.handled(mid, p.0, p.1, status)
                    &&& if status < 0 {
                        r == -1 && post == mid
                    } else {
                        spec_process(mid, post, rest, filter, strict, r)
                    }
                }
        }
    }
}

/// A completed walk over `done` followed by a walk over `rest` is a walk
/// over their concatenation.
proof fn lemma_process_compose<H: ArgHandler>(
    pre: H,
    mid: H,
    post: H,
    done: Seq<SpecPair>,
    rest: Seq<SpecPair>,
    filter: Option<Seq<u8>>,
    strict: bool,
    r: i32,
)
    requires
        spec_process(pre, mid, done, filter, strict, 0),
        spec_process(mid, post, rest, filter, strict, r),
    ensures
        spec_process(pre, post, done + rest, filter, strict, r),
    decreases done.len(),
{
    if done.len() == 0 {
        assert(done + rest =~= rest);
    } else {
        let p = done[0];
        let dtail = done.drop_first();
        assert((done + rest)[0] == p);
        assert((done + rest).drop_first() =~= dtail + rest);
        if !matches_filter(p.0, filter) {
            lemma_process_compose(pre, mid, post, dtail, rest, filter, strict, r);
        } else if strict && p.1 is None {
            assert(false);
        } else {
            let (m1, status): (H, i32) = choose|m1: H, status: i32|
                {
                    &&& #[trigger] pre.handled(m1, p.0, p.1, status)
                    &&& if status < 0 {
                        (0i32) == -1 && mid == m1
                    } else {
                        spec_process(m1, mid, dtail, filter, strict, 0)
                    }
                };
            lemma_process_compose(m1, mid, post, dtail, rest, filter, strict, r);
            assert(pre.handled(m1, p.0, p.1, status) && status >= 0 && spec_process(
                m1,
                post,
                dtail + rest,
                filter,
                strict,
                r,
            ));
        }
    }
}

/// A walk returns `0` or `-1` and nothing else.
pub proof fn lemma_process_status<H: ArgHandler>(
    pre: H,
    post: H,
    items: Seq<SpecPair>,
    filter: Option<Seq<u8>>,
    strict: bool,
    r: i32,
)
    requires
        spec_process(pre, post, items, filter, strict, r),
    ensures
        r == 0 || r == -1,
    decreases items.len(),
{
    if items.len() > 0 {
        let p = items[0];
        let rest = items.drop_first();
        if !matches_filter(p.0, filter) {
            lemma_process_status(pre, post, rest, filter, strict, r);
        } else if strict && p.1 is None {
        } else {
            let (m1, status): (H, i32) = choose|m1: H, status: i32|
                {
                    &&& #[trigger] pre.handled(m1, p.0, p.1, status)
                    &&& if status < 0 {
                        r == -1 && post == m1
                    } else {
                        spec_process(m1, post, rest, filter, strict, r)
                    }
                };
            if status >= 0 {
                lemma_process_status(m1, post, rest, filter, strict, r);
            }
        }
    }
}

/// A strict walk over associations among which some matching one has no
/// value always aborts: whatever the handler does, the result is `-1`.
pub proof fn lemma_process_strict_missing<H: ArgHandler>(
    pre: H,
    post: H,
    items: Seq<SpecPair>,
    filter: Option<Seq<u8>>,
    r: i32,
)
    requires
        spec_process(pre, post, items, filter, true, r),
        exists|i: int|
            0 <= i < items.len() && matches_filter(#[trigger] items[i].0, filter)
                && items[i].1 is None,
    ensures
        r == -1,
    decreases items.len(),
{
    let w = choose|i: int|
        0 <= i < items.len() && matches_filter(#[trigger] items[i].0, filter)
            && items[i].1 is None;
    let p = items[0];
    let rest = items.drop_first();
    if !matches_filter(p.0, filter) {
        assert(w > 0);
        assert(rest[w - 1] == items[w]);
        lemma_process_strict_missing(pre, post, rest, filter, r);
    } else if p.1 is None {
    } else {
        assert(w > 0);
        assert(rest[w - 1] == items[w]);
        let (m1, status): (H, i32) = choose|m1: H, status: i32|
            {
                &&& #[trigger] pre.handled(m1, p.0, p.1, status)
                &&& if status < 0 {
                    r == -1 && post == m1
                } else {
                    spec_process(m1, post, rest, filter, true, r)
                }
            };
        if status >= 0 {
            lemma_process_strict_missing(m1, post, rest, filter, r);
        }
    }
}

/// A permissive walk with a handler that never reports a negative status
/// completes: the result is `0`, and every matching association was handed
/// to the handler.
pub proof fn lemma_process_opt_success<H: ArgHandler>(
    pre: H,
    post: H,
    items: Seq<SpecPair>,
    filter: Option<Seq<u8>>,
    r: i32,
)
    requires
        spec_process(pre, post, items, filter, false, r),
        forall|h1: H, h2: H, k: Seq<u8>, v: Option<Seq<u8>>, s: i32|
            #[trigger] h1.handled(h2, k, v, s) ==> s >= 0,
    ensures
        r == 0,
    decreases items.len(),
{
    if items.len() > 0 {
        let p = items[0];
        let rest = items.drop_first();
        if !matches_filter(p.0, filter) {
            lemma_process_opt_success(pre, post, rest, filter, r);
        } else {
            let (m1, status): (H, i32) = choose|m1: H, status: i32|
                {
                    &&& #[trigger] pre.handled(m1, p.0, p.1, status)
                    &&& if status < 0 {
                        r == -1 && post == m1
                    } else {
                        spec_process(m1, post, rest, filter, false, r)
                    }
                };
            assert(status >= 0);
            lemma_process_opt_success(m1, post, rest, filter, r);
        }
    }
}

/// A permissive walk with a tallying handler completes and hands the
/// handler exactly the associations whose key passes the filter: every
/// matching one is visited.
pub proof fn lemma_process_opt_tally(
    pre: Tally,
    post: Tally,
    items: Seq<SpecPair>,
    filter: Option<Seq<u8>>,
    r: i32,
)
    requires
        spec_process(pre, post, items, filter, false, r),
        pre.count + items.len() <= u64::MAX,
    ensures
        r == 0,
        post.count == pre.count + spec_count(items, filter),
    decreases items.len(),
{
    if items.len() > 0 {
        let p = items[0];
        let rest = items.drop_first();
        if !matches_filter(p.0, filter) {
            lemma_process_opt_tally(pre, post, rest, filter, r);
        } else {
            let (m1, status): (Tally, i32) = choose|m1: Tally, status: i32|
                {
                    &&& #[trigger] pre.handled(m1, p.0, p.1, status)
                    &&& if status < 0 {
                        r == -1 && post == m1
                    } else {
                        spec_process(m1, post, rest, filter, false, r)
                    }
                };
            lemma_process_opt_tally(m1, post, rest, filter, r);
        }
    }
}

/// Walks the store, skipping associations whose key fails the filter, and
/// consults the handler for the rest.  In strict mode a matching
/// association without a value aborts before the handler runs.
#[verifier::loop_isolation(false)]
fn process<H: ArgHandler>(
    kvlist: Option<&KVargs>,
    key_match: Option<&[u8]>,
    handler: &mut H,
    allow_missing_value: bool,
) -> (r: i32)
    ensures
        match kvlist {
            Some(store) => spec_process(
                *old(handler),
                *final(handler),
                store@,
                spec_opt_bytes(key_match),
                !allow_missing_value,
                r,
            ),
            None => r == -1 && *final(handler) == *old(handler),
        },
{
    let store = match kvlist {
        Some(store) => store,
        None => {
            return -1;
        },
    };
    let ghost h0 = *handler;
    let ghost filt = spec_opt_bytes(key_match);
    let ghost strict = !allow_missing_value;
    let n = store.len();
    let mut i: usize = 0;
    proof {
        assert(store@.subrange(0, 0) =~= Seq::<SpecPair>::empty());
    }
    while i < n
        invariant
            i <= n,
            spec_process(h0, *handler, store@.subrange(0, i as int), filt, strict, 0),
        decreases n - i,
    {
        let ghost prefix = store@.subrange(0, i as int);
        let ghost hcur = *handler;
        let ghost p = store@[i as int];
        let k = store.key_at(i);
        let hit = match key_match {
            Some(f) => slice_eq(k, f),
            None => true,
        };
        proof {
            assert(hit == matches_filter(p.0, filt));
        }
        if hit {
            let v = store.value_at(i);
            if !allow_missing_value && v.is_none() {
                proof {
                    let suffix = store@.subrange(i as int, n as int);
                    assert(suffix[0] == p);
                    assert(spec_process(hcur, hcur, suffix, filt, strict, -1i32));
                    lemma_process_compose(h0, hcur, hcur, prefix, suffix, filt, strict, -1i32);
                    assert(prefix + suffix =~= store@);
                }
                return -1;
            }
            let status = handler.handle(k, v);
            if status < 0 {
                proof {
                    let suffix = store@.subrange(i as int, n as int);
                    assert(suffix[0] == p);
                    assert(hcur.handled(*handler, p.0, p.1, status));
                    assert(spec_process(hcur, *handler, suffix, filt, strict, -1i32));
                    lemma_process_compose(h0, hcur, *handler, prefix, suffix, filt, strict, -1i32);
                    assert(prefix + suffix =~= store@);
                }
                return -1;
            }
            proof {
                let single = seq![p];
                assert(single.drop_first() =~= Seq::<SpecPair>::empty());
                assert(hcur.handled(*handler, p.0, p.1, status));
                assert(spec_process(
                    *handler,
                    *handler,
                    single.drop_first(),
                    filt,
                    strict,
                    0,
                ));
                assert(spec_process(hcur, *handler, single, filt, strict, 0));
                lemma_process_compose(h0, hcur, *handler, prefix, single, filt, strict, 0);
                assert(prefix + single =~= store@.subrange(0, i + 1));
            }
        } else {
            proof {
                let single = seq![p];
                assert(single.drop_first() =~= Seq::<SpecPair>::empty());
                assert(spec_process(hcur, hcur, single.drop_first(), filt, strict, 0));
                assert(spec_process(hcur, hcur, single, filt, strict, 0));
                lemma_process_compose(h0, hcur, hcur, prefix, single, filt, strict, 0);
                assert(prefix + single =~= store@.subrange(0, i + 1));
            }
        }
        i = i + 1;
    }
    proof {
        assert(store@.subrange(0, n as int) =~= store@);
    }
    0
}

/// Calls the handler for each association matching the optional key filter,
/// strictly: a matching association without a value, or a negative handler
/// status, aborts the walk with `-1`.  A missing store fails with `-1`
/// without consulting the handler.
pub fn rte_kvargs_process<H: ArgHandler>(
    kvlist: Option<&KVargs>,
    key_match: Option<&[u8]>,
    handler: &mut H,
) -> (r: i32)
    ensures
        match kvlist {
            Some(store) => {
                &&& spec_process(
                    *old(handler),
                    *final(handler),
                    store@,
                    spec_opt_bytes(key_match),
                    true,
                    r,
                )
                &&& r == 0 || r == -1
                &&& (exists|i: int|
                    0 <= i < store@.len() && matches_filter(
                        #[trigger] store@[i].0,
                        spec_opt_bytes(key_match),
                    ) && store@[i].1 is None) ==> r == -1
            },
            None => r == -1 && *final(handler) == *old(handler),
        },
{
    let r = process(kvlist, key_match, handler, false);
    proof {
        if let Some(store) = kvlist {
            let filt = spec_opt_bytes(key_match);
            lemma_process_status(*old(handler), *handler, store@, filt, true, r);
            if exists|i: int|
                0 <= i < store@.len() && matches_filter(#[trigger] store@[i].0, filt)
                    && store@[i].1 is None {
                lemma_process_strict_missing(*old(handler), *handler, store@, filt, r);
            }
        }
    }
    r
}

/// Calls the handler for each association matching the optional key filter,
/// permissively: an association without a value is handed to the handler
/// with an absent value.  A negative handler status aborts the walk with
/// `-1`; a missing store fails with `-1` without consulting the handler.
pub fn rte_kvargs_process_opt<H: ArgHandler>(
    kvlist: Option<&KVargs>,
    key_match: Option<&[u8]>,
    handler: &mut H,
) -> (r: i32)
    ensures
        match kvlist {
            Some(store) => {
                &&& spec_process(
                    *old(handler),
                    *final(handler),
                    store@,
                    spec_opt_bytes(key_match),
                    false,
                    r,
                )
                &&& r == 0 || r == -1
            },
            None => r == -1 && *final(handler) == *old(handler),
        },
{
    let r = process(kvlist, key_match, handler, true);
    proof {
        if let Some(store) = kvlist {
            lemma_process_status(
                *old(handler),
                *handler,
                store@,
                spec_opt_bytes(key_match),
                false,
                r,
            );
        }
    }
    r
}

} // verus!
