//! The fixed-capacity store of parsed key/value associations.
//!
//! A store owns a single byte arena holding a nul-terminated copy of every
//! key and value, in input order, and a bounded list of offset/length
//! records into that arena.  It is built atomically by the parse entry
//! points: either the whole input parses (and every key passes the optional
//! allow-list) and a fully populated store comes back, or nothing does.
//! Once built, a store is never mutated.
use vstd::prelude::*;

use crate::RTE_KVARGS_MAX;
use crate::grammar::{
    spec_items, spec_parse, spec_token_pair, spec_token_pairs, spec_token_wf, for_each, KvToken,
    SpecPair,
};

verus! {

/// One association inside a store: spans of the owning store's arena.
#[derive(Clone, Copy, Debug)]
struct Pair {
    /// Offset of the key copy in the arena.
    key_off: usize,
    /// Length of the key; the byte after it is a nul terminator.
    key_len: usize,
    /// Offset and length of the value copy, if the association has one.
    val: Option<(usize, usize)>,
}

/// The association a pair record denotes, read back from the arena.
spec fn spec_pair_view(arena: Seq<u8>, p: Pair) -> SpecPair {
    (
        arena.subrange(p.key_off as int, p.key_off + p.key_len),
        match p.val {
            Some((off, len)) => Some(arena.subrange(off as int, off + len)),
            None => None,
        },
    )
}

/// A pair record lies inside the arena, its key is non-empty, and each of
/// its spans is followed by a nul terminator.
spec fn spec_pair_wf(arena: Seq<u8>, p: Pair) -> bool {
    &&& p.key_len >= 1
    &&& p.key_off + p.key_len < arena.len()
    &&& arena[p.key_off + p.key_len] == 0
    &&& match p.val {
        Some((off, len)) => off + len < arena.len() && arena[off + len] == 0,
        None => true,
    }
}

/// A list of key/value associations over one owned byte arena.
#[derive(Debug)]
pub struct KVargs {
    /// Nul-separated copies of every key and value, in input order.
    buf: Vec<u8>,
    /// The first `pairs.len()` associations; at most [`RTE_KVARGS_MAX`].
    pairs: Vec<Pair>,
}

impl View for KVargs {
    type V = Seq<SpecPair>;

    closed spec fn view(&self) -> Seq<SpecPair> {
        Seq::new(self.pairs@.len(), |i: int| spec_pair_view(self.buf@, self.pairs@[i]))
    }
}

impl KVargs {
    /// Capacity respected, and every pair record valid for the arena.
    #[verifier::type_invariant]
    spec fn wf(&self) -> bool {
        &&& self.pairs@.len() <= RTE_KVARGS_MAX
        &&& forall|i: int|
            0 <= i < self.pairs@.len() ==> spec_pair_wf(self.buf@, #[trigger] self.pairs@[i])
    }

    /// Number of associations in the store: never more than
    /// [`RTE_KVARGS_MAX`].
    pub fn len(&self) -> (n: usize)
        ensures
            n == self@.len(),
            n <= RTE_KVARGS_MAX,
    {
        proof {
            use_type_invariant(self);
        }
        self.pairs.len()
    }

    /// The key of the association at `i`.
    pub fn key_at(&self, i: usize) -> (k: &[u8])
        requires
            i < self@.len(),
        ensures
            k@ == self@[i as int].0,
    {
        proof {
            use_type_invariant(self);
            assert(spec_pair_wf(self.buf@, self.pairs@[i as int]));
        }
        let arena = self.buf.as_slice();
        let n = arena.len();
        let p = self.pairs[i];
        assert(p.key_off + p.key_len < n);
        vstd::slice::slice_subrange(arena, p.key_off, p.key_off + p.key_len)
    }

    /// The value of the association at `i`, if it has one.
    pub fn value_at(&self, i: usize) -> (v: Option<&[u8]>)
        requires
            i < self@.len(),
        ensures
            match v {
                Some(bytes) => self@[i as int].1 == Some(bytes@),
                None => self@[i as int].1 is None,
            },
    {
        proof {
            use_type_invariant(self);
            assert(spec_pair_wf(self.buf@, self.pairs@[i as int]));
        }
        let arena = self.buf.as_slice();
        let n = arena.len();
        let p = self.pairs[i];
        match p.val {
            Some((off, len)) => {
                assert(off + len < n);
                Some(vstd::slice::slice_subrange(arena, off, off + len))
            },
            None => None,
        }
    }

    /// Builds a store from an input string: an all-or-nothing copy of every
    /// parsed association into a fresh arena.
    pub fn new(args: &[u8]) -> (r: Option<KVargs>)
        ensures
            match r {
                Some(store) => spec_parse(args@) == Some(store@),
                None => spec_parse(args@) is None,
            },
    {
        if args.len() == 0 {
            return Some(KVargs::empty());
        }
        let toks = match for_each(args) {
            Some(toks) => toks,
            None => {
                return None;
            },
        };
        if toks.len() > RTE_KVARGS_MAX {
            return None;
        }
        Some(KVargs::from_tokens(args, &toks))
    }

    /// A store with no associations and no arena.
    fn empty() -> (store: KVargs)
        ensures
            store@ == Seq::<SpecPair>::empty(),
    {
        let store = KVargs { buf: Vec::new(), pairs: Vec::new() };
        proof {
            assert(store@ =~= Seq::<SpecPair>::empty());
        }
        store
    }

    /// Copies every token span of `toks` out of `args` into a fresh arena.
    fn from_tokens(args: &[u8], toks: &Vec<KvToken>) -> (store: KVargs)
        requires
            toks@.len() <= RTE_KVARGS_MAX,
            forall|j: int|
                0 <= j < toks@.len() ==> spec_token_wf(
                    #[trigger] toks@[j],
                    toks@[j].key_lo as int,
                    args@.len() as int,
                ),
        ensures
            store@ == spec_token_pairs(toks@, args@),
    {
        let ghost items = spec_token_pairs(toks@, args@);
        let mut buf: Vec<u8> = Vec::new();
        let mut pairs: Vec<Pair> = Vec::new();
        let mut i: usize = 0;
        while i < toks.len()
            invariant
                i <= toks@.len() <= RTE_KVARGS_MAX,
                pairs@.len() == i,
                forall|j: int|
                    0 <= j < toks@.len() ==> spec_token_wf(
                        #[trigger] toks@[j],
                        toks@[j].key_lo as int,
                        args@.len() as int,
                    ),
                forall|j: int| 0 <= j < i ==> spec_pair_wf(buf@, #[trigger] pairs@[j]),
                forall|j: int|
                    0 <= j < i ==> spec_pair_view(buf@, #[trigger] pairs@[j]) == spec_token_pair(
                        toks@[j],
                        args@,
                    ),
            decreases toks@.len() - i,
        {
            let ghost buf0 = buf@;
            let t = toks[i];
            let key_off = bump_insert(&mut buf, args, t.key_lo, t.key_hi);
            let val = match t.val {
                Some((lo, hi)) => {
                    let val_off = bump_insert(&mut buf, args, lo, hi);
                    Some((val_off, hi - lo))
                },
                None => None,
            };
            let p = Pair { key_off, key_len: t.key_hi - t.key_lo, val };
            pairs.push(p);
            proof {
                assert forall|j: int| 0 <= j < i + 1 implies spec_pair_wf(
                    buf@,
                    #[trigger] pairs@[j],
                ) && spec_pair_view(buf@, pairs@[j]) == spec_token_pair(toks@[j], args@) by {
                    if j < i {
                        let q = pairs@[j];
                        assert(buf@.subrange(q.key_off as int, q.key_off + q.key_len) =~= buf0
                            .subrange(q.key_off as int, q.key_off + q.key_len));
                        if let Some((off, len)) = q.val {
                            assert(buf@.subrange(off as int, off + len) =~= buf0.subrange(
                                off as int,
                                off + len,
                            ));
                        }
                    } else {
                        assert(buf@.subrange(p.key_off as int, p.key_off + p.key_len) =~= args@
                            .subrange(t.key_lo as int, t.key_hi as int));
                        if let Some((off, len)) = p.val {
                            assert(buf@.subrange(off as int, off + len) =~= args@.subrange(
                                t.val->Some_0.0 as int,
                                t.val->Some_0.1 as int,
                            ));
                        }
                    }
                }
            }
            i = i + 1;
        }
        let store = KVargs { buf, pairs };
        proof {
            assert(store@ =~= items);
        }
        store
    }
}

/// Whether `key` appears in the allow-list `keys`.
pub open spec fn key_allowed(keys: Seq<Seq<u8>>, key: Seq<u8>) -> bool {
    exists|j: int| 0 <= j < keys.len() && keys[j] == key
}

/// Whether every key of `items` appears in the allow-list `keys`.
pub open spec fn all_allowed(items: Seq<SpecPair>, keys: Seq<Seq<u8>>) -> bool {
    forall|i: int| 0 <= i < items.len() ==> #[trigger] key_allowed(keys, items[i].0)
}

/// A caller-owned list of acceptable keys, consulted once at store
/// construction time.
pub struct Base {
    keys: Vec<Vec<u8>>,
}

impl View for Base {
    type V = Seq<Seq<u8>>;

    closed spec fn view(&self) -> Seq<Seq<u8>> {
        self.keys.deep_view()
    }
}

impl Base {
    /// An empty allow-list.
    pub fn new() -> (b: Base)
        ensures
            b@ == Seq::<Seq<u8>>::empty(),
    {
        let b = Base { keys: Vec::new() };
        proof {
            assert(b@ =~= Seq::<Seq<u8>>::empty());
        }
        b
    }

    /// Appends one acceptable key.
    pub fn push(&mut self, key: Vec<u8>)
        ensures
            final(self)@ == old(self)@.push(key@),
    {
        let ghost k = key@;
        self.keys.push(key);
        proof {
            assert(self@ =~~= old(self)@.push(k));
        }
    }

    /// Whether `key` appears in this allow-list.
    pub fn contains(&self, key: &[u8]) -> (r: bool)
        ensures
            r == key_allowed(self@, key@),
    {
        let mut i: usize = 0;
        while i < self.keys.len()
            invariant
                i <= self.keys@.len(),
                self@.len() == self.keys@.len(),
                forall|j: int| 0 <= j < i ==> self@[j] != key@,
            decreases self.keys@.len() - i,
        {
            proof {
                assert(self@[i as int] =~= self.keys@[i as int]@);
            }
            if slice_eq(self.keys[i].as_slice(), key) {
                proof {
                    assert(self@[i as int] == key@);
                }
                return true;
            }
            i = i + 1;
        }
        false
    }

    /// Turns the allow-list into an iterator over its keys.
    pub fn into_iter(self) -> (it: Iter)
        ensures
            it@ == self@,
    {
        Iter { base: self, offset: 0 }
    }
}

/// An iterator over the keys of a [`Base`], front to back.  Its view is the
/// sequence of keys not yet handed out.
pub struct Iter {
    base: Base,
    offset: usize,
}

impl View for Iter {
    type V = Seq<Seq<u8>>;

    closed spec fn view(&self) -> Seq<Seq<u8>> {
        if self.offset <= self.base@.len() {
            self.base@.skip(self.offset as int)
        } else {
            Seq::empty()
        }
    }
}

impl Iter {
    /// Hands out a copy of the next key, or `None` when all keys have been
    /// handed out.
    pub fn next(&mut self) -> (r: Option<Vec<u8>>)
        ensures
            match r {
                Some(key) => old(self)@.len() > 0 && key@ == old(self)@[0] && final(self)@ == old(
                    self,
                )@.drop_first(),
                None => old(self)@.len() == 0 && final(self)@ == old(self)@,
            },
    {
        if self.offset < self.base.keys.len() {
            let key = vstd::slice::slice_to_vec(self.base.keys[self.offset].as_slice());
            self.offset = self.offset + 1;
            proof {
                assert(self@ =~= old(self)@.drop_first());
            }
            Some(key)
        } else {
            None
        }
    }
}

/// Whether two byte strings hold the same bytes.
pub(crate) fn slice_eq(a: &[u8], b: &[u8]) -> (r: bool)
    ensures
        r == (a@ == b@),
{
    if a.len() != b.len() {
        return false;
    }
    let mut i: usize = 0;
    while i < a.len()
        invariant
            i <= a@.len() == b@.len(),
            forall|j: int| 0 <= j < i ==> a@[j] == b@[j],
        decreases a@.len() - i,
    {
        if a[i] != b[i] {
            return false;
        }
        i = i + 1;
    }
    proof {
        assert(a@ =~= b@);
    }
    true
}

/// The associations a parse entry point hands back for input `s` and an
/// optional allow-list: the parsed associations, provided every key appears
/// in the allow-list when one is supplied; `None` otherwise.
pub open spec fn spec_parse_with_keys(s: Seq<u8>, keys: Option<Seq<Seq<u8>>>) -> Option<
    Seq<SpecPair>,
> {
    match spec_parse(s) {
        Some(items) => {
            let pass = match keys {
                Some(ks) => all_allowed(items, ks),
                None => true,
            };
            if pass {
                Some(items)
            } else {
                None
            }
        },
        None => None,
    }
}

/// Empty input always parses to a zero-entry store, whatever allow-list is
/// supplied.
pub proof fn lemma_parse_empty(keys: Option<Seq<Seq<u8>>>)
    ensures
        spec_parse_with_keys(Seq::empty(), keys) == Some(Seq::<SpecPair>::empty()),
{
}

/// The allow-list view an optional [`Base`] denotes.
pub open spec fn spec_opt_keys(valid_keys: Option<&Base>) -> Option<Seq<Seq<u8>>> {
    match valid_keys {
        Some(base) => Some(base@),
        None => None,
    }
}

/// The view of an optional store.
pub open spec fn spec_opt_store(r: Option<KVargs>) -> Option<Seq<SpecPair>> {
    match r {
        Some(store) => Some(store@),
        None => None,
    }
}

/// Why a parse failed.  The boundary entry points collapse every kind to
/// "no store"; [`try_parse`] keeps the kind for callers that want
/// diagnostics.
#[derive(Clone, Copy, Debug, PartialEq, Eq, Structural)]
pub enum ParseError {
    /// The input does not match the grammar, or trailing bytes were left
    /// unconsumed.
    Grammar,
    /// The input holds more than [`RTE_KVARGS_MAX`] associations.
    CapacityExceeded,
    /// A parsed key does not appear in the supplied allow-list.
    AllowlistViolation,
}

/// The kind of failure parsing `s` reports when it yields no store: a
/// grammar mismatch first, the capacity of the store second, the allow-list
/// last.
pub open spec fn spec_parse_error(s: Seq<u8>) -> ParseError {
    if s.len() != 0 && !(spec_items(s, 0) matches Some((items, end)) && end == s.len()) {
        ParseError::Grammar
    } else if s.len() != 0 && spec_items(s, 0)->Some_0.0.len() > RTE_KVARGS_MAX {
        ParseError::CapacityExceeded
    } else {
        ParseError::AllowlistViolation
    }
}

/// Parses an input string into a store of key/value associations,
/// reporting the kind of failure when there is one.
///
/// All-or-nothing: the result is a store holding every association of the
/// input, in order, exactly when the whole input matches the grammar, at
/// most [`RTE_KVARGS_MAX`] associations are present, and every key appears
/// in `valid_keys` where such an allow-list is supplied.
pub fn try_parse(args: &[u8], valid_keys: Option<&Base>) -> (r: Result<KVargs, ParseError>)
    ensures
        match r {
            Ok(store) => spec_parse_with_keys(args@, spec_opt_keys(valid_keys)) == Some(store@),
            Err(e) => spec_parse_with_keys(args@, spec_opt_keys(valid_keys)) is None && e
                == spec_parse_error(args@),
        },
{
    if args.len() == 0 {
        return Ok(KVargs::empty());
    }
    let toks = match for_each(args) {
        Some(toks) => toks,
        None => {
            return Err(ParseError::Grammar);
        },
    };
    if toks.len() > RTE_KVARGS_MAX {
        return Err(ParseError::CapacityExceeded);
    }
    let store = KVargs::from_tokens(args, &toks);
    if let Some(base) = valid_keys {
        let n = store.len();
        let mut i: usize = 0;
        while i < n
            invariant
                i <= n == store@.len(),
                spec_parse(args@) == Some(store@),
                spec_opt_keys(valid_keys) == Some(base@),
                forall|j: int| 0 <= j < i ==> #[trigger] key_allowed(base@, store@[j].0),
            decreases n - i,
        {
            let k = store.key_at(i);
            if !base.contains(k) {
                proof {
                    assert(!key_allowed(base@, store@[i as int].0));
                    assert(!all_allowed(store@, base@));
                }
                return Err(ParseError::AllowlistViolation);
            }
            i = i + 1;
        }
    }
    Ok(store)
}

/// Parses an input string into a store of key/value associations.
///
/// All-or-nothing: the result is a store holding every association of the
/// input, in order, exactly when the whole input matches the grammar, at
/// most [`RTE_KVARGS_MAX`] associations are present, and every key appears
/// in `valid_keys` where such an allow-list is supplied.
pub fn rte_kvargs_parse(args: &[u8], valid_keys: Option<&Base>) -> (r: Option<KVargs>)
    ensures
        spec_opt_store(r) == spec_parse_with_keys(args@, spec_opt_keys(valid_keys)),
{
    match try_parse(args, valid_keys) {
        Ok(store) => Some(store),
        Err(_) => None,
    }
}

/// Parses an input string like [`rte_kvargs_parse`], but treats any byte of
/// `valid_ends` as a terminator: parsing considers only the input up to the
/// first occurrence of such a byte.  Without a terminator set the behaviour
/// is identical to [`rte_kvargs_parse`].
pub fn rte_kvargs_parse_delim(
    args: &[u8],
    valid_keys: Option<&Base>,
    valid_ends: Option<&[u8]>,
) -> (r: Option<KVargs>)
    ensures
        spec_opt_store(r) == spec_parse_with_keys(
            match valid_ends {
                Some(ends) => args@.subrange(0, spec_cut(args@, ends@, 0)),
                None => args@,
            },
            spec_opt_keys(valid_keys),
        ),
{
    let ends = match valid_ends {
        Some(ends) => ends,
        None => {
            return rte_kvargs_parse(args, valid_keys);
        },
    };
    let mut cut: usize = 0;
    while cut < args.len() && !contains_byte(ends, args[cut])
        invariant
            cut <= args@.len(),
            spec_cut(args@, ends@, 0) == spec_cut(args@, ends@, cut as int),
        decreases args@.len() - cut,
    {
        cut = cut + 1;
    }
    let trimmed = vstd::slice::slice_subrange(args, 0, cut);
    rte_kvargs_parse(trimmed, valid_keys)
}

/// Releases a store.  No-op when no store is supplied.
pub fn rte_kvargs_free(kvlist: Option<KVargs>) {
}

/// First position at or after `i` holding a byte of `ends`, or the length
/// of `s`.
pub open spec fn spec_cut(s: Seq<u8>, ends: Seq<u8>, i: int) -> int
    decreases s.len() - i when 0 <= i <= s.len()
{
    if i >= s.len() {
        s.len() as int
    } else if spec_in_set(s[i], ends) {
        i
    } else {
        spec_cut(s, ends, i + 1)
    }
}

/// Whether `b` appears in `set`.
pub open spec fn spec_in_set(b: u8, set: Seq<u8>) -> bool {
    exists|j: int| 0 <= j < set.len() && set[j] == b
}

/// Whether `b` appears in `set`.
fn contains_byte(set: &[u8], b: u8) -> (r: bool)
    ensures
        r == spec_in_set(b, set@),
{
    let mut i: usize = 0;
    while i < set.len()
        invariant
            i <= set@.len(),
            forall|j: int| 0 <= j < i ==> set@[j] != b,
        decreases set@.len() - i,
    {
        if set[i] == b {
            return true;
        }
        i = i + 1;
    }
    false
}

/// Copies `src[lo..hi]` to the end of `buf`, adds a nul terminator, and
/// returns the offset of the copy.  Copies from repeated calls never
/// overlap.
pub fn bump_insert(buf: &mut Vec<u8>, src: &[u8], lo: usize, hi: usize) -> (off: usize)
    requires
        lo <= hi <= src@.len(),
    ensures
        off == old(buf)@.len(),
        final(buf)@ == old(buf)@ + src@.subrange(lo as int, hi as int) + seq![0u8],
{
    let off = buf.len();
    let mut j = lo;
    while j < hi
        invariant
            lo <= j <= hi <= src@.len(),
            buf@ == old(buf)@ + src@.subrange(lo as int, j as int),
        decreases hi - j,
    {
        let b = src[j];
        buf.push(b);
        proof {
            assert(old(buf)@ + src@.subrange(lo as int, j as int) + seq![b] =~= old(buf)@
                + src@.subrange(lo as int, j + 1));
        }
        j = j + 1;
    }
    buf.push(0);
    off
}

} // verus!
