//! The grammar of a configuration string, and its verified parser.
//!
//! ```text
//! input        := item ("," item)*          (empty input: zero items)
//! item         := key ("=" value)?
//! key          := one or more bytes, none of them ',' or '='
//! value        := (bracket-list | bare-run)*
//! bracket-list := "[" <zero or more bytes, none of them ']'> "]"
//! bare-run     := longest non-empty run up to the next ',' or '[',
//!                 or to the end of the input
//! ```
//!
//! A value is the concatenation of bare runs and bracket lists; the bracket
//! characters are kept literally in the value span.  The whole input must be
//! consumed, or the parse fails.
//!
//! The specification functions here define, byte by byte, where each token
//! ends and what sequence of associations an input denotes.  The executable
//! functions compute the same positions and are proved equal to them.
use vstd::prelude::*;

verus! {

/// One parsed association: a key and an optional value.
pub type SpecPair = (Seq<u8>, Option<Seq<u8>>);

/// The pair delimiter `,`.
pub const COMMA: u8 = 44;

/// The key/value delimiter `=`.
pub const EQUALS: u8 = 61;

/// The opening bracket `[` of a bracket list.
pub const OPEN: u8 = 91;

/// The closing bracket `]` of a bracket list.
pub const CLOSE: u8 = 93;

// ---------------------------------------------------------------------------
// Token boundaries
// ---------------------------------------------------------------------------

/// End of a key starting at `i`: the first position at or after `i` holding
/// `,` or `=`, or the end of the input.
pub open spec fn spec_key_end(s: Seq<u8>, i: int) -> int
    decreases s.len() - i when 0 <= i <= s.len()
{
    if i >= s.len() {
        s.len() as int
    } else if s[i] == COMMA || s[i] == EQUALS {
        i
    } else {
        spec_key_end(s, i + 1)
    }
}

/// First position at or after `i` holding `]`, or the end of the input.
pub open spec fn spec_close(s: Seq<u8>, i: int) -> int
    decreases s.len() - i when 0 <= i <= s.len()
{
    if i >= s.len() {
        s.len() as int
    } else if s[i] == CLOSE {
        i
    } else {
        spec_close(s, i + 1)
    }
}

/// First position at or after `i` holding `,` or `[`, or the end of the
/// input.  A bare run that starts before `i` extends to this position.
pub open spec fn spec_bare_end(s: Seq<u8>, i: int) -> int
    decreases s.len() - i when 0 <= i <= s.len()
{
    if i >= s.len() {
        s.len() as int
    } else if s[i] == COMMA || s[i] == OPEN {
        i
    } else {
        spec_bare_end(s, i + 1)
    }
}

pub proof fn lemma_key_end_bounds(s: Seq<u8>, i: int)
    requires
        0 <= i <= s.len(),
    ensures
        i <= spec_key_end(s, i) <= s.len(),
    decreases s.len() - i,
{
    if i < s.len() && s[i] != COMMA && s[i] != EQUALS {
        lemma_key_end_bounds(s, i + 1);
    }
}

pub proof fn lemma_close_bounds(s: Seq<u8>, i: int)
    requires
        0 <= i <= s.len(),
    ensures
        i <= spec_close(s, i) <= s.len(),
    decreases s.len() - i,
{
    if i < s.len() && s[i] != CLOSE {
        lemma_close_bounds(s, i + 1);
    }
}

pub proof fn lemma_bare_end_bounds(s: Seq<u8>, i: int)
    requires
        0 <= i <= s.len(),
    ensures
        i <= spec_bare_end(s, i) <= s.len(),
    decreases s.len() - i,
{
    if i < s.len() && s[i] != COMMA && s[i] != OPEN {
        lemma_bare_end_bounds(s, i + 1);
    }
}

/// End of a value starting at `i`: bracket lists and bare runs are consumed
/// as long as one of them matches.  A `,` outside brackets, a `[` with no
/// closing `]`, or the end of the input stops the scan.
pub open spec fn spec_value_end(s: Seq<u8>, i: int) -> int
    decreases s.len() - i when 0 <= i <= s.len() via check_value_end_decreases
{
    if i >= s.len() {
        i
    } else if s[i] == OPEN {
        let j = spec_close(s, i + 1);
        if j < s.len() {
            spec_value_end(s, j + 1)
        } else {
            i
        }
    } else if s[i] == COMMA {
        i
    } else {
        spec_value_end(s, spec_bare_end(s, i + 1))
    }
}

#[via_fn]
proof fn check_value_end_decreases(s: Seq<u8>, i: int) {
    if 0 <= i < s.len() {
        if s[i] == OPEN {
            lemma_close_bounds(s, i + 1);
        } else if s[i] != COMMA {
            lemma_bare_end_bounds(s, i + 1);
        }
    }
}

pub proof fn lemma_value_end_bounds(s: Seq<u8>, i: int)
    requires
        0 <= i <= s.len(),
    ensures
        i <= spec_value_end(s, i) <= s.len(),
    decreases s.len() - i,
{
    if i < s.len() {
        if s[i] == OPEN {
            lemma_close_bounds(s, i + 1);
            let j = spec_close(s, i + 1);
            if j < s.len() {
                lemma_value_end_bounds(s, j + 1);
            }
        } else if s[i] != COMMA {
            lemma_bare_end_bounds(s, i + 1);
            lemma_value_end_bounds(s, spec_bare_end(s, i + 1));
        }
    }
}

// ---------------------------------------------------------------------------
// Items
// ---------------------------------------------------------------------------

/// The association starting at `i`, with the position just past it, or
/// `None` if no item starts there (the key would be empty).
pub open spec fn spec_item(s: Seq<u8>, i: int) -> Option<(SpecPair, int)>
    recommends
        0 <= i <= s.len(),
{
    let k = spec_key_end(s, i);
    if k == i {
        None
    } else if k < s.len() && s[k] == EQUALS {
        let v = spec_value_end(s, k + 1);
        Some(((s.subrange(i, k), Some(s.subrange(k + 1, v))), v))
    } else {
        Some(((s.subrange(i, k), None), k))
    }
}

proof fn lemma_item_bounds(s: Seq<u8>, i: int)
    requires
        0 <= i <= s.len(),
    ensures
        spec_item(s, i) matches Some((p, e)) ==> i < e <= s.len(),
{
    lemma_key_end_bounds(s, i);
    let k = spec_key_end(s, i);
    if k != i && k < s.len() && s[k] == EQUALS {
        lemma_value_end_bounds(s, k + 1);
    }
}

/// The comma-separated associations starting at `i`, with the position just
/// past the last of them.  A missing item after a comma fails the whole
/// sequence; bytes after the last item are left for the caller to judge.
pub open spec fn spec_items(s: Seq<u8>, i: int) -> Option<(Seq<SpecPair>, int)>
    decreases s.len() - i when 0 <= i <= s.len() via check_items_decreases
{
    match spec_item(s, i) {
        None => None,
        Some((p, e)) => {
            if e < s.len() && s[e] == COMMA {
                match spec_items(s, e + 1) {
                    None => None,
                    Some((tail, end)) => Some((seq![p] + tail, end)),
                }
            } else {
                Some((seq![p], e))
            }
        },
    }
}

#[via_fn]
proof fn check_items_decreases(s: Seq<u8>, i: int) {
    lemma_item_bounds(s, i);
}

pub proof fn lemma_items_bounds(s: Seq<u8>, i: int)
    requires
        0 <= i <= s.len(),
    ensures
        spec_items(s, i) matches Some((items, end)) ==> i < end <= s.len() && items.len() >= 1,
    decreases s.len() - i,
{
    lemma_item_bounds(s, i);
    if let Some((p, e)) = spec_item(s, i) {
        if e < s.len() && s[e] == COMMA {
            lemma_items_bounds(s, e + 1);
        }
    }
}

// ---------------------------------------------------------------------------
// Executable scanner
// ---------------------------------------------------------------------------

/// Scans a key starting at `i` and returns its end position.
fn key(s: &[u8], i: usize) -> (r: usize)
    requires
        i <= s@.len(),
    ensures
        r == spec_key_end(s@, i as int),
        i <= r <= s@.len(),
{
    let mut j = i;
    while j < s.len() && s[j] != COMMA && s[j] != EQUALS
        invariant
            i <= j <= s@.len(),
            spec_key_end(s@, i as int) == spec_key_end(s@, j as int),
        decreases s@.len() - j,
    {
        j = j + 1;
    }
    j
}

/// Scans for the closing `]` of a bracket list whose contents start at `i`
/// and returns the position of that `]`, or the input length if there is
/// none.
fn close(s: &[u8], i: usize) -> (r: usize)
    requires
        i <= s@.len(),
    ensures
        r == spec_close(s@, i as int),
        i <= r <= s@.len(),
{
    let mut j = i;
    while j < s.len() && s[j] != CLOSE
        invariant
            i <= j <= s@.len(),
            spec_close(s@, i as int) == spec_close(s@, j as int),
        decreases s@.len() - j,
    {
        j = j + 1;
    }
    j
}

/// Scans a bare run whose first byte stands before `i` and returns its end:
/// the first `,` or `[` at or after `i`, or the input length.
fn bare(s: &[u8], i: usize) -> (r: usize)
    requires
        i <= s@.len(),
    ensures
        r == spec_bare_end(s@, i as int),
        i <= r <= s@.len(),
{
    let mut j = i;
    while j < s.len() && s[j] != COMMA && s[j] != OPEN
        invariant
            i <= j <= s@.len(),
            spec_bare_end(s@, i as int) == spec_bare_end(s@, j as int),
        decreases s@.len() - j,
    {
        j = j + 1;
    }
    j
}

/// Scans a value starting at `i` and returns its end position.
fn value(s: &[u8], i: usize) -> (r: usize)
    requires
        i <= s@.len(),
    ensures
        r == spec_value_end(s@, i as int),
        i <= r <= s@.len(),
{
    let mut j = i;
    loop
        invariant
            i <= j <= s@.len(),
            spec_value_end(s@, i as int) == spec_value_end(s@, j as int),
        ensures
            i <= j <= s@.len(),
            j == spec_value_end(s@, i as int),
        decreases s@.len() - j,
    {
        if j == s.len() {
            break;
        }
        let b = s[j];
        if b == OPEN {
            let c = close(s, j + 1);
            if c < s.len() {
                j = c + 1;
            } else {
                break;
            }
        } else if b == COMMA {
            break;
        } else {
            j = bare(s, j + 1);
        }
    }
    j
}

/// Token spans of one parsed association: the key as `[key_lo, key_hi)`, the
/// value (if any) as `[lo, hi)`, and the position just past the whole item.
#[derive(Clone, Copy)]
pub struct KvToken {
    pub key_lo: usize,
    pub key_hi: usize,
    pub val: Option<(usize, usize)>,
    pub end: usize,
}

/// The association a token span denotes, read back from the input.
pub open spec fn spec_token_pair(t: KvToken, s: Seq<u8>) -> SpecPair {
    (
        s.subrange(t.key_lo as int, t.key_hi as int),
        match t.val {
            Some((lo, hi)) => Some(s.subrange(lo as int, hi as int)),
            None => None,
        },
    )
}

/// Span bounds a token produced at position `i` of an input of length `n`
/// satisfies.
pub open spec fn spec_token_wf(t: KvToken, i: int, n: int) -> bool {
    &&& i == t.key_lo < t.key_hi <= n
    &&& t.val matches Some((lo, hi)) ==> t.key_hi < lo <= hi <= n
    &&& i < t.end <= n
}

/// Parses the single association starting at `i`, or returns `None` if none
/// starts there.
pub fn kv(s: &[u8], i: usize) -> (r: Option<KvToken>)
    requires
        i <= s@.len(),
    ensures
        match r {
            Some(t) => {
                &&& spec_item(s@, i as int) == Some((spec_token_pair(t, s@), t.end as int))
                &&& spec_token_wf(t, i as int, s@.len() as int)
            },
            None => spec_item(s@, i as int) is None,
        },
{
    let k = key(s, i);
    if k == i {
        return None;
    }
    if k < s.len() && s[k] == EQUALS {
        let v = value(s, k + 1);
        Some(KvToken { key_lo: i, key_hi: k, val: Some((k + 1, v)), end: v })
    } else {
        Some(KvToken { key_lo: i, key_hi: k, val: None, end: k })
    }
}

/// The associations a sequence of token spans denotes.
pub open spec fn spec_token_pairs(toks: Seq<KvToken>, s: Seq<u8>) -> Seq<SpecPair> {
    toks.map_values(|t: KvToken| spec_token_pair(t, s))
}

/// Parses the whole input into token spans, one association after another,
/// or returns `None` if the grammar does not match the full input.  The
/// empty input does not match (its key would be empty); the caller treats it
/// as a zero-item parse.
pub fn for_each(s: &[u8]) -> (r: Option<Vec<KvToken>>)
    ensures
        match r {
            Some(toks) => {
                &&& spec_items(s@, 0) == Some((spec_token_pairs(toks@, s@), s@.len() as int))
                &&& forall|j: int|
                    0 <= j < toks@.len() ==> spec_token_wf(
                        #[trigger] toks@[j],
                        toks@[j].key_lo as int,
                        s@.len() as int,
                    )
            },
            None => !(spec_items(s@, 0) matches Some((items, end)) && end == s@.len()),
        },
{
    let mut toks: Vec<KvToken> = Vec::new();
    let mut pos: usize = 0;
    loop
        invariant
            pos <= s@.len(),
            forall|j: int|
                0 <= j < toks@.len() ==> spec_token_wf(
                    #[trigger] toks@[j],
                    toks@[j].key_lo as int,
                    s@.len() as int,
                ),
            match spec_items(s@, pos as int) {
                Some((tail, end)) => spec_items(s@, 0) == Some(
                    (spec_token_pairs(toks@, s@) + tail, end),
                ),
                None => spec_items(s@, 0) is None,
            },
        decreases s@.len() - pos,
    {
        let ghost pairs_before = spec_token_pairs(toks@, s@);
        let t = match kv(s, pos) {
            Some(t) => t,
            None => {
                return None;
            },
        };
        let ghost p = spec_token_pair(t, s@);
        let end = t.end;
        toks.push(t);
        proof {
            assert(spec_token_pairs(toks@, s@) =~= pairs_before + seq![p]);
        }
        if end == s.len() {
            proof {
                assert(spec_items(s@, pos as int) == Some((seq![p], end as int)));
                assert(pairs_before + seq![p] + Seq::<SpecPair>::empty() =~= pairs_before
                    + seq![p]);
            }
            return Some(toks);
        }
        if s[end] == COMMA {
            proof {
                let next = end + 1;
                match spec_items(s@, next as int) {
                    Some((tail2, end2)) => {
                        assert(spec_items(s@, pos as int) == Some((seq![p] + tail2, end2)));
                        assert(pairs_before + (seq![p] + tail2) =~= (pairs_before + seq![p])
                            + tail2);
                    },
                    None => {
                        assert(spec_items(s@, pos as int) is None);
                    },
                }
            }
            pos = end + 1;
        } else {
            proof {
                assert(spec_items(s@, pos as int) == Some((seq![p], end as int)));
            }
            return None;
        }
    }
}

/// What a whole input denotes: its associations, if the grammar matches the
/// full input and the store capacity is not exceeded.
pub open spec fn spec_parse(s: Seq<u8>) -> Option<Seq<SpecPair>> {
    if s.len() == 0 {
        Some(Seq::empty())
    } else {
        match spec_items(s, 0) {
            Some((items, end)) => {
                if end == s.len() && items.len() <= crate::RTE_KVARGS_MAX {
                    Some(items)
                } else {
                    None
                }
            },
            None => None,
        }
    }
}

/// Every key of a successfully parsed input is non-empty.
pub proof fn lemma_parse_keys_nonempty(s: Seq<u8>)
    requires
        spec_parse(s) is Some,
    ensures
        forall|j: int|
            0 <= j < spec_parse(s)->Some_0.len() ==> (#[trigger] spec_parse(s)->Some_0[j]).0.len()
                >= 1,
{
    if s.len() > 0 {
        lemma_items_keys_nonempty(s, 0);
    }
}

proof fn lemma_items_keys_nonempty(s: Seq<u8>, i: int)
    requires
        0 <= i <= s.len(),
        spec_items(s, i) is Some,
    ensures
        forall|j: int|
            0 <= j < spec_items(s, i)->Some_0.0.len() ==> (#[trigger] spec_items(
                s,
                i,
            )->Some_0.0[j]).0.len() >= 1,
    decreases s.len() - i,
{
    lemma_key_end_bounds(s, i);
    lemma_item_bounds(s, i);
    let (p, e) = spec_item(s, i)->Some_0;
    if e < s.len() && s[e] == COMMA {
        lemma_items_keys_nonempty(s, e + 1);
        let tail = spec_items(s, e + 1)->Some_0.0;
        assert forall|j: int| 0 <= j < spec_items(s, i)->Some_0.0.len() implies (
        #[trigger] spec_items(s, i)->Some_0.0[j]).0.len() >= 1 by {
            if j > 0 {
                assert(spec_items(s, i)->Some_0.0[j] == tail[j - 1]);
            }
        }
    }
}

// ---------------------------------------------------------------------------
// Round trip
// ---------------------------------------------------------------------------

/// The canonical text of one association: `key=value`, or the bare key when
/// there is no value.
pub open spec fn spec_join_pair(p: SpecPair) -> Seq<u8> {
    match p.1 {
        Some(v) => p.0 + seq![EQUALS] + v,
        None => p.0,
    }
}

/// The canonical text of a sequence of associations, joined with commas.
pub open spec fn spec_join(items: Seq<SpecPair>) -> Seq<u8>
    decreases items.len(),
{
    if items.len() == 0 {
        Seq::empty()
    } else if items.len() == 1 {
        spec_join_pair(items[0])
    } else {
        spec_join_pair(items[0]) + seq![COMMA] + spec_join(items.drop_first())
    }
}

proof fn lemma_items_join(s: Seq<u8>, i: int)
    requires
        0 <= i <= s.len(),
        spec_items(s, i) is Some,
    ensures
        spec_join(spec_items(s, i)->Some_0.0) == s.subrange(i, spec_items(s, i)->Some_0.1),
    decreases s.len() - i,
{
    lemma_items_bounds(s, i);
    lemma_item_bounds(s, i);
    lemma_key_end_bounds(s, i);
    let (items, end) = spec_items(s, i)->Some_0;
    let (p, e) = spec_item(s, i)->Some_0;
    let k = spec_key_end(s, i);
    if k < s.len() && s[k] == EQUALS {
        lemma_value_end_bounds(s, k + 1);
        assert(spec_join_pair(p) =~= s.subrange(i, e));
    } else {
        assert(spec_join_pair(p) =~= s.subrange(i, e));
    }
    if e < s.len() && s[e] == COMMA {
        let (tail, _tail_end) = spec_items(s, e + 1)->Some_0;
        lemma_items_bounds(s, e + 1);
        lemma_items_join(s, e + 1);
        assert(items.drop_first() =~= tail);
        assert(items[0] == p);
        assert(spec_join(items) == spec_join_pair(p) + seq![COMMA] + spec_join(tail));
        assert(s.subrange(i, e) + seq![COMMA] + s.subrange(e + 1, end) =~= s.subrange(i, end));
    } else {
        assert(items =~= seq![p]);
    }
}

/// Round trip: the canonical text of a parsed input is the input itself, so
/// rejoining the associations of any store with `key=value`/`key` and `,`
/// and parsing the result again yields the same associations.
pub proof fn lemma_round_trip(s: Seq<u8>)
    requires
        spec_parse(s) is Some,
    ensures
        spec_join(spec_parse(s)->Some_0) == s,
        spec_parse(spec_join(spec_parse(s)->Some_0)) == spec_parse(s),
{
    if s.len() == 0 {
        assert(spec_join(spec_parse(s)->Some_0) =~= s);
    } else {
        lemma_items_join(s, 0);
        assert(s.subrange(0, s.len() as int) =~= s);
    }
}

} // verus!
