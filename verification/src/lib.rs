//! Parser and fixed-capacity store for flat configuration strings of the
//! form `key1=value1,key2,key3=[a,b,c]`.
//!
//! A raw byte string is parsed into an ordered list of key/value
//! associations.  Values may be empty, absent ("only-key"), or bracketed
//! lists whose internal commas are not delimiters.  The associations are
//! copied into a single owned, nul-separated byte arena and served through
//! lookup, counting and handler-based processing entry points.
use vstd::prelude::*;

pub mod grammar;
pub mod process;
pub mod query;
pub mod store;

pub use process::{rte_kvargs_process, rte_kvargs_process_opt, ArgHandler};
pub use query::{rte_kvargs_count, rte_kvargs_get, rte_kvargs_get_with_value};
pub use store::{
    bump_insert, rte_kvargs_free, rte_kvargs_parse, rte_kvargs_parse_delim, try_parse, Base, Iter,
    KVargs, ParseError,
};

verus! {

/// Maximum number of key/value associations a store can hold.  Parsing an
/// input with more associations fails as a whole.
pub const RTE_KVARGS_MAX: usize = 32;

} // verus!
