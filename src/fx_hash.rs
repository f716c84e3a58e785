//! rustc_hash's hash sets and maps, as the rules use them.
use vstd::prelude::*;
use rustc_hash::{FxBuildHasher, FxHashMap, FxHashSet};

use crate::specificity::Seen;

verus! {

/// rustc_hash's deterministic hasher builder.
#[verifier::external_type_specification]
#[verifier::external_body]
pub struct ExFxBuildHasher(FxBuildHasher);

/// Relies on `HashSet::insert` with rustc_hash's `FxBuildHasher`: the key is in the
/// set afterwards, and the result says whether it was absent before.
#[verifier::external_body]
pub(crate) fn insert_pair(seen: &mut FxHashSet<(u32, u32)>, key: (u32, u32)) -> (fresh: bool)
    ensures
        final(seen)@ == old(seen)@.insert(key),
        fresh == !old(seen)@.contains(key),
{
    seen.insert(key)
}

/// Relies on `HashSet::insert` with rustc_hash's `FxBuildHasher`: the id is in the
/// set afterwards, and the result says whether it was absent before.
#[verifier::external_body]
pub(crate) fn insert_rule_id(visited: &mut FxHashSet<usize>, id: usize) -> (fresh: bool)
    ensures
        final(visited)@ == old(visited)@.insert(id),
        fresh == !old(visited)@.contains(id),
{
    visited.insert(id)
}

/// Maps from tail-selector text to the last selector seen with that tail.
pub type TailMap = FxHashMap<String, Seen>;

/// The entries of a map from tail-selector text, keyed by that text.
pub uninterp spec fn tail_entries(m: TailMap) -> Map<Seq<char>, Seen>;

/// Relies on `HashMap::default` with rustc_hash's `FxBuildHasher`: the map is empty.
#[verifier::external_body]
pub(crate) fn new_tail_map() -> (r: TailMap)
    ensures
        forall|k: Seq<char>| !#[trigger] tail_entries(r).contains_key(k),
{
    FxHashMap::default()
}

/// Relies on `HashMap::get` with rustc_hash's `FxBuildHasher`: the entry under the
/// key, found by the key's text, as `String`'s `Eq` and `Hash` compare it.
#[verifier::external_body]
pub(crate) fn get_tail(m: &TailMap, key: &String) -> (r: Option<Seen>)
    ensures
        r == (if tail_entries(*m).contains_key(key@) { Some(tail_entries(*m)[key@]) } else { None }),
{
    m.get(key).copied()
}

/// Relies on `HashMap::insert` with rustc_hash's `FxBuildHasher`: afterwards the key's
/// text maps to the value, and every other entry is unchanged.
#[verifier::external_body]
pub(crate) fn insert_tail(m: &mut TailMap, key: String, value: Seen)
    ensures
        tail_entries(*final(m)) == tail_entries(*old(m)).insert(key@, value),
{
    m.insert(key, value);
}

} // verus!
