//! The rustc-hash maps that cache converted entities, keyed by Cranelift entity number.
use rustc_hash::{FxBuildHasher, FxHashMap};
use vstd::prelude::*;

verus! {

#[verifier::external_type_specification]
#[verifier::external_body]
pub struct ExFxBuildHasher(FxBuildHasher);

/// A map from Cranelift entity numbers to indices of the IR context.
pub type FxCache = FxHashMap<u32, usize>;

/// The key-value pairs an `FxHashMap<u32, usize>` holds.
pub uninterp spec fn fx_map_contents(m: FxCache) -> Map<u32, usize>;

/// `FxHashMap::default()`: an empty map.
#[verifier::external_body]
pub(crate) fn fx_map_new() -> (m: FxCache)
    ensures
        fx_map_contents(m).dom().is_empty(),
{
    FxHashMap::default()
}

/// `HashMap::get` on an `FxHashMap`: the value stored under `k`, if any.
#[verifier::external_body]
pub(crate) fn fx_map_get(m: &FxCache, k: u32) -> (r: Option<usize>)
    ensures
        r == (if fx_map_contents(*m).dom().contains(k) {
            Some(fx_map_contents(*m)[k])
        } else {
            None
        }),
{
    m.get(&k).copied()
}

/// `HashMap::insert` on an `FxHashMap`: afterwards `k` maps to `v`, and every other key
/// keeps its value.
#[verifier::external_body]
pub(crate) fn fx_map_insert(m: &mut FxCache, k: u32, v: usize)
    ensures
        fx_map_contents(*final(m)) == fx_map_contents(*old(m)).insert(k, v),
{
    m.insert(k, v);
}

} // verus!
