//! The table of active flows: a hash map of the `rustc-hash` crate, by bucket.
//!
//! `rustc_hash::FxHashMap` is the standard hash map under the hasher builder
//! `rustc_hash::FxBuildHasher`. That builder has no state and its hasher is a
//! pure function of what it is fed, so equal keys always find each other; the
//! map's view is the key-to-value map it holds.
use vstd::prelude::*;

use crate::flow::FlowQueue;
use rustc_hash::FxHashMap;

verus! {

/// `rustc_hash::FxBuildHasher`, the hasher builder of an `FxHashMap`
#[verifier::external_type_specification]
#[verifier::external_body]
pub struct ExFxBuildHasher(rustc_hash::FxBuildHasher);

/// `FxHashMap::get`: the value under the key, if there is one.
#[verifier::external_body]
pub(crate) fn flow_ref(flows: &FxHashMap<u32, FlowQueue>, bucket: u32) -> (flow: Option<&FlowQueue>)
    ensures
        match flow {
            Some(f) => flows@.contains_key(bucket) && *f == flows@[bucket],
            None => !flows@.contains_key(bucket),
        },
{
    flows.get(&bucket)
}

/// `FxHashMap::get_mut`: the value under the key, if there is one, lent so that
/// what becomes of it stands in the map afterwards; no other entry changes.
#[verifier::external_body]
pub(crate) fn flow_mut(flows: &mut FxHashMap<u32, FlowQueue>, bucket: u32) -> (flow: Option<
    &mut FlowQueue,
>)
    ensures
        match flow {
            Some(f) => {
                &&& old(flows)@.contains_key(bucket)
                &&& *f == old(flows)@[bucket]
                &&& final(flows)@ == old(flows)@.insert(bucket, *final(f))
            },
            None => !old(flows)@.contains_key(bucket) && final(flows)@ == old(flows)@,
        },
{
    flows.get_mut(&bucket)
}

/// `FxHashMap::insert`: the key then maps to the value; no other entry changes.
#[verifier::external_body]
pub(crate) fn insert_flow(flows: &mut FxHashMap<u32, FlowQueue>, bucket: u32, flow: FlowQueue)
    ensures
        final(flows)@ == old(flows)@.insert(bucket, flow),
{
    flows.insert(bucket, flow);
}

/// `FxHashMap::remove`: the key is then gone; no other entry changes.
#[verifier::external_body]
pub(crate) fn remove_flow(flows: &mut FxHashMap<u32, FlowQueue>, bucket: u32)
    ensures
        final(flows)@ == old(flows)@.remove(bucket),
{
    flows.remove(&bucket);
}

/// `FxHashMap::keys`: each key of the map once, in no particular order.
#[verifier::external_body]
pub(crate) fn buckets(flows: &FxHashMap<u32, FlowQueue>) -> (keys: Vec<u32>)
    ensures
        keys@.no_duplicates(),
        forall|b: u32| keys@.contains(b) <==> #[trigger] flows@.contains_key(b),
{
    flows.keys().copied().collect()
}

} // verus!
