//! Memorization. Not quite memoization because the memory must be passed
//! in.
use vstd::prelude::*;

use std::collections::HashMap;

verus! {

/// Look the request up in the memory; on a miss, calculate the answer and
/// remember it. What this promises holds whenever the key type hashes
/// soundly, which every primitive key does.
pub fn recall<T, R, F>(request: T, memory: &mut HashMap<T, R>, calculate: F) -> (r: R) where
    T: Copy + PartialEq + Eq + core::hash::Hash,
    R: Copy,
    F: Fn(T) -> R,

    requires
        call_requires(calculate, (request,)),
    ensures
        vstd::std_specs::hash::obeys_key_model::<T>()
            && vstd::std_specs::hash::builds_valid_hashers::<
            std::collections::hash_map::RandomState,
        >() ==> {
            &&& old(memory)@.contains_key(request) ==> r == old(memory)@[request]
                && final(memory)@ == old(memory)@
            &&& !old(memory)@.contains_key(request) ==> call_ensures(calculate, (request,), r)
                && final(memory)@ == old(memory)@.insert(request, r)
        },
{
    match memory.get(&request) {
        Some(cached) => {
            return *cached;
        },
        None => {},
    }
    let answer = calculate(request);
    memory.insert(request, answer);
    answer
}

} // verus!
