//! The source of randomness for tile spawning, kept behind one small
//! wrapper so that everything around it stays deterministic and verified.

use vstd::prelude::*;

verus! {

/// Relies on rand::random_range over `min..max_exclusive`: the sampled
/// value lies in the half-open range, which the precondition keeps
/// non-empty (rand panics on an empty range).
#[verifier::external_body]
pub(crate) fn next_in_range(min: usize, max_exclusive: usize) -> (r: usize)
    requires
        min < max_exclusive,
    ensures
        min <= r < max_exclusive,
{
    rand::random_range(min..max_exclusive)
}

/// Whether a value occurs in the list.
fn contains_value(xs: &Vec<usize>, v: usize) -> (r: bool)
    ensures
        r == xs@.contains(v),
{
    let mut i: usize = 0;
    while i < xs.len()
        invariant
            i <= xs@.len(),
            forall|k: int| 0 <= k < i ==> xs@[k] != v,
        decreases xs@.len() - i,
    {
        if xs[i] == v {
            return true;
        }
        i = i + 1;
    }
    proof {
        if xs@.contains(v) {
            let k = choose|k: int| 0 <= k < xs@.len() && xs@[k] == v;
            assert(xs@[k] != v);
        }
    }
    false
}

/// A random value from `min..max_exclusive` that avoids the forbidden
/// list, drawn uniformly from the allowed values; nothing comes back only
/// when the forbidden list covers the whole range.
pub fn next_excluding(min: usize, max_exclusive: usize, forbidden: &Vec<usize>) -> (r: Option<
    usize,
>)
    ensures
        r is Some <==> exists|v: usize|
            min <= v < max_exclusive && !(#[trigger] forbidden@.contains(v)),
        r is Some ==> min <= r->Some_0 < max_exclusive && !forbidden@.contains(r->Some_0),
{
    let mut allowed: Vec<usize> = Vec::new();
    let mut v: usize = min;
    while v < max_exclusive
        invariant
            min <= v,
            forall|k: int|
                0 <= k < allowed@.len() ==> min <= #[trigger] allowed@[k] < max_exclusive && !(
                forbidden@.contains(allowed@[k])),
            forall|w: usize|
                min <= w < v && !(#[trigger] forbidden@.contains(w)) ==> allowed@.contains(w),
        decreases max_exclusive - v,
    {
        let ghost pre = allowed@;
        let absent = !contains_value(forbidden, v);
        if absent {
            allowed.push(v);
        }
        proof {
            assert forall|w: usize|
                min <= w < v + 1 && !(#[trigger] forbidden@.contains(w)) implies allowed@.contains(
                w,
            ) by {
                if w < v {
                    assert(pre.contains(w));
                    let k = choose|k: int| 0 <= k < pre.len() && pre[k] == w;
                    assert(allowed@[k] == w);
                } else {
                    assert(allowed@[allowed@.len() - 1] == w);
                }
            }
        }
        v = v + 1;
    }
    if allowed.len() == 0 {
        proof {
            if exists|w: usize| min <= w < max_exclusive && !(#[trigger] forbidden@.contains(w)) {
                let w = choose|w: usize|
                    min <= w < max_exclusive && !(#[trigger] forbidden@.contains(w));
                assert(allowed@.contains(w));
            }
        }
        return None;
    }
    let idx = next_in_range(0, allowed.len());
    let picked = allowed[idx];
    proof {
        assert(allowed@.contains(picked));
    }
    Some(picked)
}

} // verus!
