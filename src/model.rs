//! The abstract state of a weighted map and what each operation does to it.
//!
//! A state is a map from key views to an entry `(value, weight)`.
use vstd::prelude::*;

verus! {

/// Weight addition that stops at `u32::MAX` instead of wrapping.
pub open spec fn saturating_add_spec(w: u32, d: u32) -> u32 {
    if w + d > u32::MAX {
        u32::MAX
    } else {
        (w + d) as u32
    }
}

/// Weight subtraction that stops at zero instead of wrapping.
pub open spec fn saturating_sub_spec(w: u32, d: u32) -> u32 {
    if w < d {
        0
    } else {
        (w - d) as u32
    }
}

/// The state after inserting `v` under `k`: the value is (re)set and the
/// weight starts again at zero.
pub open spec fn inserted<KV, V>(m: Map<KV, (V, u32)>, k: KV, v: V) -> Map<KV, (V, u32)> {
    m.insert(k, (v, 0u32))
}

/// The state after adding `d` to the weight of `k`; nothing changes when `k`
/// is absent.
pub open spec fn weight_added<KV, V>(m: Map<KV, (V, u32)>, k: KV, d: u32) -> Map<KV, (V, u32)> {
    if m.contains_key(k) {
        m.insert(k, (m[k].0, saturating_add_spec(m[k].1, d)))
    } else {
        m
    }
}

/// The state after subtracting `d` from the weight of `k`; nothing changes
/// when `k` is absent.
pub open spec fn weight_subtracted<KV, V>(m: Map<KV, (V, u32)>, k: KV, d: u32) -> Map<
    KV,
    (V, u32),
> {
    if m.contains_key(k) {
        m.insert(k, (m[k].0, saturating_sub_spec(m[k].1, d)))
    } else {
        m
    }
}

/// The keys whose current weight is `w`.
pub open spec fn keys_at<KV, V>(m: Map<KV, (V, u32)>, w: u32) -> Set<KV> {
    m.dom().filter(|k: KV| m[k].1 == w)
}

/// The views of a sequence of keys.
pub open spec fn key_views<K: View>(s: Seq<K>) -> Seq<K::V> {
    s.map_values(|k: K| k@)
}

} // verus!
