//! Laws that relate the operations of a weighted map, stated over the
//! abstract state that their contracts describe.
use vstd::prelude::*;

use crate::model::{
    inserted, keys_at, saturating_add_spec, saturating_sub_spec, weight_added, weight_subtracted,
};

verus! {

/// `x` held to the range of a weight.
pub open spec fn clamp_weight(x: int) -> int {
    if x < 0 {
        0
    } else if x > u32::MAX {
        u32::MAX as int
    } else {
        x
    }
}

/// A weight `w` changed by each signed delta of `ds` in turn, held to the
/// range of a weight after every step.
pub open spec fn clamped_walk(w: int, ds: Seq<int>) -> int
    decreases ds.len(),
{
    if ds.len() == 0 {
        w
    } else {
        clamp_weight(clamped_walk(w, ds.drop_last()) + ds.last())
    }
}

/// The state after each signed delta of `ds` in turn is applied to the
/// weight of `k`: a delta of zero or more is added, a negative one is
/// subtracted.
pub open spec fn adjusted<KV, V>(m: Map<KV, (V, u32)>, k: KV, ds: Seq<int>) -> Map<KV, (V, u32)>
    decreases ds.len(),
{
    if ds.len() == 0 {
        m
    } else {
        let m1 = adjusted(m, k, ds.drop_last());
        let d = ds.last();
        if d >= 0 {
            weight_added(m1, k, d as u32)
        } else {
            weight_subtracted(m1, k, (-d) as u32)
        }
    }
}

/// Whether every delta of `ds` fits in a weight.
pub open spec fn deltas_fit(ds: Seq<int>) -> bool {
    forall|i: int| 0 <= i < ds.len() ==> -(u32::MAX as int) <= #[trigger] ds[i] <= u32::MAX
}

/// After inserting `v` under `k`, the value found under `k` is `v`.
pub proof fn law_insert_then_get<KV, V>(m: Map<KV, (V, u32)>, k: KV, v: V)
    ensures
        inserted(m, k, v).contains_key(k),
        inserted(m, k, v)[k].0 == v,
{
}

/// A key that has just been inserted has weight zero.
pub proof fn law_inserted_weight_is_zero<KV, V>(m: Map<KV, (V, u32)>, k: KV, v: V)
    ensures
        inserted(m, k, v)[k].1 == 0,
{
}

/// Adding and subtracting weight saturates at every step: after a run of
/// signed deltas the weight of a key is its old weight moved by each delta
/// in turn and held to `0..=u32::MAX` after each one, while its value and
/// every other entry stay as they were.
pub proof fn law_adjustments_saturate_stepwise<KV, V>(m: Map<KV, (V, u32)>, k: KV, ds: Seq<int>)
    requires
        m.contains_key(k),
        deltas_fit(ds),
    ensures
        adjusted(m, k, ds).dom() == m.dom(),
        adjusted(m, k, ds)[k].0 == m[k].0,
        adjusted(m, k, ds)[k].1 == clamped_walk(m[k].1 as int, ds),
        forall|x: KV| x != k && #[trigger] m.contains_key(x) ==> adjusted(m, k, ds)[x] == m[x],
    decreases ds.len(),
{
    if ds.len() > 0 {
        let rest = ds.drop_last();
        assert(deltas_fit(rest)) by {
            assert forall|i: int| 0 <= i < rest.len() implies -(u32::MAX as int) <= #[trigger] rest[i]
                <= u32::MAX by {
                assert(rest[i] == ds[i]);
            }
        }
        law_adjustments_saturate_stepwise(m, k, rest);
        let m1 = adjusted(m, k, rest);
        let d = ds.last();
        assert(-(u32::MAX as int) <= ds[ds.len() - 1] <= u32::MAX);
        assert(m1.contains_key(k));
        if d >= 0 {
            assert(saturating_add_spec(m1[k].1, d as u32) == clamp_weight(m1[k].1 + d));
        } else {
            assert(saturating_sub_spec(m1[k].1, (-d) as u32) == clamp_weight(m1[k].1 + d));
        }
        assert(adjusted(m, k, ds).dom() =~= m.dom());
    }
}

/// A key has weight `w` exactly when it is among the keys with weight `w`.
pub proof fn law_bucket_membership<KV, V>(m: Map<KV, (V, u32)>, w: u32, k: KV)
    ensures
        keys_at(m, w).contains(k) <==> m.contains_key(k) && m[k].1 == w,
{
}

/// Changing the weight of a key that was never inserted changes nothing.
pub proof fn law_absent_key_untouched<KV, V>(m: Map<KV, (V, u32)>, k: KV, d: u32)
    requires
        !m.contains_key(k),
    ensures
        weight_added(m, k, d) == m,
        weight_subtracted(m, k, d) == m,
{
}

/// Inserting a key again, after weight was added to it, resets its weight to
/// zero, keeps the new value, and takes the key out of the keys with its
/// former weight.
pub proof fn law_reinsert_resets_weight<KV, V>(m: Map<KV, (V, u32)>, k: KV, v: V, d: u32, v2: V)
    requires
        d > 0,
    ensures
        ({
            let built = weight_added(inserted(m, k, v), k, d);
            let again = inserted(built, k, v2);
            &&& built[k].1 == d
            &&& again[k] == (v2, 0u32)
            &&& !keys_at(again, built[k].1).contains(k)
            &&& keys_at(again, 0).contains(k)
        }),
{
}

} // verus!
