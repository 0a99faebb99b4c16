use vstd::prelude::*;

use crate::key::PoolKey;
use crate::pool::{first_free, inserted, wrap_between, TypePool};

verus! {

/// Successive insertions with no removal in between hand out keys with
/// pairwise distinct slot ids, and each key names the value inserted with it
/// in the last pool.
pub proof fn law_inserts_distinct<T>(
    values: Seq<T>,
    pools: Seq<TypePool<T>>,
    keys: Seq<PoolKey<T>>,
)
    requires
        pools.len() == values.len() + 1,
        keys.len() == values.len(),
        pools[0].wf(),
        forall|i: int|
            0 <= i < values.len() ==> inserted(pools[i], values[i], keys[i], #[trigger] pools[i + 1]),
    ensures
        forall|i: int, j: int|
            0 <= i < keys.len() && 0 <= j < keys.len() && i != j ==> #[trigger] keys[i].slot_id()
                != #[trigger] keys[j].slot_id(),
        forall|i: int|
            0 <= i < keys.len() ==> pools.last()@.contains_key(#[trigger] keys[i].slot_id())
                && pools.last()@[keys[i].slot_id()] == values[i],
    decreases values.len(),
{
    if values.len() > 0 {
        let n = values.len() - 1;
        law_inserts_distinct(values.drop_last(), pools.drop_last(), keys.drop_last());
        assert(inserted(pools[n], values[n], keys[n], pools[n + 1]));
        assert forall|i: int| 0 <= i < n implies pools[n]@.contains_key(
            #[trigger] keys[i].slot_id(),
        ) && pools[n]@[keys[i].slot_id()] == values[i] by {
            assert(pools.drop_last().last() == pools[n]);
            assert(keys.drop_last()[i] == keys[i]);
            assert(values.drop_last()[i] == values[i]);
        }
        assert forall|i: int, j: int|
            0 <= i < keys.len() && 0 <= j < keys.len() && i != j implies #[trigger] keys[i].slot_id()
            != #[trigger] keys[j].slot_id() by {
            if i < n && j < n {
                assert(keys.drop_last()[i] == keys[i] && keys.drop_last()[j] == keys[j]);
            } else if i < n {
                assert(pools[n]@.contains_key(keys[i].slot_id()));
            } else {
                assert(pools[n]@.contains_key(keys[j].slot_id()));
            }
        }
    }
}

/// A key stamped with the identity of one pool is not owned by a pool of
/// another identity.
pub proof fn law_identity_scoping<T>(a: TypePool<T>, b: TypePool<T>, k: PoolKey<T>)
    requires
        k.pool_id() == a.identity(),
        a.identity() != b.identity(),
    ensures
        k.pool_id() != b.identity(),
{
}

/// An insertion reuses a vacated slot id as soon as every id from the hint
/// up to it is taken: the scan for a free id never skips one.
pub proof fn law_reuse<T>(before: TypePool<T>, value: T, k: PoolKey<T>, after: TypePool<T>, id: usize)
    requires
        inserted(before, value, k, after),
        first_free(before@.dom(), before.hint(), id),
    ensures
        k.slot_id() == id,
{
    let h = before.hint();
    let got = k.slot_id();
    if got != id {
        if h <= got {
            if h <= id {
                if id < got {
                    assert(wrap_between(h, id, got));
                } else {
                    assert(wrap_between(h, got, id));
                }
            } else {
                assert(wrap_between(h, got, id));
            }
        } else {
            if h <= id {
                assert(wrap_between(h, id, got));
            } else if id < got {
                assert(wrap_between(h, id, got));
            } else {
                assert(wrap_between(h, got, id));
            }
        }
    }
}

/// Right after an insertion the key it returned is valid in the pool and
/// names the inserted value.
pub proof fn law_round_trip<T>(before: TypePool<T>, value: T, k: PoolKey<T>, after: TypePool<T>)
    requires
        inserted(before, value, k, after),
    ensures
        k.pool_id() == after.identity(),
        after@.contains_key(k.slot_id()),
        after@[k.slot_id()] == value,
{
}

/// After a removal the removed key is no longer valid in the pool, so
/// neither reading it nor borrowing it in a batch is allowed; every other
/// slot keeps what it held.
pub proof fn law_removal_final<T>(before: TypePool<T>, k: PoolKey<T>, after: TypePool<T>)
    requires
        after@ == before@.remove(k.slot_id()),
    ensures
        !after@.contains_key(k.slot_id()),
        forall|id: usize|
            id != k.slot_id() ==> (#[trigger] after@.contains_key(id) == before@.contains_key(id))
                && (after@.contains_key(id) ==> after@[id] == before@[id]),
{
}

} // verus!
