use vstd::prelude::*;

use crate::key::PoolKey;
use crate::slots::slots_unique;

verus! {

/// Some key of `keys` names slot id `id`.
pub open spec fn listed<T>(keys: Seq<PoolKey<T>>, id: usize) -> bool {
    exists|j: int| 0 <= j < keys.len() && #[trigger] keys[j].slot_id() == id
}

/// Returns `true` iff some key of `keys` names slot id `id`.
pub fn is_listed<T>(keys: &Vec<PoolKey<T>>, id: usize) -> (r: bool)
    ensures
        r == listed(keys@, id),
{
    let mut j: usize = 0;
    while j < keys.len()
        invariant
            j <= keys@.len(),
            forall|i: int| 0 <= i < j ==> #[trigger] keys@[i].slot_id() != id,
        decreases keys@.len() - j,
    {
        if keys[j].slot() == id {
            return true;
        }
        j = j + 1;
    }
    false
}

/// Hands out, for each entry of `s` whose slot id some key of `keys` names,
/// that entry's key (stamped with `pool`) and a mutable reference to its
/// value, in the order of `s`. What is written through the references is
/// what `s` holds afterwards; the other entries are left as they were.
pub fn borrow_listed<'a, T>(s: &'a mut [(usize, T)], keys: &Vec<PoolKey<T>>, pool: usize) -> (r:
    Vec<(PoolKey<T>, &'a mut T)>)
    requires
        slots_unique(old(s)@),
    ensures
        final(s)@.len() == old(s)@.len(),
        forall|p: int|
            0 <= p < old(s)@.len() ==> #[trigger] final(s)@[p].0 == old(s)@[p].0,
        forall|p: int|
            0 <= p < old(s)@.len() && !listed(keys@, old(s)@[p].0) ==> #[trigger] final(s)@[p]
                == old(s)@[p],
        forall|p: int|
            0 <= p < old(s)@.len() && listed(keys@, old(s)@[p].0) ==> exists|i: int|
                0 <= i < r@.len() && #[trigger] r@[i].0.slot_id() == old(s)@[p].0,
        forall|i: int|
            0 <= i < r@.len() ==> exists|p: int|
                0 <= p < old(s)@.len() && old(s)@[p].0 == #[trigger] r@[i].0.slot_id() && *r@[i].1
                    == old(s)@[p].1 && final(s)@[p].1 == *final(r@[i].1),
        forall|i: int| 0 <= i < r@.len() ==> #[trigger] r@[i].0.pool_id() == pool,
        forall|i: int| 0 <= i < r@.len() ==> listed(keys@, #[trigger] r@[i].0.slot_id()),
        forall|i: int, j: int|
            0 <= i < r@.len() && 0 <= j < r@.len() && i != j ==> #[trigger] r@[i].0.slot_id()
                != #[trigger] r@[j].0.slot_id(),
    decreases old(s)@.len(),
{
    if s.len() == 0 {
        return Vec::new();
    }
    let ghost s0 = s@;
    let (head, tail) = s.split_at_mut(1);
    assert(slots_unique(tail@)) by {
        assert forall|i: int, j: int|
            0 <= i < tail@.len() && 0 <= j < tail@.len() && i != j implies #[trigger] tail@[i].0
            != #[trigger] tail@[j].0 by {
            assert(tail@[i] == s0[i + 1] && tail@[j] == s0[j + 1]);
        }
    }
    let ghost t0 = tail@;
    let mut r = borrow_listed(tail, keys, pool);
    let ghost rest = r@;
    let first = head.first_mut().unwrap();
    let id = first.0;
    let picked = is_listed(keys, id);
    if picked {
        let value = &mut first.1;
        r.insert(0, (PoolKey::new(id, pool), value));
    }
    proof {
        assert forall|p: int|
            0 <= p < s0.len() && listed(keys@, s0[p].0) implies exists|i: int|
            0 <= i < r@.len() && #[trigger] r@[i].0.slot_id() == s0[p].0 by {
            if p == 0 {
                assert(r@[0].0.slot_id() == s0[0].0);
            } else {
                assert(t0[p - 1] == s0[p]);
                let i = choose|i: int| 0 <= i < rest.len() && #[trigger] rest[i].0.slot_id() == t0[p - 1].0;
                if picked {
                    assert(r@[i + 1] == rest[i]);
                } else {
                    assert(r@[i] == rest[i]);
                }
            }
        }
    }
    r
}

} // verus!
