use std::collections::HashMap;
use vstd::prelude::*;

use crate::batch::{borrow_listed, listed};
use crate::key::PoolKey;
use crate::slots::{
    index_ok, lemma_index_push, lemma_index_same_slots, lemma_index_swap_remove,
    lemma_same_elements_len, lemma_same_slots, lemma_slot_map_at, lemma_slot_map_len,
    lemma_slot_map_push, lemma_slot_map_set, lemma_slot_map_swap_remove, slot_map, slots_unique,
};
use vstd::set_lib::{lemma_int_range, lemma_len_subset, lemma_map_size_bound, set_int_range};

verus! {

broadcast use vstd::std_specs::hash::group_hash_axioms;

/// The error `insert` reports when no slot id is left to hand out.
#[derive(Debug, Clone, Copy, PartialEq, Eq)]
pub struct PoolFull;

/// Relies on `std::ptr::from_ref` and `pointer::addr`: the address of the
/// byte owned by a live box, which is never zero.
#[verifier::external_body]
fn address_of(anchor: &Box<u8>) -> (r: usize)
    ensures
        r != 0,
{
    std::ptr::from_ref::<u8>(anchor).addr()
}

/// `x` lies on the way from `start` up to `id`, wrapping past the largest
/// slot id back to zero; `id` itself is not on the way.
pub open spec fn wrap_between(start: usize, x: usize, id: usize) -> bool {
    if start <= id {
        start <= x < id
    } else {
        start <= x || x < id
    }
}

/// `id` is the first slot id outside `used` that a scan from `start`
/// meets, wrapping past the largest slot id back to zero.
pub open spec fn first_free(used: Set<usize>, start: usize, id: usize) -> bool {
    &&& !used.contains(id)
    &&& forall|x: usize| #[trigger] wrap_between(start, x, id) ==> used.contains(x)
}

/// A finite set of slot ids smaller than the largest `usize` leaves some id free.
pub proof fn lemma_free_slot_exists(used: Set<usize>)
    requires
        used.finite(),
        used.len() < usize::MAX,
    ensures
        exists|id: usize| !used.contains(id),
{
    if forall|id: usize| used.contains(id) {
        let f = |x: usize| x as int;
        let ints = used.map(f);
        lemma_map_size_bound(used, ints, f);
        let all = set_int_range(0, usize::MAX + 1);
        assert(all.subset_of(ints)) by {
            assert forall|i: int| all.contains(i) implies ints.contains(i) by {
                assert(used.contains(i as usize));
                assert(f(i as usize) == i);
            }
        }
        lemma_int_range(0, usize::MAX + 1);
        lemma_len_subset(all, ints);
    }
}

/// `after` is `before` with `value` stored under key `k`, as a successful
/// insertion leaves it: `k` is stamped with the pool's identity, its slot
/// is the first free one from the hint on, and the hint moves past it.
pub open spec fn inserted<T>(before: TypePool<T>, value: T, k: PoolKey<T>, after: TypePool<T>) -> bool {
    &&& after.wf()
    &&& after.identity() == before.identity()
    &&& k.pool_id() == before.identity()
    &&& first_free(before@.dom(), before.hint(), k.slot_id())
    &&& after@ == before@.insert(k.slot_id(), value)
    &&& after.hint() == (if k.slot_id() == usize::MAX {
        0
    } else {
        (k.slot_id() + 1) as usize
    })
}

/// A pool of `T` values addressed by [`PoolKey`]s.
pub struct TypePool<T> {
    /// The stored values, each with its slot id, in no particular order.
    entries: Vec<(usize, T)>,
    /// Position in `entries` of each slot id held.
    index: HashMap<usize, usize>,
    /// Where the search for a free slot id starts.
    next_id: usize,
    /// A heap allocation owned for the pool's lifetime; its address is the
    /// pool's identity and stays put when the pool value moves.
    anchor: Box<u8>,
    ident: usize,
}

impl<T> TypePool<T> {
    /// The identity stamped into every key this pool issues.
    pub closed spec fn identity(&self) -> usize {
        self.ident
    }

    /// The slot id from which the next insertion starts its search.
    pub closed spec fn hint(&self) -> usize {
        self.next_id
    }

    /// The pool's internal invariant: a non-zero identity, no slot id held
    /// twice, and an index giving each held slot id's position.
    pub closed spec fn wf(&self) -> bool {
        &&& self.ident != 0
        &&& slots_unique(self.entries@)
        &&& index_ok(self.index@, self.entries@)
    }

    /// Position in the entries of the value with slot id `id`, if any.
    fn locate(&self, id: usize) -> (r: Option<usize>)
        requires
            self.wf(),
        ensures
            r is None <==> !self@.contains_key(id),
            r matches Some(p) ==> p < self.entries@.len() && self.entries@[p as int].0 == id,
    {
        match self.index.get(&id) {
            Some(p) => Some(*p),
            None => None,
        }
    }

    /// Returns a new empty pool.
    pub fn new() -> (r: Self)
        ensures
            r.wf(),
            r@ == Map::<usize, T>::empty(),
            r.identity() != 0,
            r.hint() == 0,
    {
        let anchor = Box::new(0u8);
        let ident = address_of(&anchor);
        let r = TypePool { entries: Vec::new(), index: HashMap::new(), next_id: 0, anchor, ident };
        assert(r@ =~= Map::<usize, T>::empty());
        r
    }

    /// Returns `true` iff `key` was issued by this pool.
    pub fn owns_key(&self, key: &PoolKey<T>) -> (r: bool)
        ensures
            r == (key.pool_id() == self.identity()),
    {
        key.pool() == self.ident
    }

    /// Returns `true` iff `key` was issued by this pool and its slot holds a value.
    pub fn contains_key(&self, key: &PoolKey<T>) -> (r: bool)
        requires
            self.wf(),
        ensures
            r == (key.pool_id() == self.identity() && self@.contains_key(key.slot_id())),
    {
        self.owns_key(key) && self.locate(key.slot()).is_some()
    }

    /// Returns the number of values in the pool.
    pub fn len(&self) -> (r: usize)
        requires
            self.wf(),
        ensures
            r == self@.len(),
            self@.dom().finite(),
    {
        proof {
            lemma_slot_map_len(self.entries@);
        }
        self.entries.len()
    }

    /// Returns `true` iff the pool holds no value.
    pub fn is_empty(&self) -> (r: bool)
        requires
            self.wf(),
        ensures
            r == (self@.len() == 0),
    {
        self.len() == 0
    }

    /// Stores `value` under a fresh slot id and returns its key.
    ///
    /// The slot id is the first one not in use met by a scan that starts at
    /// the hint and wraps past the largest id back to zero. Fails, leaving
    /// the pool unchanged, when the pool already holds `usize::MAX` values.
    pub fn insert(&mut self, value: T) -> (r: Result<PoolKey<T>, PoolFull>)
        requires
            old(self).wf(),
        ensures
            final(self).wf(),
            final(self).identity() == old(self).identity(),
            old(self)@.len() == usize::MAX <==> r is Err,
            r is Err ==> final(self)@ == old(self)@ && final(self).hint() == old(self).hint(),
            r matches Ok(k) ==> inserted(*old(self), value, k, *final(self)),
    {
        proof {
            lemma_slot_map_len(self.entries@);
        }
        if self.entries.len() == usize::MAX {
            return Err(PoolFull);
        }
        let ghost used = self@.dom();
        proof {
            lemma_free_slot_exists(used);
        }
        let start = self.next_id;
        let mut id = start;
        let mut free = self.locate(id).is_none();
        while !free && id < usize::MAX
            invariant
                self.wf(),
                used == self@.dom(),
                start <= id,
                forall|x: usize| start <= x < id ==> used.contains(x),
                free == !used.contains(id),
            decreases usize::MAX - id,
        {
            id = id + 1;
            free = self.locate(id).is_none();
        }
        if !free {
            id = 0;
            free = self.locate(id).is_none();
            while !free && id < start
                invariant
                    self.wf(),
                    used == self@.dom(),
                    id <= start,
                    forall|x: usize| start <= x ==> used.contains(x),
                    forall|x: usize| x < id ==> used.contains(x),
                    free == !used.contains(id),
                decreases start - id,
            {
                id = id + 1;
                free = self.locate(id).is_none();
            }
            if !free {
                proof {
                    let y = choose|y: usize| !used.contains(y);
                    assert(used.contains(y));
                }
            }
        }
        assert(first_free(used, start, id));
        proof {
            lemma_slot_map_push(self.entries@, id, value);
            lemma_index_push(self.index@, self.entries@, id, value);
        }
        let pos = self.entries.len();
        self.index.insert(id, pos);
        self.entries.push((id, value));
        self.next_id = if id == usize::MAX {
            0
        } else {
            id + 1
        };
        Ok(PoolKey::new(id, self.ident))
    }

    /// Removes the value that `key` names and returns it, or `None` when its
    /// slot is already empty. `key` must have been issued by this pool.
    pub fn remove(&mut self, key: PoolKey<T>) -> (r: Option<T>)
        requires
            old(self).wf(),
            key.pool_id() == old(self).identity(),
        ensures
            final(self).wf(),
            final(self).identity() == old(self).identity(),
            final(self).hint() == old(self).hint(),
            final(self)@ == old(self)@.remove(key.slot_id()),
            r == (if old(self)@.contains_key(key.slot_id()) {
                Some(old(self)@[key.slot_id()])
            } else {
                None::<T>
            }),
    {
        match self.locate(key.slot()) {
            None => {
                assert(self@ =~= self@.remove(key.slot_id()));
                None
            },
            Some(p) => {
                let last = self.entries.len() - 1;
                let moved = self.entries[last].0;
                proof {
                    lemma_slot_map_at(self.entries@, p as int);
                    lemma_slot_map_swap_remove(self.entries@, p as int);
                    lemma_index_swap_remove(self.index@, self.entries@, p as int);
                }
                let (_, v) = self.entries.swap_remove(p);
                self.index.remove(&key.slot());
                if p < last {
                    self.index.insert(moved, p);
                }
                Some(v)
            },
        }
    }

    /// Returns a mutable reference to the value that `key` names; whatever
    /// is written through it is what the pool holds under that key after.
    pub fn get_mut(&mut self, key: PoolKey<T>) -> (r: &mut T)
        requires
            old(self).wf(),
            key.pool_id() == old(self).identity(),
            old(self)@.contains_key(key.slot_id()),
        ensures
            *r == old(self)@[key.slot_id()],
            final(self).wf(),
            final(self).identity() == old(self).identity(),
            final(self).hint() == old(self).hint(),
            final(self)@ == old(self)@.insert(key.slot_id(), *final(r)),
    {
        let p = match self.locate(key.slot()) {
            Some(p) => p,
            None => {
                proof {
                    assert(false);
                }
                0
            },
        };
        proof {
            lemma_slot_map_at(self.entries@, p as int);
        }
        let ghost s = self.entries@;
        let entry = &mut self.entries[p];
        let r = &mut entry.1;
        proof {
            lemma_slot_map_set(s, p as int, *final(r));
            lemma_index_same_slots(self.index@, s, s.update(p as int, (s[p as int].0, *final(r))));
        }
        r
    }

    /// Hands out, for a set of keys, one mutable reference per key, each
    /// paired with its key, all usable at once. The keys must name pairwise
    /// distinct slots of this pool that hold values. What is written through
    /// the references is what the pool holds under those keys afterwards;
    /// every other value is left as it was.
    #[verifier::rlimit(40)]
    pub fn get_set(&mut self, keys: &Vec<PoolKey<T>>) -> (r: Vec<(PoolKey<T>, &mut T)>)
        requires
            old(self).wf(),
            forall|j: int|
                0 <= j < keys@.len() ==> #[trigger] keys@[j].pool_id() == old(self).identity()
                    && old(self)@.contains_key(keys@[j].slot_id()),
            forall|i: int, j: int|
                0 <= i < keys@.len() && 0 <= j < keys@.len() && i != j ==> #[trigger] keys@[i].slot_id()
                    != #[trigger] keys@[j].slot_id(),
        ensures
            final(self).wf(),
            final(self).identity() == old(self).identity(),
            final(self).hint() == old(self).hint(),
            r@.len() == keys@.len(),
            forall|i: int|
                0 <= i < r@.len() ==> #[trigger] r@[i].0.pool_id() == old(self).identity()
                    && listed(keys@, r@[i].0.slot_id()),
            forall|i: int, j: int|
                0 <= i < r@.len() && 0 <= j < r@.len() && i != j ==> #[trigger] r@[i].0.slot_id()
                    != #[trigger] r@[j].0.slot_id(),
            forall|i: int| 0 <= i < r@.len() ==> *(#[trigger] r@[i]).1 == old(self)@[r@[i].0.slot_id()],
            final(self)@.dom() == old(self)@.dom(),
            forall|i: int|
                0 <= i < r@.len() ==> final(self)@[(#[trigger] r@[i]).0.slot_id()] == *final(r@[i].1),
            forall|id: usize|
                old(self)@.contains_key(id) && !listed(keys@, id) ==> #[trigger] final(self)@[id]
                    == old(self)@[id],
    {
        let ghost s = self.entries@;
        let ghost idx = self.index@;
        let ident = self.ident;
        let slice = self.entries.as_mut_slice();
        let ghost fin = final(slice)@;
        let r = borrow_listed(slice, keys, ident);
        proof {
            let f = fin;
            lemma_same_slots(s, f);
            lemma_index_same_slots(idx, s, f);
            assert forall|i: int| 0 <= i < r@.len() implies *(#[trigger] r@[i]).1 == slot_map(
                s,
            )[r@[i].0.slot_id()] && slot_map(f)[r@[i].0.slot_id()] == *final(r@[i].1) by {
                let p = choose|p: int|
                    0 <= p < s.len() && s[p].0 == #[trigger] r@[i].0.slot_id() && *r@[i].1
                        == s[p].1 && f[p].1 == *final(r@[i].1);
                lemma_slot_map_at(s, p);
                lemma_slot_map_at(f, p);
            }
            assert forall|id: usize|
                slot_map(s).contains_key(id) && !listed(keys@, id) implies #[trigger] slot_map(f)[id]
                == slot_map(s)[id] by {
                let p = choose|p: int| 0 <= p < s.len() && #[trigger] s[p].0 == id;
                lemma_slot_map_at(s, p);
                assert(f[p] == s[p]);
                lemma_slot_map_at(f, p);
            }
            let rids = r@.map_values(|e: (PoolKey<T>, &mut T)| e.0.slot_id());
            let kids = keys@.map_values(|k: PoolKey<T>| k.slot_id());
            assert forall|i: int| 0 <= i < rids.len() implies kids.contains(#[trigger] rids[i]) by {
                assert(listed(keys@, r@[i].0.slot_id()));
                let j = choose|j: int|
                    0 <= j < keys@.len() && #[trigger] keys@[j].slot_id() == rids[i];
                assert(kids[j] == rids[i]);
            }
            assert forall|j: int| 0 <= j < kids.len() implies rids.contains(#[trigger] kids[j]) by {
                let id = kids[j];
                assert(keys@[j].pool_id() == ident);
                assert(slot_map(s).contains_key(id));
                let p = choose|p: int| 0 <= p < s.len() && #[trigger] s[p].0 == id;
                assert(listed(keys@, s[p].0));
                let i = choose|i: int| 0 <= i < r@.len() && #[trigger] r@[i].0.slot_id() == s[p].0;
                assert(rids[i] == id);
            }
            lemma_same_elements_len(rids, kids);
        }
        r
    }

    /// Inserts the values of `values` in order into a new pool and returns
    /// the pool with their keys, in the same order. The `i`th value gets
    /// slot id `i`.
    pub fn from_iter(values: Vec<T>) -> (r: (Self, Vec<PoolKey<T>>))
        ensures
            r.0.wf(),
            r.0.identity() != 0,
            r.0.hint() == values@.len(),
            r.0@ == Map::new(|k: usize| k < values@.len(), |k: usize| values@[k as int]),
            r.1@.len() == values@.len(),
            forall|i: int|
                0 <= i < r.1@.len() ==> #[trigger] r.1@[i].slot_id() == i && r.1@[i].pool_id()
                    == r.0.identity(),
    {
        let ghost vals = values@;
        let total = values.len();
        let mut values = values;
        let mut pool = TypePool::new();
        let mut keys: Vec<PoolKey<T>> = Vec::new();
        let mut n: usize = 0;
        while values.len() > 0
            invariant
                pool.wf(),
                pool.identity() != 0,
                n == keys@.len(),
                n + values@.len() == vals.len(),
                vals.len() == total,
                values@ == vals.subrange(n as int, vals.len() as int),
                pool.hint() == n,
                pool@.dom().finite(),
                pool@.len() == n,
                pool@ == Map::new(|k: usize| k < n, |k: usize| vals[k as int]),
                forall|i: int|
                    0 <= i < n ==> #[trigger] keys@[i].slot_id() == i && keys@[i].pool_id()
                        == pool.identity(),
            decreases values@.len(),
        {
            let v = values.remove(0);
            assert(n < usize::MAX);
            let ghost before = pool@;
            let res = pool.insert(v);
            let k = match res {
                Ok(k) => k,
                Err(_) => {
                    proof {
                        assert(false);
                    }
                    return (pool, keys);
                },
            };
            proof {
                let id = k.slot_id();
                if id != n {
                    if id < n {
                        assert(before.contains_key(id));
                    } else {
                        assert(wrap_between(n, n, id));
                    }
                }
                assert(pool@ =~= Map::new(|j: usize| j < n + 1, |j: usize| vals[j as int]));
            }
            keys.push(k);
            n = n + 1;
        }
        (pool, keys)
    }

    /// Returns a reference to the value that `key` names.
    pub fn get(&self, key: PoolKey<T>) -> (r: &T)
        requires
            self.wf(),
            key.pool_id() == self.identity(),
            self@.contains_key(key.slot_id()),
        ensures
            *r == self@[key.slot_id()],
    {
        match self.locate(key.slot()) {
            Some(p) => {
                proof {
                    lemma_slot_map_at(self.entries@, p as int);
                }
                &self.entries[p].1
            },
            None => {
                proof {
                    assert(false);
                }
                &self.entries[0].1
            },
        }
    }
}

impl<T> Default for TypePool<T> {
    /// Returns a new empty pool.
    fn default() -> (r: Self)
        ensures
            r.wf(),
            r@ == Map::<usize, T>::empty(),
            r.identity() != 0,
            r.hint() == 0,
    {
        Self::new()
    }
}

impl<T> View for TypePool<T> {
    type V = Map<usize, T>;

    /// The values the pool holds, by slot id.
    closed spec fn view(&self) -> Map<usize, T> {
        slot_map(self.entries@)
    }
}

} // verus!
