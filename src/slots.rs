use vstd::prelude::*;

verus! {

/// Some entry of `s` carries slot id `id`.
pub open spec fn has_slot<T>(s: Seq<(usize, T)>, id: usize) -> bool {
    exists|i: int| 0 <= i < s.len() && #[trigger] s[i].0 == id
}

/// No two entries of `s` carry the same slot id.
pub open spec fn slots_unique<T>(s: Seq<(usize, T)>) -> bool {
    forall|i: int, j: int|
        0 <= i < s.len() && 0 <= j < s.len() && i != j ==> #[trigger] s[i].0 != #[trigger] s[j].0
}

/// The mapping from slot id to value that a sequence of entries stands for.
pub open spec fn slot_map<T>(s: Seq<(usize, T)>) -> Map<usize, T> {
    Map::new(
        |id: usize| has_slot(s, id),
        |id: usize| s[choose|i: int| 0 <= i < s.len() && #[trigger] s[i].0 == id].1,
    )
}

/// The slot ids of `s`, in order.
pub open spec fn slot_ids<T>(s: Seq<(usize, T)>) -> Seq<usize> {
    s.map_values(|e: (usize, T)| e.0)
}

/// The value an entry holds is what the map gives for its slot id.
pub proof fn lemma_slot_map_at<T>(s: Seq<(usize, T)>, i: int)
    requires
        slots_unique(s),
        0 <= i < s.len(),
    ensures
        slot_map(s).contains_key(s[i].0),
        slot_map(s)[s[i].0] == s[i].1,
{
    let id = s[i].0;
    assert(has_slot(s, id));
    let j = choose|j: int| 0 <= j < s.len() && #[trigger] s[j].0 == id;
    assert(s[j].0 == id);
}

/// With unique slot ids the map has one key per entry.
pub proof fn lemma_slot_map_len<T>(s: Seq<(usize, T)>)
    requires
        slots_unique(s),
    ensures
        slot_map(s).dom().finite(),
        slot_map(s).len() == s.len(),
{
    let ids = slot_ids(s);
    assert(ids.no_duplicates()) by {
        assert forall|i: int, j: int|
            0 <= i < ids.len() && 0 <= j < ids.len() && i != j implies ids[i] != ids[j] by {
            assert(s[i].0 != s[j].0);
        }
    }
    assert(slot_map(s).dom() =~= ids.to_set()) by {
        assert forall|id: usize| slot_map(s).dom().contains(id) implies ids.to_set().contains(
            id,
        ) by {
            let i = choose|i: int| 0 <= i < s.len() && #[trigger] s[i].0 == id;
            assert(ids[i] == id);
        }
        assert forall|id: usize| ids.to_set().contains(id) implies slot_map(
            s,
        ).dom().contains(id) by {
            let i = choose|i: int| 0 <= i < ids.len() && ids[i] == id;
            assert(s[i].0 == id);
        }
    }
    ids.unique_seq_to_set();
    vstd::seq_lib::seq_to_set_is_finite(ids);
}

/// Appending an entry with a new slot id inserts it into the map.
pub proof fn lemma_slot_map_push<T>(s: Seq<(usize, T)>, id: usize, v: T)
    requires
        slots_unique(s),
        !has_slot(s, id),
    ensures
        slots_unique(s.push((id, v))),
        slot_map(s.push((id, v))) == slot_map(s).insert(id, v),
{
    let t = s.push((id, v));
    assert(slots_unique(t)) by {
        assert forall|i: int, j: int|
            0 <= i < t.len() && 0 <= j < t.len() && i != j implies #[trigger] t[i].0
            != #[trigger] t[j].0 by {
            if i < s.len() && j < s.len() {
                assert(s[i].0 != s[j].0);
            } else if i < s.len() {
                assert(s[i].0 != id);
            } else {
                assert(s[j].0 != id);
            }
        }
    }
    assert(slot_map(t) =~= slot_map(s).insert(id, v)) by {
        assert forall|k: usize| #[trigger] slot_map(t).contains_key(k) <==> slot_map(
            s,
        ).insert(id, v).contains_key(k) by {
            if has_slot(t, k) && k != id {
                let i = choose|i: int| 0 <= i < t.len() && #[trigger] t[i].0 == k;
                assert(s[i].0 == k);
            }
            if has_slot(s, k) {
                let i = choose|i: int| 0 <= i < s.len() && #[trigger] s[i].0 == k;
                assert(t[i].0 == k);
            }
            if k == id {
                assert(t[s.len() as int].0 == k);
            }
        }
        assert forall|k: usize| #[trigger] slot_map(t).contains_key(k) implies slot_map(t)[k]
            == slot_map(s).insert(id, v)[k] by {
            let i = choose|i: int| 0 <= i < t.len() && #[trigger] t[i].0 == k;
            lemma_slot_map_at(t, i);
            if i < s.len() {
                lemma_slot_map_at(s, i);
            }
        }
    }
}

/// Moving the last entry into position `p` and dropping the last removes
/// the slot id of position `p` from the map.
pub proof fn lemma_slot_map_swap_remove<T>(s: Seq<(usize, T)>, p: int)
    requires
        slots_unique(s),
        0 <= p < s.len(),
    ensures
        slots_unique(s.update(p, s.last()).drop_last()),
        slot_map(s.update(p, s.last()).drop_last()) == slot_map(s).remove(s[p].0),
{
    let t = s.update(p, s.last()).drop_last();
    let n = s.len() - 1;
    // position in `s` of the entry found at position `i` of `t`
    assert forall|i: int| 0 <= i < t.len() implies #[trigger] t[i] == s[if i == p {
        n
    } else {
        i
    }] by {}
    assert(slots_unique(t)) by {
        assert forall|i: int, j: int|
            0 <= i < t.len() && 0 <= j < t.len() && i != j implies #[trigger] t[i].0
            != #[trigger] t[j].0 by {
            let a = if i == p { n } else { i };
            let b = if j == p { n } else { j };
            assert(t[i] == s[a] && t[j] == s[b]);
            assert(s[a].0 != s[b].0);
        }
    }
    let id = s[p].0;
    assert(slot_map(t) =~= slot_map(s).remove(id)) by {
        assert forall|k: usize| #[trigger] slot_map(t).contains_key(k) <==> slot_map(
            s,
        ).remove(id).contains_key(k) by {
            if has_slot(t, k) {
                let i = choose|i: int| 0 <= i < t.len() && #[trigger] t[i].0 == k;
                let a = if i == p { n } else { i };
                assert(t[i] == s[a]);
                assert(s[a].0 == k);
                assert(a != p);
            }
            if has_slot(s, k) && k != id {
                let i = choose|i: int| 0 <= i < s.len() && #[trigger] s[i].0 == k;
                assert(i != p);
                if i == n {
                    assert(t[p] == s[n]);
                    assert(t[p].0 == k);
                } else {
                    assert(t[i] == s[i]);
                    assert(t[i].0 == k);
                }
            }
        }
        assert forall|k: usize| #[trigger] slot_map(t).contains_key(k) implies slot_map(t)[k]
            == slot_map(s).remove(id)[k] by {
            let i = choose|i: int| 0 <= i < t.len() && #[trigger] t[i].0 == k;
            let a = if i == p { n } else { i };
            assert(t[i] == s[a]);
            lemma_slot_map_at(t, i);
            lemma_slot_map_at(s, a);
        }
    }
}

/// Replacing the value at position `p` updates the map at that slot id.
pub proof fn lemma_slot_map_set<T>(s: Seq<(usize, T)>, p: int, v: T)
    requires
        slots_unique(s),
        0 <= p < s.len(),
    ensures
        slots_unique(s.update(p, (s[p].0, v))),
        slot_map(s.update(p, (s[p].0, v))) == slot_map(s).insert(s[p].0, v),
{
    let t = s.update(p, (s[p].0, v));
    assert forall|i: int| 0 <= i < t.len() implies #[trigger] t[i].0 == s[i].0 by {}
    assert(slots_unique(t)) by {
        assert forall|i: int, j: int|
            0 <= i < t.len() && 0 <= j < t.len() && i != j implies #[trigger] t[i].0
            != #[trigger] t[j].0 by {
            assert(s[i].0 != s[j].0);
        }
    }
    assert(slot_map(t) =~= slot_map(s).insert(s[p].0, v)) by {
        assert forall|k: usize| #[trigger] slot_map(t).contains_key(k) <==> slot_map(
            s,
        ).insert(s[p].0, v).contains_key(k) by {
            if has_slot(t, k) {
                let i = choose|i: int| 0 <= i < t.len() && #[trigger] t[i].0 == k;
                assert(s[i].0 == k);
            }
            if has_slot(s, k) {
                let i = choose|i: int| 0 <= i < s.len() && #[trigger] s[i].0 == k;
                assert(t[i].0 == k);
            }
            if k == s[p].0 {
                assert(t[p].0 == k);
            }
        }
        assert forall|k: usize| #[trigger] slot_map(t).contains_key(k) implies slot_map(t)[k]
            == slot_map(s).insert(s[p].0, v)[k] by {
            let i = choose|i: int| 0 <= i < t.len() && #[trigger] t[i].0 == k;
            lemma_slot_map_at(t, i);
            lemma_slot_map_at(s, i);
        }
    }
}

/// Entries with the same slot ids position by position stand for maps with
/// one domain.
pub proof fn lemma_same_slots<T>(s: Seq<(usize, T)>, f: Seq<(usize, T)>)
    requires
        slots_unique(s),
        f.len() == s.len(),
        forall|p: int| 0 <= p < s.len() ==> #[trigger] f[p].0 == s[p].0,
    ensures
        slots_unique(f),
        slot_map(f).dom() == slot_map(s).dom(),
{
    assert(slots_unique(f)) by {
        assert forall|i: int, j: int|
            0 <= i < f.len() && 0 <= j < f.len() && i != j implies #[trigger] f[i].0
            != #[trigger] f[j].0 by {
            assert(f[i].0 == s[i].0 && f[j].0 == s[j].0);
        }
    }
    assert(slot_map(f).dom() =~= slot_map(s).dom()) by {
        assert forall|id: usize| has_slot(f, id) <==> has_slot(s, id) by {
            if has_slot(f, id) {
                let p = choose|p: int| 0 <= p < f.len() && #[trigger] f[p].0 == id;
                assert(s[p].0 == id);
            }
            if has_slot(s, id) {
                let p = choose|p: int| 0 <= p < s.len() && #[trigger] s[p].0 == id;
                assert(f[p].0 == id);
            }
        }
    }
}

/// Two duplicate-free sequences holding the same elements have one length.
pub proof fn lemma_same_elements_len(a: Seq<usize>, b: Seq<usize>)
    requires
        a.no_duplicates(),
        b.no_duplicates(),
        forall|i: int| 0 <= i < a.len() ==> b.contains(#[trigger] a[i]),
        forall|j: int| 0 <= j < b.len() ==> a.contains(#[trigger] b[j]),
    ensures
        a.len() == b.len(),
{
    assert(a.to_set() =~= b.to_set()) by {
        assert forall|x: usize| a.to_set().contains(x) implies b.to_set().contains(x) by {
            let i = choose|i: int| 0 <= i < a.len() && a[i] == x;
            assert(b.contains(a[i]));
        }
        assert forall|x: usize| b.to_set().contains(x) implies a.to_set().contains(x) by {
            let j = choose|j: int| 0 <= j < b.len() && b[j] == x;
            assert(a.contains(b[j]));
        }
    }
    a.unique_seq_to_set();
    b.unique_seq_to_set();
}

/// `index` maps each slot id held in `s` to its position there, and no other id.
pub open spec fn index_ok<T>(index: Map<usize, usize>, s: Seq<(usize, T)>) -> bool {
    &&& forall|id: usize| #[trigger] index.contains_key(id) <==> has_slot(s, id)
    &&& forall|id: usize|
        #[trigger] index.contains_key(id) ==> index[id] < s.len() && s[index[id] as int].0 == id
}

/// Appending an entry extends the index by its position.
pub proof fn lemma_index_push<T>(index: Map<usize, usize>, s: Seq<(usize, T)>, id: usize, v: T)
    requires
        index_ok(index, s),
        s.len() < usize::MAX,
    ensures
        index_ok(index.insert(id, s.len() as usize), s.push((id, v))),
{
    let t = s.push((id, v));
    let m = index.insert(id, s.len() as usize);
    assert forall|k: usize| #[trigger] m.contains_key(k) <==> has_slot(t, k) by {
        if has_slot(t, k) && k != id {
            let i = choose|i: int| 0 <= i < t.len() && #[trigger] t[i].0 == k;
            assert(s[i].0 == k);
        }
        if has_slot(s, k) {
            let i = choose|i: int| 0 <= i < s.len() && #[trigger] s[i].0 == k;
            assert(t[i].0 == k);
        }
        if k == id {
            assert(t[s.len() as int].0 == k);
        }
    }
    assert forall|k: usize| #[trigger] m.contains_key(k) implies m[k] < t.len() && t[m[k] as int].0
        == k by {
        if k != id {
            assert(t[index[k] as int] == s[index[k] as int]);
        }
    }
}

/// The index stays right while no slot id moves.
pub proof fn lemma_index_same_slots<T>(index: Map<usize, usize>, s: Seq<(usize, T)>, f: Seq<(usize, T)>)
    requires
        index_ok(index, s),
        f.len() == s.len(),
        forall|p: int| 0 <= p < s.len() ==> #[trigger] f[p].0 == s[p].0,
    ensures
        index_ok(index, f),
{
    assert forall|k: usize| #[trigger] index.contains_key(k) <==> has_slot(f, k) by {
        if has_slot(f, k) {
            let i = choose|i: int| 0 <= i < f.len() && #[trigger] f[i].0 == k;
            assert(s[i].0 == k);
        }
        if has_slot(s, k) {
            let i = choose|i: int| 0 <= i < s.len() && #[trigger] s[i].0 == k;
            assert(f[i].0 == k);
        }
    }
    assert forall|k: usize| #[trigger] index.contains_key(k) implies index[k] < f.len() && f[index[k] as int].0
        == k by {
        assert(f[index[k] as int].0 == s[index[k] as int].0);
    }
}

/// Positions after moving the last entry of `s` into position `p` and
/// dropping the last: the moved entry's id now maps to `p`, the removed id
/// to nothing.
pub proof fn lemma_index_swap_remove<T>(index: Map<usize, usize>, s: Seq<(usize, T)>, p: int)
    requires
        index_ok(index, s),
        slots_unique(s),
        0 <= p < s.len(),
        s.len() <= usize::MAX,
    ensures
        p < s.len() - 1 ==> index_ok(
            index.remove(s[p].0).insert(s.last().0, p as usize),
            s.update(p, s.last()).drop_last(),
        ),
        p == s.len() - 1 ==> index_ok(index.remove(s[p].0), s.update(p, s.last()).drop_last()),
{
    let t = s.update(p, s.last()).drop_last();
    let n = s.len() - 1;
    let id = s[p].0;
    let m = if p < n {
        index.remove(id).insert(s.last().0, p as usize)
    } else {
        index.remove(id)
    };
    assert forall|i: int| 0 <= i < t.len() implies #[trigger] t[i] == s[if i == p {
        n
    } else {
        i
    }] by {}
    assert forall|k: usize| #[trigger] m.contains_key(k) <==> has_slot(t, k) by {
        if has_slot(t, k) {
            let i = choose|i: int| 0 <= i < t.len() && #[trigger] t[i].0 == k;
            let a = if i == p { n } else { i };
            assert(t[i] == s[a]);
            assert(s[a].0 == k);
            assert(a != p);
            assert(has_slot(s, k));
        }
        if m.contains_key(k) {
            assert(k != id || (p < n && k == s.last().0));
            if p < n && k == s.last().0 {
                assert(t[p].0 == k);
            } else {
                assert(index.contains_key(k));
                let i = index[k] as int;
                assert(s[i].0 == k);
                assert(i != p);
                if i == n {
                    assert(t[p].0 == k);
                } else {
                    assert(t[i].0 == k);
                }
            }
        }
        if p < n && k == s.last().0 {
            assert(s[n].0 != id);
        }
    }
    assert forall|k: usize| #[trigger] m.contains_key(k) implies m[k] < t.len() && t[m[k] as int].0
        == k by {
        if p < n && k == s.last().0 {
            assert(m[k] == p as usize);
            assert(t[p] == s[n]);
            assert(s.last() == s[n]);
        } else {
            assert(k != id);
            assert(m[k] == index[k]);
            let i = index[k] as int;
            assert(s[i].0 == k);
            assert(i != p);
            assert(i != n);
            assert(t[i] == s[i]);
        }
    }
}

} // verus!
