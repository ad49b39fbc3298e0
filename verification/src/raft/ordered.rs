//! Ordered sets and maps keyed by node identifiers, with the facts the state machine needs.

use std::collections::BTreeMap;
use std::collections::BTreeSet;
use vstd::prelude::*;
use vstd::std_specs::iter::IteratorSpec;

verus! {

broadcast use vstd::std_specs::btree::group_btree_axioms;

/// Whether `id` is in the set.
pub fn set_contains(set: &BTreeSet<u64>, id: u64) -> (r: bool)
    ensures
        r == set@.contains(id),
{
    set.contains(&id)
}

/// Adds `id` to the set.
pub fn set_insert(set: &mut BTreeSet<u64>, id: u64)
    ensures
        final(set)@ == old(set)@.insert(id),
{
    set.insert(id);
}

/// Takes `id` out of the set.
pub fn set_remove(set: &mut BTreeSet<u64>, id: u64)
    ensures
        final(set)@ == old(set)@.remove(id),
{
    set.remove(&id);
}

/// The number of identifiers in the set.
pub fn set_len(set: &BTreeSet<u64>) -> (r: usize)
    ensures
        r == set@.len(),
        set@.finite(),
{
    proof {
        let items = set.iter().remaining().unref();
        assert(set@ == items.to_set());
        vstd::seq_lib::seq_to_set_is_finite(items);
    }
    set.len()
}

/// The identifiers of the set, each once.
pub fn set_members(set: &BTreeSet<u64>) -> (r: Vec<u64>)
    ensures
        r@.to_set() == set@,
        r@.no_duplicates(),
        r@.len() == set@.len(),
{
    let mut members: Vec<u64> = Vec::new();
    for id in it: set.iter()
        invariant
            members@.len() == it.index(),
            it.seq() == set.iter().remaining(),
            forall|j: int| 0 <= j < members@.len() ==> members@[j] == *it.seq()[j],
    {
        members.push(*id);
    }
    proof {
        assert(members@ =~= set.iter().remaining().unref());
    }
    members
}

/// The value kept for `id`, if any.
pub fn map_get<V>(map: &BTreeMap<u64, V>, id: u64) -> (r: Option<&V>)
    ensures
        r matches Some(v) ==> map@.contains_key(id) && *v == map@[id],
        r is None ==> !map@.contains_key(id),
{
    map.get(&id)
}

/// Keeps `value` for `id`, in place of what was kept for it before.
pub fn map_insert<V>(map: &mut BTreeMap<u64, V>, id: u64, value: V)
    ensures
        final(map)@ == old(map)@.insert(id, value),
{
    map.insert(id, value);
}

/// The members of a list with one more at its end are those of the list and that one.
pub proof fn lemma_push_to_set(ids: Seq<u64>, id: u64)
    ensures
        ids.push(id).to_set() == ids.to_set().insert(id),
{
    let more = ids.push(id);
    assert forall|x: u64| more.to_set().contains(x) implies ids.to_set().insert(id).contains(x) by {
        let i = choose|i: int| 0 <= i < more.len() && more[i] == x;
        if i < ids.len() {
            assert(ids[i] == x);
        }
    }
    assert forall|x: u64| ids.to_set().insert(id).contains(x) implies more.to_set().contains(x) by {
        if x == id {
            assert(more[ids.len() as int] == x);
        } else {
            let i = choose|i: int| 0 <= i < ids.len() && ids[i] == x;
            assert(more[i] == x);
        }
    }
    assert(more.to_set() =~= ids.to_set().insert(id));
}

/// Whether the identifiers of `ids` grow from each to the next.
pub open spec fn ascending(ids: Seq<u64>) -> bool {
    forall|i: int, j: int| 0 <= i < j < ids.len() ==> ids[i] < ids[j]
}

/// Identifiers in ascending order do not repeat.
pub proof fn lemma_ascending_no_duplicates(ids: Seq<u64>)
    requires
        ascending(ids),
    ensures
        ids.no_duplicates(),
{
    assert forall|i: int, j: int| 0 <= i < ids.len() && 0 <= j < ids.len() && i != j implies ids[i]
        != ids[j] by {
        if i < j {
            assert(ids[i] < ids[j]);
        } else {
            assert(ids[j] < ids[i]);
        }
    }
}

/// There is one ascending order of a set of identifiers only.
pub proof fn lemma_ascending_unique(a: Seq<u64>, b: Seq<u64>)
    requires
        ascending(a),
        ascending(b),
        a.to_set() == b.to_set(),
    ensures
        a == b,
    decreases a.len(),
{
    lemma_ascending_no_duplicates(a);
    lemma_ascending_no_duplicates(b);
    a.unique_seq_to_set();
    b.unique_seq_to_set();
    assert(a.len() == b.len());
    if a.len() > 0 {
        let x = a.last();
        let y = b.last();
        assert(a.to_set().contains(x));
        assert(b.to_set().contains(y));
        let i = choose|i: int| 0 <= i < b.len() && b[i] == x;
        let j = choose|j: int| 0 <= j < a.len() && a[j] == y;
        assert(x == y) by {
            if i < b.len() - 1 {
                assert(b[i] < b[b.len() - 1]);
            }
            if j < a.len() - 1 {
                assert(a[j] < a[a.len() - 1]);
            }
        }
        let front_a = a.drop_last();
        let front_b = b.drop_last();
        assert(front_a.to_set() =~= front_b.to_set()) by {
            assert forall|v: u64| front_a.to_set().contains(v) implies front_b.to_set().contains(
                v,
            ) by {
                let k = choose|k: int| 0 <= k < front_a.len() && front_a[k] == v;
                assert(a[k] == v && a[k] < x);
                assert(a.to_set().contains(v));
                let m = choose|m: int| 0 <= m < b.len() && b[m] == v;
                assert(front_b[m] == v);
            }
            assert forall|v: u64| front_b.to_set().contains(v) implies front_a.to_set().contains(
                v,
            ) by {
                let k = choose|k: int| 0 <= k < front_b.len() && front_b[k] == v;
                assert(b[k] == v && b[k] < y);
                assert(b.to_set().contains(v));
                let m = choose|m: int| 0 <= m < a.len() && a[m] == v;
                assert(front_a[m] == v);
            }
        }
        lemma_ascending_unique(front_a, front_b);
        assert(a =~= front_a.push(x));
        assert(b =~= front_b.push(y));
    } else {
        assert(a =~= b);
    }
}

/// The identifiers of the set in ascending order.
pub fn set_ascending(set: &BTreeSet<u64>) -> (r: Vec<u64>)
    ensures
        ascending(r@),
        r@.to_set() == set@,
        r@.no_duplicates(),
{
    let members = set_members(set);
    let mut sorted: Vec<u64> = Vec::new();
    let mut i: usize = 0;
    assert(members@.take(0).to_set() =~= sorted@.to_set());
    while i < members.len()
        invariant
            i <= members@.len(),
            members@.no_duplicates(),
            ascending(sorted@),
            sorted@.to_set() == members@.take(i as int).to_set(),
            sorted@.len() == i,
        decreases members@.len() - i,
    {
        let id = members[i];
        let mut at: usize = 0;
        while at < sorted.len() && sorted[at] <= id
            invariant
                at <= sorted@.len(),
                forall|j: int| 0 <= j < at ==> sorted@[j] <= id,
            decreases sorted@.len() - at,
        {
            at = at + 1;
        }
        let ghost before = sorted@;
        proof {
            assert(!before.to_set().contains(id)) by {
                if members@.take(i as int).to_set().contains(id) {
                    let k = choose|k: int|
                        0 <= k < members@.take(i as int).len() && members@.take(i as int)[k] == id;
                    assert(members@[k] == members@[i as int]);
                }
            }
            assert forall|j: int| 0 <= j < at implies before[j] < id by {
                assert(before.to_set().contains(before[j]));
            }
        }
        sorted.insert(at, id);
        proof {
            assert(ascending(sorted@)) by {
                assert forall|a: int, b: int| 0 <= a < b < sorted@.len() implies sorted@[a]
                    < sorted@[b] by {
                    if b < at {
                        assert(sorted@[a] == before[a] && sorted@[b] == before[b]);
                    } else if b == at {
                        assert(sorted@[a] == before[a]);
                    } else if a < at {
                        assert(sorted@[a] == before[a] && sorted@[b] == before[b - 1]);
                        if at < before.len() {
                            assert(before[a] < before[at as int]);
                        }
                    } else if a == at {
                        assert(sorted@[b] == before[b - 1]);
                        if b - 1 > at {
                            assert(before[at as int] < before[b - 1]);
                        }
                    } else {
                        assert(sorted@[a] == before[a - 1] && sorted@[b] == before[b - 1]);
                    }
                }
            }
            assert(sorted@.to_set() =~= before.to_set().insert(id)) by {
                assert forall|v: u64| sorted@.to_set().contains(v) implies before.to_set().insert(
                    id,
                ).contains(v) by {
                    let k = choose|k: int| 0 <= k < sorted@.len() && sorted@[k] == v;
                    if k < at {
                        assert(before[k] == v);
                    } else if k > at {
                        assert(before[k - 1] == v);
                    }
                }
                assert forall|v: u64| before.to_set().insert(id).contains(v) implies sorted@.to_set().contains(
                    v,
                ) by {
                    if v == id {
                        assert(sorted@[at as int] == v);
                    } else {
                        let k = choose|k: int| 0 <= k < before.len() && before[k] == v;
                        if k < at {
                            assert(sorted@[k] == v);
                        } else {
                            assert(sorted@[k + 1] == v);
                        }
                    }
                }
            }
            assert(members@.take(i + 1) =~= members@.take(i as int).push(id));
            lemma_push_to_set(members@.take(i as int), id);
        }
        i = i + 1;
    }
    proof {
        assert(members@.take(members@.len() as int) =~= members@);
        lemma_ascending_no_duplicates(sorted@);
    }
    sorted
}

} // verus!
