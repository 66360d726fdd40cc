//! Walking an ordered map by ascending key.

use std::collections::{BTreeMap, BTreeSet};
use vstd::prelude::*;
use vstd::std_specs::cmp::OrdSpec;
use vstd::std_specs::iter::IteratorSpec;

verus! {

broadcast use vstd::laws_cmp::group_laws_cmp;

/// Each element is smaller than every later one.
pub open spec fn strictly_ascending(s: Seq<u32>) -> bool {
    forall|i: int, j: int| 0 <= i < j < s.len() ==> s[i] < s[j]
}

/// `s` lists the members of `set`, each once, in ascending order.
pub open spec fn lists_ascending(s: Seq<u32>, set: Set<u32>) -> bool {
    &&& strictly_ascending(s)
    &&& forall|k: u32| s.contains(k) <==> set.contains(k)
}

/// Only one sequence lists a given set in ascending order: a listing by
/// ascending key comes out the same each time.
pub proof fn lemma_ascending_listing_unique(a: Seq<u32>, b: Seq<u32>, set: Set<u32>)
    requires
        lists_ascending(a, set),
        lists_ascending(b, set),
    ensures
        a == b,
    decreases a.len(),
{
    if a.len() == 0 {
        if b.len() > 0 {
            assert(b.contains(b[0]));
            assert(a.contains(b[0]));
        }
        assert(a =~= b);
    } else {
        let x = a.last();
        assert(a.contains(x));
        assert(b.contains(x));
        let j = choose|j: int| 0 <= j < b.len() && b[j] == x;
        if j < b.len() - 1 {
            let y = b.last();
            assert(b.contains(y));
            assert(a.contains(y));
            let i = choose|i: int| 0 <= i < a.len() && a[i] == y;
            assert(b[j] < b[b.len() - 1]);
            assert(i < a.len() - 1 ==> a[i] < a[a.len() - 1]);
        }
        let a0 = a.drop_last();
        let b0 = b.drop_last();
        let set0 = set.remove(x);
        assert forall|k: u32| a0.contains(k) <==> set0.contains(k) by {
            if a0.contains(k) {
                let i = choose|i: int| 0 <= i < a0.len() && a0[i] == k;
                assert(a[i] == k);
                assert(a[i] < a[a.len() - 1]);
                assert(a.contains(k));
            }
            if set0.contains(k) {
                assert(a.contains(k));
                let i = choose|i: int| 0 <= i < a.len() && a[i] == k;
                assert(a0[i] == k);
            }
        }
        assert forall|k: u32| b0.contains(k) <==> set0.contains(k) by {
            if b0.contains(k) {
                let i = choose|i: int| 0 <= i < b0.len() && b0[i] == k;
                assert(b[i] == k);
                assert(b[i] < b[b.len() - 1]);
                assert(b.contains(k));
            }
            if set0.contains(k) {
                assert(b.contains(k));
                let i = choose|i: int| 0 <= i < b.len() && b[i] == k;
                assert(b0[i] == k);
            }
        }
        lemma_ascending_listing_unique(a0, b0, set0);
        assert(a =~= a0.push(x));
        assert(b =~= b0.push(x));
    }
}

/// What the first `i + 1` elements of an ascending sequence hold: the first
/// `i`, which are all smaller than the next one, and the next one.
pub proof fn lemma_take_step(keys: Seq<u32>, i: int)
    requires
        0 <= i < keys.len(),
        strictly_ascending(keys),
    ensures
        forall|k: u32|
            #![trigger keys.take(i + 1).contains(k)]
            keys.take(i + 1).contains(k) <==> (keys.take(i).contains(k) || k == keys[i]),
        forall|k: u32| #![trigger keys.take(i).contains(k)] keys.take(i).contains(k) ==> k < keys[i],
{
    let before = keys.take(i);
    let after = keys.take(i + 1);
    assert forall|k: u32| after.contains(k) <==> (before.contains(k) || k == keys[i]) by {
        if after.contains(k) {
            let j = choose|j: int| 0 <= j < after.len() && after[j] == k;
            if j < i {
                assert(before[j] == k);
            }
        }
        if before.contains(k) {
            let j = choose|j: int| 0 <= j < before.len() && before[j] == k;
            assert(after[j] == k);
        }
        if k == keys[i] {
            assert(after[i] == k);
        }
    }
    assert forall|k: u32| before.contains(k) implies k < keys[i] by {
        let j = choose|j: int| 0 <= j < before.len() && before[j] == k;
        assert(keys[j] == k);
    }
}

/// The keys of `m` in ascending order.
pub fn sorted_keys<V>(m: &BTreeMap<u32, V>) -> (v: Vec<u32>)
    ensures
        lists_ascending(v@, m@.dom()),
        v@.len() == m@.len(),
{
    let mut v: Vec<u32> = Vec::new();
    for k in it: m.keys()
        invariant
            it.seq() == m.keys().remaining(),
            v@.len() == it.index(),
            forall|j: int| 0 <= j < v@.len() ==> v@[j] == *it.seq()[j],
    {
        v.push(*k);
    }
    proof {
        let s = m.keys().remaining();
        assert(v@ =~= s.unref());
        assert(vstd::laws_cmp::obeys_cmp::<&u32>());
        vstd::std_specs::btree::axiom_increasing_seq_meaning::<&u32>(s);
        assert forall|i: int, j: int| 0 <= i < j < v@.len() implies v@[i] < v@[j] by {
            assert(OrdSpec::cmp_spec(&s[i], &s[j]) is Less);
        }
        assert forall|k: u32| v@.contains(k) <==> m@.dom().contains(k) by {
            assert(v@.to_set().contains(k) <==> v@.contains(k));
        }
    }
    v
}

/// `s` lists the members of `set`, each once, in ascending order.
pub open spec fn lists_days_ascending(s: Seq<i32>, set: Set<i32>) -> bool {
    &&& forall|i: int, j: int| 0 <= i < j < s.len() ==> s[i] < s[j]
    &&& forall|k: i32| s.contains(k) <==> set.contains(k)
}

/// The keys of a map from day numbers, in ascending order.
pub fn sorted_days<V>(m: &BTreeMap<i32, V>) -> (v: Vec<i32>)
    ensures
        lists_days_ascending(v@, m@.dom()),
{
    let mut v: Vec<i32> = Vec::new();
    for k in it: m.keys()
        invariant
            it.seq() == m.keys().remaining(),
            v@.len() == it.index(),
            forall|j: int| 0 <= j < v@.len() ==> v@[j] == *it.seq()[j],
    {
        v.push(*k);
    }
    proof {
        let s = m.keys().remaining();
        assert(v@ =~= s.unref());
        assert(vstd::laws_cmp::obeys_cmp::<&i32>());
        vstd::std_specs::btree::axiom_increasing_seq_meaning::<&i32>(s);
        assert forall|i: int, j: int| 0 <= i < j < v@.len() implies v@[i] < v@[j] by {
            assert(OrdSpec::cmp_spec(&s[i], &s[j]) is Less);
        }
        assert forall|k: i32| v@.contains(k) <==> m@.dom().contains(k) by {
            assert(v@.to_set().contains(k) <==> v@.contains(k));
        }
    }
    v
}

/// The members of a set of ids, in ascending order.
pub fn sorted_members(set: &BTreeSet<u32>) -> (v: Vec<u32>)
    ensures
        lists_ascending(v@, set@),
{
    let mut v: Vec<u32> = Vec::new();
    for k in it: set.iter()
        invariant
            it.seq() == set.iter().remaining(),
            v@.len() == it.index(),
            forall|j: int| 0 <= j < v@.len() ==> v@[j] == *it.seq()[j],
    {
        v.push(*k);
    }
    proof {
        let s = set.iter().remaining();
        assert(v@ =~= s.unref());
        assert(vstd::laws_cmp::obeys_cmp::<&u32>());
        vstd::std_specs::btree::axiom_increasing_seq_meaning::<&u32>(s);
        assert forall|i: int, j: int| 0 <= i < j < v@.len() implies v@[i] < v@[j] by {
            assert(OrdSpec::cmp_spec(&s[i], &s[j]) is Less);
        }
        assert forall|k: u32| v@.contains(k) <==> set@.contains(k) by {
            assert(v@.to_set().contains(k) <==> v@.contains(k));
        }
    }
    v
}

} // verus!
