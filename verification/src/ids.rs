//! Collection identifiers and the bundles over which a timestamp is chosen.

use std::collections::{BTreeMap, BTreeSet};
use vstd::prelude::*;
use vstd::std_specs::cmp::OrdSpec;
use vstd::std_specs::iter::IteratorSpec;

verus! {

/// Identifies a storage or compute collection.
pub type GlobalId = u64;

/// Identifies a compute instance.
pub type ComputeInstanceId = u64;

/// The members of a set, each once, in ascending order.
pub fn set_members(s: &BTreeSet<u64>) -> (r: Vec<u64>)
    ensures
        r@.no_duplicates(),
        r@.to_set() == s@,
        forall|i: int, j: int| 0 <= i < j < r@.len() ==> r@[i] < r@[j],
{
    let mut out: Vec<u64> = Vec::new();
    for x in it: s.iter()
        invariant
            out@.len() == it.index(),
            forall|i: int| 0 <= i < out@.len() ==> out@[i] == *it.seq()[i],
    {
        out.push(*x);
    }
    proof {
        broadcast use vstd::std_specs::btree::group_btree_axioms;

        assert(out@ =~= s.iter().remaining().unref());
        let yielded = s.iter().remaining();
        broadcast use vstd::laws_cmp::group_laws_cmp;

        assert(vstd::laws_cmp::obeys_cmp::<u64>());
        assert(vstd::laws_cmp::obeys_cmp::<&u64>());
        assert(vstd::std_specs::btree::increasing_seq(yielded));
        vstd::std_specs::btree::axiom_increasing_seq_meaning::<&u64>(yielded);
        assert forall|i: int, j: int| 0 <= i < j < out@.len() implies out@[i] < out@[j] by {
            assert(OrdSpec::cmp_spec(&yielded[i], &yielded[j]) is Less);
        }
    }
    out
}

/// The keys of a map, each once, in ascending order.
pub fn map_keys<V>(m: &BTreeMap<u64, V>) -> (r: Vec<u64>)
    ensures
        r@.no_duplicates(),
        r@.to_set() == m@.dom(),
        forall|i: int, j: int| 0 <= i < j < r@.len() ==> r@[i] < r@[j],
{
    let mut out: Vec<u64> = Vec::new();
    for x in it: m.keys()
        invariant
            out@.len() == it.index(),
            forall|i: int| 0 <= i < out@.len() ==> out@[i] == *it.seq()[i],
    {
        out.push(*x);
    }
    proof {
        broadcast use vstd::std_specs::btree::group_btree_axioms;

        assert(out@ =~= m.keys().remaining().unref());
        let yielded = m.keys().remaining();
        broadcast use vstd::laws_cmp::group_laws_cmp;

        assert(vstd::laws_cmp::obeys_cmp::<u64>());
        assert(vstd::laws_cmp::obeys_cmp::<&u64>());
        assert(vstd::std_specs::btree::increasing_seq(yielded));
        vstd::std_specs::btree::axiom_increasing_seq_meaning::<&u64>(yielded);
        assert forall|i: int, j: int| 0 <= i < j < out@.len() implies out@[i] < out@[j] by {
            assert(OrdSpec::cmp_spec(&yielded[i], &yielded[j]) is Less);
        }
    }
    out
}

/// No element of a sequence has no members.
pub proof fn lemma_take_none_to_set(s: Seq<u64>)
    ensures
        s.take(0).to_set() == Set::<u64>::empty(),
{
    assert(s.take(0).to_set() =~= Set::<u64>::empty());
}

/// The members of one more element of a sequence.
pub proof fn lemma_take_next_to_set(s: Seq<u64>, i: int)
    requires
        0 <= i < s.len(),
    ensures
        s.take(i + 1).to_set() == s.take(i).to_set().insert(s[i]),
        s.take(0).to_set() == Set::<u64>::empty(),
{
    let shorter = s.take(i);
    let longer = s.take(i + 1);
    assert(longer =~= shorter.push(s[i]));
    assert forall|x: u64| longer.to_set().contains(x) <==> shorter.to_set().insert(
        s[i],
    ).contains(x) by {
        if shorter.contains(x) {
            let k = choose|k: int| 0 <= k < shorter.len() && shorter[k] == x;
            assert(longer[k] == x);
        }
        if x == s[i] {
            assert(longer[i] == x);
        }
        if longer.contains(x) {
            let k = choose|k: int| 0 <= k < longer.len() && longer[k] == x;
            if k < i {
                assert(shorter[k] == x);
            }
        }
    }
    assert(s.take(i + 1).to_set() =~= s.take(i).to_set().insert(s[i]));
    assert(s.take(0).to_set() =~= Set::<u64>::empty());
}

/// The collections that one timestamp is chosen for: storage collections, and
/// compute collections by the instance that holds them.
pub struct CollectionIdBundle {
    pub storage_ids: BTreeSet<GlobalId>,
    pub compute_ids: BTreeMap<ComputeInstanceId, BTreeSet<GlobalId>>,
}

impl CollectionIdBundle {
    /// Whether the bundle names the storage collection `id`.
    pub open spec fn has_storage(&self, id: GlobalId) -> bool {
        self.storage_ids@.contains(id)
    }

    /// Whether the bundle names the compute collection `id` on `instance`.
    pub open spec fn has_compute(&self, instance: ComputeInstanceId, id: GlobalId) -> bool {
        self.compute_ids@.contains_key(instance) && self.compute_ids@[instance]@.contains(id)
    }
}

} // verus!
