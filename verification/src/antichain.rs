//! The boundary to `timely` and `differential-dataflow`.
//!
//! Frontiers are kept in timely's `Antichain` and `MutableAntichain`, over
//! `u64` times. Everything here is believed, not proved: each function calls
//! one function of those crates, and its contract restates what that
//! function's source does. The rest of the library is verified against these
//! contracts.

use differential_dataflow::lattice::Lattice;
use timely::progress::frontier::{Antichain, MutableAntichain};
use timely::PartialOrder;
use vstd::prelude::*;

verus! {

#[verifier::external_type_specification]
#[verifier::external_body]
#[verifier::reject_recursive_types(T)]
pub struct ExAntichain<T>(Antichain<T>);

/// A `timely::progress::frontier::MutableAntichain<u64>`: times with signed
/// counts, and the least time whose count is positive.
#[verifier::external_body]
pub struct CountedAntichain {
    inner: MutableAntichain<u64>,
}

/// The elements that an `Antichain` holds, in the order in which it holds them.
pub uninterp spec fn antichain_elements(a: Antichain<u64>) -> Seq<u64>;

/// The count that a `MutableAntichain` has accumulated for each time. The map
/// is total: a time that was never updated has count zero.
pub uninterp spec fn counted_times(m: CountedAntichain) -> Map<u64, int>;

/// The sum of the absolute values of the updates that a `MutableAntichain`
/// stores. It bounds every intermediate sum that consolidation forms.
pub uninterp spec fn counted_weight(m: CountedAntichain) -> nat;

/// Whether some element of `s` is less than or equal to `t`.
pub open spec fn some_less_equal(s: Seq<u64>, t: u64) -> bool {
    exists|i: int| 0 <= i < s.len() && s[i] <= t
}

/// Whether some element of `s` is strictly less than `t`.
pub open spec fn some_less_than(s: Seq<u64>, t: u64) -> bool {
    exists|i: int| 0 <= i < s.len() && s[i] < t
}

/// The elements after `t` is offered to an antichain holding `s`: unchanged
/// where an element already lies at or below `t`; otherwise the elements that
/// `t` does not lie at or below, followed by `t`.
pub open spec fn inserted(s: Seq<u64>, t: u64) -> Seq<u64> {
    if some_less_equal(s, t) {
        s
    } else {
        s.filter(|x: u64| !(t <= x)).push(t)
    }
}

/// The larger of two times.
pub open spec fn later(a: u64, b: u64) -> u64 {
    if a >= b {
        a
    } else {
        b
    }
}

/// The map in which every time has count zero.
pub open spec fn no_counts() -> Map<u64, int> {
    Map::total(|t: u64| 0int)
}

/// Whether `t` has a positive count in `counts` and no earlier time has.
pub open spec fn least_positive(counts: Map<u64, int>, t: u64) -> bool {
    &&& counts[t] > 0
    &&& forall|e: u64| e < t ==> counts[e] <= 0
}

/// The absolute value of `d`.
pub open spec fn magnitude(d: i64) -> nat {
    if d < 0 {
        (-d) as nat
    } else {
        d as nat
    }
}

/// `Antichain::new`: an antichain without elements.
#[verifier::external_body]
pub(crate) fn antichain_new() -> (r: Antichain<u64>)
    ensures
        antichain_elements(r) == Seq::<u64>::empty(),
{
    Antichain::new()
}

/// `Antichain::from_elem`: the antichain that holds `t` alone.
#[verifier::external_body]
pub(crate) fn antichain_from_elem(t: u64) -> (r: Antichain<u64>)
    ensures
        antichain_elements(r) == seq![t],
{
    Antichain::from_elem(t)
}

/// `Antichain::elements`: a copy of the elements, in the order held.
#[verifier::external_body]
pub(crate) fn antichain_to_vec(a: &Antichain<u64>) -> (r: Vec<u64>)
    ensures
        r@ == antichain_elements(*a),
{
    a.elements().to_vec()
}

/// `Clone::clone` of an `Antichain`: the same elements in the same order.
#[verifier::external_body]
pub(crate) fn antichain_clone(a: &Antichain<u64>) -> (r: Antichain<u64>)
    ensures
        antichain_elements(r) == antichain_elements(*a),
{
    a.clone()
}

/// `Antichain::less_equal`: whether any element is at or below `t`.
#[verifier::external_body]
pub(crate) fn antichain_less_equal(a: &Antichain<u64>, t: u64) -> (r: bool)
    ensures
        r == some_less_equal(antichain_elements(*a), t),
{
    a.less_equal(&t)
}

/// `Antichain::less_than`: whether any element is strictly below `t`.
#[verifier::external_body]
pub(crate) fn antichain_less_than(a: &Antichain<u64>, t: u64) -> (r: bool)
    ensures
        r == some_less_than(antichain_elements(*a), t),
{
    a.less_than(&t)
}

/// `Antichain::insert`: `t` is added unless an element at or below it is
/// present; when it is added, the elements at or above it leave first. Returns
/// whether `t` was added.
#[verifier::external_body]
pub(crate) fn antichain_insert(a: &mut Antichain<u64>, t: u64) -> (r: bool)
    ensures
        r == !some_less_equal(antichain_elements(*old(a)), t),
        antichain_elements(*final(a)) == inserted(antichain_elements(*old(a)), t),
{
    a.insert(t)
}

/// `Antichain::extend` with the elements of `other`, which holds at most one:
/// that element, if any, is inserted.
#[verifier::external_body]
pub(crate) fn antichain_extend(a: &mut Antichain<u64>, other: &Antichain<u64>)
    requires
        antichain_elements(*other).len() <= 1,
    ensures
        antichain_elements(*final(a)) == if antichain_elements(*other).len() == 0 {
            antichain_elements(*old(a))
        } else {
            inserted(antichain_elements(*old(a)), antichain_elements(*other)[0])
        },
{
    a.extend(other.elements().iter().cloned());
}

/// `Lattice::join` of two antichains that hold at most one element each: the
/// join of every pair of elements is inserted into an empty antichain, so the
/// result is empty where either is, and else holds the larger element.
#[verifier::external_body]
pub(crate) fn antichain_join(a: &Antichain<u64>, b: &Antichain<u64>) -> (r: Antichain<u64>)
    requires
        antichain_elements(*a).len() <= 1,
        antichain_elements(*b).len() <= 1,
    ensures
        antichain_elements(r) == if antichain_elements(*a).len() == 0 || antichain_elements(
            *b,
        ).len() == 0 {
            Seq::<u64>::empty()
        } else {
            seq![later(antichain_elements(*a)[0], antichain_elements(*b)[0])]
        },
{
    a.join(b)
}

/// `PartialOrder::less_than` on the borrowed forms of two antichains that hold
/// at most one element each: every element of `b` has an element of `a` at or
/// below it, and the two do not hold the same elements.
#[verifier::external_body]
pub(crate) fn antichain_strictly_less(a: &Antichain<u64>, b: &Antichain<u64>) -> (r: bool)
    requires
        antichain_elements(*a).len() <= 1,
        antichain_elements(*b).len() <= 1,
    ensures
        r == if antichain_elements(*b).len() == 0 {
            antichain_elements(*a).len() == 1
        } else {
            antichain_elements(*a).len() == 1 && antichain_elements(*a)[0] < antichain_elements(
                *b,
            )[0]
        },
{
    PartialOrder::less_than(&a.borrow(), &b.borrow())
}

/// `Lattice::advance_by` of a `u64` by a frontier that holds at most one
/// element: unchanged by the empty frontier, and else the later of the time
/// and the element.
#[verifier::external_body]
pub(crate) fn time_advance_by(t: u64, frontier: &Antichain<u64>) -> (r: u64)
    requires
        antichain_elements(*frontier).len() <= 1,
    ensures
        r == if antichain_elements(*frontier).len() == 0 {
            t
        } else {
            later(t, antichain_elements(*frontier)[0])
        },
{
    let mut advanced = t;
    advanced.advance_by(frontier.borrow());
    advanced
}

/// `MutableAntichain::new`: no time has a count.
#[verifier::external_body]
pub(crate) fn counted_new() -> (r: CountedAntichain)
    ensures
        counted_times(r) == no_counts(),
        counted_weight(r) == 0,
{
    CountedAntichain { inner: MutableAntichain::new() }
}

/// `MutableAntichain::update_iter` with the one update `(time, delta)`: the
/// count of `time` changes by `delta`. The stored updates are summed in `i64`,
/// which must not overflow.
#[verifier::external_body]
pub(crate) fn counted_update(m: &mut CountedAntichain, time: u64, delta: i64)
    requires
        delta > i64::MIN,
        counted_weight(*old(m)) + magnitude(delta) <= i64::MAX,
    ensures
        counted_times(*final(m)) == counted_times(*old(m)).insert(
            time,
            counted_times(*old(m))[time] + delta,
        ),
        counted_weight(*final(m)) <= counted_weight(*old(m)) + magnitude(delta),
{
    let _ = m.inner.update_iter(std::iter::once((time, delta)));
}

/// `MutableAntichain::frontier`, as an owned antichain: the minimal elements
/// with positive count, each once.
#[verifier::external_body]
pub(crate) fn counted_frontier(m: &CountedAntichain) -> (r: Antichain<u64>)
    ensures
        antichain_elements(r).no_duplicates(),
        forall|t: u64|
            antichain_elements(r).contains(t) <==> least_positive(counted_times(*m), t),
{
    m.inner.frontier().to_owned()
}

} // verus!
