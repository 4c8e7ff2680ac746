//! Frontiers over a totally ordered time.
//!
//! Times are `u64`. A frontier is a set of times none of which lies at or
//! below another; over a total order it holds at most one time. Its view is an
//! `Option<u64>`: `Some(t)` is the frontier `{t}`, and `None` is the empty
//! frontier, which stands for "complete for all time" and lies above every
//! other frontier.

use crate::antichain::{
    antichain_clone, antichain_elements, antichain_extend, antichain_from_elem, antichain_insert,
    antichain_join, antichain_less_equal, antichain_less_than, antichain_new,
    antichain_strictly_less, antichain_to_vec, counted_frontier, counted_times, inserted, later,
    least_positive, some_less_equal, some_less_than, time_advance_by, CountedAntichain,
};
use timely::progress::frontier::Antichain;
use vstd::prelude::*;

verus! {

/// Whether the frontier holds a time at or below `t`.
pub open spec fn frontier_less_equal(f: Option<u64>, t: u64) -> bool {
    f matches Some(e) && e <= t
}

/// Whether the frontier holds a time strictly below `t`.
pub open spec fn frontier_less_than(f: Option<u64>, t: u64) -> bool {
    f matches Some(e) && e < t
}

/// The frontier after `t` is inserted: the earlier of its time and `t`.
pub open spec fn frontier_insert(f: Option<u64>, t: u64) -> Option<u64> {
    match f {
        Some(e) => if e <= t {
            f
        } else {
            Some(t)
        },
        None => Some(t),
    }
}

/// The greatest frontier at or below both: the union of the two, reduced.
pub open spec fn frontier_meet(a: Option<u64>, b: Option<u64>) -> Option<u64> {
    match b {
        Some(t) => frontier_insert(a, t),
        None => a,
    }
}

/// The least frontier at or above both.
pub open spec fn frontier_join(a: Option<u64>, b: Option<u64>) -> Option<u64> {
    match (a, b) {
        (Some(x), Some(y)) => Some(later(x, y)),
        _ => None,
    }
}

/// The order on frontiers: every time of `b` has a time of `a` at or below it.
pub open spec fn frontier_le(a: Option<u64>, b: Option<u64>) -> bool {
    match b {
        Some(y) => a matches Some(x) && x <= y,
        None => true,
    }
}

/// The strict order on frontiers.
pub open spec fn frontier_lt(a: Option<u64>, b: Option<u64>) -> bool {
    frontier_le(a, b) && a != b
}

/// A time advanced by a frontier: unchanged by the empty frontier, and else
/// the later of the time and the frontier's time.
pub open spec fn time_advanced(t: u64, f: Option<u64>) -> u64 {
    match f {
        Some(e) => later(t, e),
        None => t,
    }
}

/// The least time with a positive count, if there is one.
pub open spec fn consolidated(counts: Map<u64, int>) -> Option<u64> {
    if exists|t: u64| least_positive(counts, t) {
        Some(choose|t: u64| least_positive(counts, t))
    } else {
        None
    }
}

/// The least time with a positive count is unique.
pub proof fn lemma_consolidated_is(counts: Map<u64, int>, t: u64)
    requires
        least_positive(counts, t),
    ensures
        consolidated(counts) == Some(t),
{
    let c = choose|c: u64| least_positive(counts, c);
    assert(least_positive(counts, c));
    if c < t {
        assert(counts[c] <= 0);
    }
    if t < c {
        assert(counts[t] <= 0);
    }
}

/// What `inserted` gives on at most one element.
pub proof fn lemma_inserted_small(s: Seq<u64>, t: u64)
    requires
        s.len() <= 1,
    ensures
        inserted(s, t).len() == 1,
        inserted(s, t)[0] == if s.len() == 1 && s[0] <= t {
            s[0]
        } else {
            t
        },
{
    if s.len() == 1 && s[0] <= t {
        assert(some_less_equal(s, t));
    } else {
        assert(!some_less_equal(s, t));
        let kept = s.filter(|x: u64| !(t <= x));
        reveal_with_fuel(Seq::filter, 2);
        if s.len() == 1 {
            assert(s.drop_last().len() == 0);
        }
        assert(kept.len() == 0);
    }
}

/// A frontier of `u64` times, kept in a timely `Antichain`.
#[derive(Debug, PartialEq, Eq)]
pub struct Frontier {
    inner: Antichain<u64>,
}

impl View for Frontier {
    type V = Option<u64>;

    closed spec fn view(&self) -> Option<u64> {
        if antichain_elements(self.inner).len() == 0 {
            None
        } else {
            Some(antichain_elements(self.inner)[0])
        }
    }
}

impl Clone for Frontier {
    fn clone(&self) -> (r: Self)
        ensures
            r@ == self@,
    {
        proof {
            use_type_invariant(self);
        }
        Frontier { inner: antichain_clone(&self.inner) }
    }
}

impl Frontier {
    #[verifier::type_invariant]
    spec fn holds_at_most_one(self) -> bool {
        antichain_elements(self.inner).len() <= 1
    }

    /// The empty frontier.
    pub fn new() -> (r: Self)
        ensures
            r@ is None,
    {
        Frontier { inner: antichain_new() }
    }

    /// The frontier of counted times: the least time with a positive count.
    pub fn of_counts(counts: &CountedAntichain) -> (r: Self)
        ensures
            r@ == consolidated(counted_times(*counts)),
    {
        let held = counted_frontier(counts);
        proof {
            let s = antichain_elements(held);
            let c = counted_times(*counts);
            if s.len() >= 2 {
                assert(s.contains(s[0]));
                assert(s.contains(s[1]));
                assert(least_positive(c, s[0]));
                assert(least_positive(c, s[1]));
                assert(s[0] != s[1]);
                if s[0] < s[1] {
                    assert(c[s[0]] <= 0);
                } else {
                    assert(c[s[1]] <= 0);
                }
            }
            if s.len() == 1 {
                assert(s.contains(s[0]));
                lemma_consolidated_is(c, s[0]);
            } else {
                assert forall|t: u64| !least_positive(c, t) by {
                    assert(!s.contains(t));
                }
            }
        }
        Frontier { inner: held }
    }

    /// The frontier `{t}`.
    pub fn from_elem(t: u64) -> (r: Self)
        ensures
            r@ == Some(t),
    {
        Frontier { inner: antichain_from_elem(t) }
    }

    /// Takes over an antichain, if it holds at most one time.
    pub fn from_antichain(a: Antichain<u64>) -> (r: Option<Self>)
        ensures
            r is Some <==> antichain_elements(a).len() <= 1,
            r matches Some(f) ==> f@ == (if antichain_elements(a).len() == 0 {
                None
            } else {
                Some(antichain_elements(a)[0])
            }),
    {
        let held = antichain_to_vec(&a);
        if held.len() <= 1 {
            Some(Frontier { inner: a })
        } else {
            None
        }
    }

    /// Gives up the antichain.
    pub fn into_antichain(self) -> (a: Antichain<u64>)
        ensures
            antichain_elements(a).len() <= 1,
            self@ == (if antichain_elements(a).len() == 0 {
                None
            } else {
                Some(antichain_elements(a)[0])
            }),
    {
        proof {
            use_type_invariant(&self);
        }
        self.inner
    }

    /// The frontier's time, if it has one.
    pub fn as_option(&self) -> (r: Option<u64>)
        ensures
            r == self@,
    {
        proof {
            use_type_invariant(self);
        }
        let held = antichain_to_vec(&self.inner);
        if held.len() == 0 {
            None
        } else {
            Some(held[0])
        }
    }

    /// The frontier's times: none or one.
    pub fn elements(&self) -> (r: Vec<u64>)
        ensures
            r@ == match self@ {
                Some(t) => seq![t],
                None => Seq::<u64>::empty(),
            },
    {
        proof {
            use_type_invariant(self);
        }
        let held = antichain_to_vec(&self.inner);
        assert(self@ is Some ==> held@ =~= seq![self@->0]);
        assert(self@ is None ==> held@ =~= Seq::<u64>::empty());
        held
    }

    /// Whether the frontier is empty.
    pub fn is_empty(&self) -> (r: bool)
        ensures
            r == (self@ is None),
    {
        self.as_option().is_none()
    }

    /// Whether the frontier holds a time at or below `t`.
    pub fn less_equal(&self, t: u64) -> (r: bool)
        ensures
            r == frontier_less_equal(self@, t),
    {
        proof {
            use_type_invariant(self);
        }
        let r = antichain_less_equal(&self.inner, t);
        proof {
            let s = antichain_elements(self.inner);
            if s.len() == 1 && s[0] <= t {
                assert(some_less_equal(s, t));
            }
        }
        r
    }

    /// Whether the frontier holds a time strictly below `t`.
    pub fn less_than(&self, t: u64) -> (r: bool)
        ensures
            r == frontier_less_than(self@, t),
    {
        proof {
            use_type_invariant(self);
        }
        let r = antichain_less_than(&self.inner, t);
        proof {
            let s = antichain_elements(self.inner);
            if s.len() == 1 && s[0] < t {
                assert(some_less_than(s, t));
            }
        }
        r
    }

    /// Inserts `t` unless the frontier already holds a time at or below it.
    /// Returns whether `t` was inserted.
    pub fn insert(&mut self, t: u64) -> (added: bool)
        ensures
            added == !frontier_less_equal(old(self)@, t),
            final(self)@ == frontier_insert(old(self)@, t),
    {
        proof {
            use_type_invariant(&*self);
        }
        let mut held = antichain_clone(&self.inner);
        let added = antichain_insert(&mut held, t);
        proof {
            let s = antichain_elements(self.inner);
            lemma_inserted_small(s, t);
            if s.len() == 1 && s[0] <= t {
                assert(some_less_equal(s, t));
            }
        }
        self.inner = held;
        added
    }

    /// Inserts the time of `other`, if it has one.
    pub fn extend(&mut self, other: &Frontier)
        ensures
            final(self)@ == frontier_meet(old(self)@, other@),
    {
        proof {
            use_type_invariant(&*self);
            use_type_invariant(other);
        }
        let mut held = antichain_clone(&self.inner);
        antichain_extend(&mut held, &other.inner);
        proof {
            let s = antichain_elements(self.inner);
            let o = antichain_elements(other.inner);
            if o.len() == 1 {
                lemma_inserted_small(s, o[0]);
            }
        }
        self.inner = held;
    }

    /// The least frontier at or above both.
    pub fn join(&self, other: &Frontier) -> (r: Frontier)
        ensures
            r@ == frontier_join(self@, other@),
    {
        proof {
            use_type_invariant(self);
            use_type_invariant(other);
        }
        Frontier { inner: antichain_join(&self.inner, &other.inner) }
    }

    /// Replaces the frontier by its join with `other`.
    pub fn join_assign(&mut self, other: &Frontier)
        ensures
            final(self)@ == frontier_join(old(self)@, other@),
    {
        proof {
            use_type_invariant(&*self);
            use_type_invariant(other);
        }
        let joined = antichain_join(&self.inner, &other.inner);
        self.inner = joined;
    }

    /// Whether this frontier lies strictly before `other` in the order on
    /// frontiers.
    pub fn strictly_before(&self, other: &Frontier) -> (r: bool)
        ensures
            r == frontier_lt(self@, other@),
    {
        proof {
            use_type_invariant(self);
            use_type_invariant(other);
        }
        antichain_strictly_less(&self.inner, &other.inner)
    }

    /// Advances `t` by this frontier.
    pub fn advance(&self, t: u64) -> (r: u64)
        ensures
            r == time_advanced(t, self@),
    {
        proof {
            use_type_invariant(self);
        }
        time_advance_by(t, &self.inner)
    }
}

} // verus!
