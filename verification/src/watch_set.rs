//! Watch sets: a caller names collections and a time, and is told, once, when
//! the write frontiers of all of them have passed the time.

use crate::client::uppers_view;
use crate::frontier::{frontier_less_equal, Frontier};
use crate::ids::{lemma_take_next_to_set, lemma_take_none_to_set, set_members, GlobalId};
use std::collections::{BTreeMap, BTreeSet};
use vstd::prelude::*;

verus! {

/// A pending watch: the time to pass, the collections whose write frontiers
/// have not passed it yet, and the token that is handed back when all have.
pub struct Watch<W> {
    pub target: u64,
    pub ids: Set<GlobalId>,
    pub token: W,
}

/// Whether a frontier has passed a time: it has no time at or below it.
pub open spec fn has_passed(frontier: Option<u64>, target: u64) -> bool {
    !frontier_less_equal(frontier, target)
}

/// Whether an update of the write frontier of `id` takes `id` out of a watch.
pub open spec fn is_hit<W>(watch: Watch<W>, id: GlobalId, frontier: Option<u64>) -> bool {
    watch.ids.contains(id) && has_passed(frontier, watch.target)
}

/// Whether an update of the write frontier of `id` completes a watch: it
/// takes out the last collection that the watch waited for.
pub open spec fn is_completed<W>(watch: Watch<W>, id: GlobalId, frontier: Option<u64>) -> bool {
    is_hit(watch, id, frontier) && watch.ids.remove(id) =~= Set::<GlobalId>::empty()
}

/// A watch after an update of the write frontier of `id`.
pub open spec fn watch_after<W>(watch: Watch<W>, id: GlobalId, frontier: Option<u64>) -> Watch<
    W,
> {
    if is_hit(watch, id, frontier) {
        Watch { target: watch.target, ids: watch.ids.remove(id), token: watch.token }
    } else {
        watch
    }
}

/// The pending watches after an update of the write frontier of `id`, where
/// only the watches of `among` are looked at.
pub open spec fn after_update_among<W>(
    pending: Map<u64, Watch<W>>,
    id: GlobalId,
    frontier: Option<u64>,
    among: Set<u64>,
) -> Map<u64, Watch<W>> {
    Map::new(
        |h: u64|
            pending.contains_key(h) && !(among.contains(h) && is_completed(
                pending[h],
                id,
                frontier,
            )),
        |h: u64|
            if among.contains(h) {
                watch_after(pending[h], id, frontier)
            } else {
                pending[h]
            },
    )
}

/// The pending watches after an update of the write frontier of `id`: every
/// watch that waited for `id` at a time that the frontier has passed waits
/// for it no longer, and where it was the last, the watch is gone.
pub open spec fn after_update<W>(
    pending: Map<u64, Watch<W>>,
    id: GlobalId,
    frontier: Option<u64>,
) -> Map<u64, Watch<W>> {
    after_update_among(pending, id, frontier, Set::full())
}

/// The pending watches after a list of updates, one after the other.
pub open spec fn after_updates<W>(
    pending: Map<u64, Watch<W>>,
    updates: Seq<(u64, Option<u64>)>,
) -> Map<u64, Watch<W>>
    decreases updates.len(),
{
    if updates.len() == 0 {
        pending
    } else {
        after_updates(
            after_update(pending, updates[0].0, updates[0].1),
            updates.drop_first(),
        )
    }
}

/// Whether the lists by collection and the watches by handle say the same:
/// every handle in the list of a collection is that of a watch that waits
/// for the collection, no list holds a handle twice, and every watch is in
/// the list of every collection that it waits for.
pub open spec fn linked(lists: Map<GlobalId, Seq<u64>>, regs: Map<u64, Set<GlobalId>>) -> bool {
    &&& forall|id: GlobalId, k: int|
        lists.contains_key(id) && 0 <= k < lists[id].len() ==> regs.contains_key(
            #[trigger] lists[id][k],
        ) && regs[lists[id][k]].contains(id)
    &&& forall|id: GlobalId| #[trigger] lists.contains_key(id) ==> lists[id].no_duplicates()
    &&& forall|h: u64, id: GlobalId|
        regs.contains_key(h) && #[trigger] regs[h].contains(id) ==> lists.contains_key(id)
            && lists[id].contains(h)
}

/// Whether the handles stand in the order in which their watches were
/// installed: a later watch has a greater handle.
pub open spec fn ascending(handles: Seq<u64>) -> bool {
    forall|a: int, b: int| 0 <= a < b < handles.len() ==> handles[a] < handles[b]
}

/// Whether `handles` lists exactly the watches that an update of the write
/// frontier of `id` completes, in the order in which they were installed.
pub open spec fn is_completed_by<W>(
    handles: Seq<u64>,
    pending: Map<u64, Watch<W>>,
    id: GlobalId,
    frontier: Option<u64>,
) -> bool {
    &&& ascending(handles)
    &&& forall|h: u64|
        handles.contains(h) <==> pending.contains_key(h) && is_completed(pending[h], id, frontier)
}

/// The watches that an update of the write frontier of `id` completes, in
/// the order in which they were installed.
pub open spec fn completed_by<W>(
    pending: Map<u64, Watch<W>>,
    id: GlobalId,
    frontier: Option<u64>,
) -> Seq<u64> {
    choose|handles: Seq<u64>| is_completed_by(handles, pending, id, frontier)
}

/// The watches that a list of updates completes, in the order in which they
/// are completed: those of an earlier update before those of a later one,
/// and those of one update in the order in which they were installed.
pub open spec fn completed_by_all<W>(
    pending: Map<u64, Watch<W>>,
    updates: Seq<(u64, Option<u64>)>,
) -> Seq<u64>
    decreases updates.len(),
{
    if updates.len() == 0 {
        Seq::empty()
    } else {
        completed_by(pending, updates[0].0, updates[0].1) + completed_by_all(
            after_update(pending, updates[0].0, updates[0].1),
            updates.drop_first(),
        )
    }
}

/// The tokens of the watches of `handles`, in the same order.
pub open spec fn tokens_of<W>(pending: Map<u64, Watch<W>>, handles: Seq<u64>) -> Seq<W> {
    Seq::new(handles.len(), |k: int| pending[handles[k]].token)
}

/// The tokens that a list of updates hands back, in order.
pub open spec fn handed_back<W>(
    pending: Map<u64, Watch<W>>,
    updates: Seq<(u64, Option<u64>)>,
) -> Seq<W> {
    tokens_of(pending, completed_by_all(pending, updates))
}

/// Two lists in the order of installation that hold the same handles are the
/// same list.
pub proof fn lemma_ascending_unique(s: Seq<u64>, t: Seq<u64>)
    requires
        ascending(s),
        ascending(t),
        forall|h: u64| s.contains(h) <==> t.contains(h),
    ensures
        s == t,
    decreases s.len(),
{
    if s.len() == 0 {
        if t.len() > 0 {
            assert(t.contains(t[0]));
            assert(s.contains(t[0]));
        }
        assert(s =~= t);
    } else {
        let m = s.last();
        assert(s[s.len() - 1] == m);
        assert(s.contains(m));
        assert(t.contains(m));
        let k = choose|k: int| 0 <= k < t.len() && t[k] == m;
        if k < t.len() - 1 {
            let x = t[t.len() - 1];
            assert(m < x);
            assert(t.contains(x));
            assert(s.contains(x));
            let j = choose|j: int| 0 <= j < s.len() && s[j] == x;
            if j < s.len() - 1 {
                assert(s[j] < s[s.len() - 1]);
            }
            assert(false);
        }
        let s1 = s.drop_last();
        let t1 = t.drop_last();
        assert forall|h: u64| s1.contains(h) <==> t1.contains(h) by {
            if s1.contains(h) {
                let j = choose|j: int| 0 <= j < s1.len() && s1[j] == h;
                assert(s[j] == h);
                assert(s[j] < s[s.len() - 1]);
                assert(s.contains(h));
                assert(t.contains(h));
                let q = choose|q: int| 0 <= q < t.len() && t[q] == h;
                assert(q != k);
                assert(t1[q] == h);
            }
            if t1.contains(h) {
                let j = choose|j: int| 0 <= j < t1.len() && t1[j] == h;
                assert(t[j] == h);
                assert(t[j] < t[t.len() - 1]);
                assert(t.contains(h));
                assert(s.contains(h));
                let q = choose|q: int| 0 <= q < s.len() && s[q] == h;
                assert(q != s.len() - 1);
                assert(s1[q] == h);
            }
        }
        lemma_ascending_unique(s1, t1);
        assert(s =~= s1.push(m));
        assert(t =~= t1.push(m));
    }
}

/// A pending watch as it is kept: with the number of collections that it
/// still waits for.
pub struct PendingWatch<W> {
    target: u64,
    remaining: usize,
    token: W,
    ids: Ghost<Set<GlobalId>>,
}

impl<W> PendingWatch<W> {
    /// The watch as the mathematics sees it.
    pub closed spec fn watch(self) -> Watch<W> {
        Watch { target: self.target, ids: self.ids@, token: self.token }
    }

    /// The number of waited-for collections is kept right, and is not zero.
    pub closed spec fn counted(self) -> bool {
        &&& self.ids@.finite()
        &&& self.ids@.len() == self.remaining
        &&& self.remaining >= 1
    }
}

/// The watch sets of a controller.
pub struct WatchSets<W> {
    /// For each collection, the handles of the watches that wait for it.
    watch_sets: BTreeMap<GlobalId, Vec<u64>>,
    /// The pending watches by handle.
    tokens: BTreeMap<u64, PendingWatch<W>>,
    /// The handle of the next watch.
    next_handle: u64,
    /// The tokens of the watches that had nothing to wait for when they were
    /// installed.
    immediate_watch_sets: Vec<W>,
}

impl<W> WatchSets<W> {
    /// The pending watches, by handle.
    pub closed spec fn pending(&self) -> Map<u64, Watch<W>> {
        self.tokens@.map_values(|p: PendingWatch<W>| p.watch())
    }

    /// The tokens that wait to be handed back without delay, oldest first.
    pub closed spec fn immediate(&self) -> Seq<W> {
        self.immediate_watch_sets@
    }

    /// How many watches have been installed to wait.
    pub closed spec fn installed(&self) -> nat {
        self.next_handle as nat
    }

    /// The lists by collection.
    pub closed spec fn lists(&self) -> Map<GlobalId, Seq<u64>> {
        self.watch_sets@.map_values(|l: Vec<u64>| l@)
    }

    /// For each handle, the collections that its watch waits for.
    pub closed spec fn regs(&self) -> Map<u64, Set<GlobalId>> {
        self.tokens@.map_values(|p: PendingWatch<W>| p.ids@)
    }

    /// The invariant: the lists and the watches say the same, every list is
    /// in the order of installation, every watch counts its collections
    /// right, and no handle is ahead of the next one.
    pub closed spec fn wf(&self) -> bool {
        &&& linked(self.lists(), self.regs())
        &&& forall|id: GlobalId| #[trigger]
            self.lists().contains_key(id) ==> ascending(self.lists()[id])
        &&& forall|h: u64| #[trigger]
            self.tokens@.contains_key(h) ==> self.tokens@[h].counted() && h < self.next_handle
    }

    /// No watch sets.
    pub fn new() -> (r: Self)
        ensures
            r.wf(),
            r.pending() == Map::<u64, Watch<W>>::empty(),
            r.immediate() == Seq::<W>::empty(),
            r.installed() == 0,
    {
        let r = WatchSets {
            watch_sets: BTreeMap::new(),
            tokens: BTreeMap::new(),
            next_handle: 0,
            immediate_watch_sets: Vec::new(),
        };
        proof {
            assert(r.pending() =~= Map::<u64, Watch<W>>::empty());
            assert(r.lists() =~= Map::<GlobalId, Seq<u64>>::empty());
            assert(r.regs() =~= Map::<u64, Set<GlobalId>>::empty());
        }
        r
    }

    /// Every pending watch has a handle below that of the next watch to be
    /// installed: a watch installed later has the greater handle.
    pub proof fn lemma_pending_below_installed(&self)
        requires
            self.wf(),
        ensures
            forall|h: u64| self.pending().contains_key(h) ==> h < self.installed(),
    {
        assert forall|h: u64| self.pending().contains_key(h) implies h < self.installed() by {
            assert(self.tokens@.contains_key(h));
        }
    }

    /// Whether tokens wait to be handed back without delay.
    pub fn has_immediate(&self) -> (r: bool)
        ensures
            r == (self.immediate().len() > 0),
    {
        self.immediate_watch_sets.len() > 0
    }

    /// How many more watches can be installed to wait.
    pub fn headroom(&self) -> (r: u64)
        ensures
            r == u64::MAX - self.installed(),
    {
        u64::MAX - self.next_handle
    }

    /// Takes the tokens that wait to be handed back without delay.
    pub fn take_immediate(&mut self) -> (r: Vec<W>)
        requires
            old(self).wf(),
        ensures
            final(self).wf(),
            r@ == old(self).immediate(),
            final(self).immediate() == Seq::<W>::empty(),
            final(self).pending() == old(self).pending(),
            final(self).installed() == old(self).installed(),
    {
        let mut taken: Vec<W> = Vec::new();
        std::mem::swap(&mut taken, &mut self.immediate_watch_sets);
        taken
    }
}

impl<W> WatchSets<W> {
    /// Installs a watch for the collections of `ids` at the time `target`.
    /// Where there is nothing to wait for, the token is queued to be handed
    /// back without delay, behind those queued before; otherwise the watch
    /// is pending under a new handle, greater than every earlier one, so
    /// that it stands behind the earlier watches of each of its collections.
    pub fn install(&mut self, ids: &BTreeSet<GlobalId>, target: u64, token: W)
        requires
            old(self).wf(),
            !ids@.is_empty() ==> old(self).installed() < u64::MAX,
        ensures
            final(self).wf(),
            forall|h: u64| old(self).pending().contains_key(h) ==> h < old(self).installed(),
            ids@.is_empty() ==> final(self).pending() == old(self).pending()
                && final(self).immediate() == old(self).immediate().push(token)
                && final(self).installed() == old(self).installed(),
            !ids@.is_empty() ==> final(self).immediate() == old(self).immediate()
                && final(self).installed() == old(self).installed() + 1
                && final(self).pending() == old(self).pending().insert(
                old(self).installed() as u64,
                Watch { target, ids: ids@, token },
            ),
    {
        let members = set_members(ids);
        proof {
            self.lemma_pending_below_installed();
        }
        if members.len() == 0 {
            proof {
                assert(ids@ =~= Set::<GlobalId>::empty()) by {
                    assert forall|id: GlobalId| !ids@.contains(id) by {
                        if ids@.contains(id) {
                            assert(members@.to_set().contains(id));
                        }
                    }
                }
            }
            self.immediate_watch_sets.push(token);
            return ;
        }
        proof {
            assert(members@.to_set().contains(members@[0]));
            assert(ids@.contains(members@[0]));
            members@.unique_seq_to_set();
            vstd::seq_lib::seq_to_set_is_finite(members@);
        }
        let h = self.next_handle;
        let ghost regs0 = self.regs();
        let ghost lists0 = self.lists();
        let ghost pending0 = self.pending();
        let entry = PendingWatch { target, remaining: members.len(), token, ids: Ghost(ids@) };
        proof {
            broadcast use vstd::std_specs::btree::group_btree_axioms;

            assert(!self.tokens@.contains_key(h));
        }
        self.tokens.insert(h, entry);
        self.next_handle = self.next_handle + 1;
        proof {
            assert(self.pending() =~= pending0.insert(h, Watch { target, ids: ids@, token }));
            assert(self.regs() =~= regs0.insert(h, ids@));
            lemma_take_next_to_set(members@, 0);
            assert(linked(lists0, regs0.insert(h, Set::<GlobalId>::empty())));
            assert forall|k: u64| regs0.contains_key(k) implies k < h by {
                assert(old(self).tokens@.contains_key(k));
            }
        }
        let mut i: usize = 0;
        while i < members.len()
            invariant
                i <= members.len(),
                members@.no_duplicates(),
                members@.to_set() == ids@,
                !regs0.contains_key(h),
                self.regs() == regs0.insert(h, ids@),
                self.pending() == pending0.insert(h, Watch { target, ids: ids@, token }),
                self.immediate() == old(self).immediate(),
                self.next_handle == h + 1,
                forall|k: u64| #[trigger]
                    self.tokens@.contains_key(k) ==> self.tokens@[k].counted() && k
                        < self.next_handle,
                linked(self.lists(), regs0.insert(h, members@.take(i as int).to_set())),
                forall|k: u64| regs0.contains_key(k) ==> k < h,
                forall|a: GlobalId| #[trigger]
                    self.lists().contains_key(a) ==> ascending(self.lists()[a]),
            decreases members.len() - i,
        {
            let id = members[i];
            let ghost done = members@.take(i as int).to_set();
            let ghost lists = self.lists();
            let ghost regs = regs0.insert(h, done);
            proof {
                broadcast use vstd::std_specs::btree::group_btree_axioms;

                assert(members@.take(i + 1) =~= members@.take(i as int).push(id));
                crate::timestamp_selection::lemma_push_contains(members@.take(i as int), id);
                lemma_take_next_to_set(members@, i as int);
                if done.contains(id) {
                    let k = choose|k: int|
                        0 <= k < members@.take(i as int).len() && members@.take(i as int)[k]
                            == id;
                    assert(members@[k] == members@[i as int]);
                }
            }
            let mut list = match self.watch_sets.remove(&id) {
                Some(list) => list,
                None => Vec::new(),
            };
            let ghost before = list@;
            proof {
                assert(lists.contains_key(id) ==> before == lists[id]);
                assert(!lists.contains_key(id) ==> before == Seq::<u64>::empty());
                if before.contains(h) {
                    let k = choose|k: int| 0 <= k < before.len() && before[k] == h;
                    assert(lists[id][k] == h);
                    assert(regs[lists[id][k]].contains(id));
                }
            }
            list.push(h);
            self.watch_sets.insert(id, list);
            proof {
                let lists_next = self.lists();
                let regs_next = regs0.insert(h, done.insert(id));
                assert(lists_next =~= lists.insert(id, before.push(h)));
                crate::timestamp_selection::lemma_push_contains(before, h);
                crate::timestamp_selection::lemma_push_no_duplicates(before, h);
                assert forall|a: GlobalId, k: int|
                    lists_next.contains_key(a) && 0 <= k < lists_next[a].len() implies regs_next.contains_key(
                    #[trigger] lists_next[a][k],
                ) && regs_next[lists_next[a][k]].contains(a) by {
                    if a == id {
                        if k < before.len() {
                            assert(lists[id][k] == before[k]);
                            assert(regs.contains_key(lists[id][k]));
                        }
                    } else {
                        assert(regs.contains_key(lists[a][k]));
                        assert(regs[lists[a][k]].contains(a));
                    }
                }
                assert forall|a: GlobalId| #[trigger]
                    lists_next.contains_key(a) implies lists_next[a].no_duplicates() by {
                    if a != id {
                        assert(lists.contains_key(a));
                    }
                }
                assert forall|a: GlobalId| #[trigger]
                    lists_next.contains_key(a) implies ascending(lists_next[a]) by {
                    if a != id {
                        assert(lists.contains_key(a));
                    } else {
                        assert forall|x: int, y: int|
                            0 <= x < y < lists_next[a].len() implies lists_next[a][x]
                            < lists_next[a][y] by {
                            if y == before.len() {
                                assert(lists[id][x] == before[x]);
                                assert(regs.contains_key(lists[id][x]));
                                assert(before.contains(before[x]));
                                assert(before[x] != h);
                                assert(regs0.contains_key(before[x]));
                            } else {
                                assert(lists.contains_key(id));
                                assert(ascending(lists[id]));
                            }
                        }
                    }
                }
                assert forall|k: u64, a: GlobalId|
                    regs_next.contains_key(k) && #[trigger] regs_next[k].contains(
                        a,
                    ) implies lists_next.contains_key(a) && lists_next[a].contains(k) by {
                    if k == h && a == id {
                    } else {
                        assert(regs.contains_key(k) && regs[k].contains(a));
                        assert(lists.contains_key(a) && lists[a].contains(k));
                    }
                }
            }
            i += 1;
        }
        proof {
            assert(members@.take(i as int) =~= members@);
        }
    }
}

/// Whether `handles` lists, each once, exactly the watches of `among` that
/// an update of the write frontier of `id` completes, and `tokens` lists
/// their tokens in the same order.
pub open spec fn lists_completed<W>(
    handles: Seq<u64>,
    tokens: Seq<W>,
    pending: Map<u64, Watch<W>>,
    id: GlobalId,
    frontier: Option<u64>,
    among: Set<u64>,
) -> bool {
    &&& handles.no_duplicates()
    &&& handles.len() == tokens.len()
    &&& forall|h: u64|
        handles.contains(h) <==> among.contains(h) && pending.contains_key(h) && is_completed(
            pending[h],
            id,
            frontier,
        )
    &&& forall|k: int| 0 <= k < handles.len() ==> #[trigger] tokens[k] == pending[handles[k]].token
}

/// What looking at one more watch does to the pending watches.
pub proof fn lemma_among_next<W>(
    pending: Map<u64, Watch<W>>,
    id: GlobalId,
    frontier: Option<u64>,
    among: Set<u64>,
    h: u64,
)
    requires
        pending.contains_key(h),
        !among.contains(h),
    ensures
        after_update_among(pending, id, frontier, among.insert(h)) == if is_completed(
            pending[h],
            id,
            frontier,
        ) {
            after_update_among(pending, id, frontier, among).remove(h)
        } else {
            after_update_among(pending, id, frontier, among).insert(
                h,
                watch_after(pending[h], id, frontier),
            )
        },
{
    let before = after_update_among(pending, id, frontier, among);
    let after = after_update_among(pending, id, frontier, among.insert(h));
    if is_completed(pending[h], id, frontier) {
        assert(after =~= before.remove(h));
    } else {
        assert(after =~= before.insert(h, watch_after(pending[h], id, frontier)));
    }
}

impl<W> WatchSets<W> {
    /// Takes in an update of the write frontier of `id`. Returns the watches
    /// that the update completes, each with its handle and its token.
    fn absorb_update(&mut self, id: GlobalId, frontier: &Frontier) -> (fired: (Vec<u64>, Vec<W>))
        requires
            old(self).wf(),
        ensures
            final(self).wf(),
            final(self).pending() == after_update(old(self).pending(), id, frontier@),
            final(self).immediate() == old(self).immediate(),
            final(self).installed() == old(self).installed(),
            lists_completed(fired.0@, fired.1@, old(self).pending(), id, frontier@, Set::full()),
            fired.0@ == completed_by(old(self).pending(), id, frontier@),
    {
        let ghost p0 = self.pending();
        let ghost r0 = self.regs();
        let ghost lists0 = self.lists();
        let ghost f = frontier@;
        let mut handles: Vec<u64> = Vec::new();
        let mut tokens: Vec<W> = Vec::new();
        proof {
            broadcast use vstd::std_specs::btree::group_btree_axioms;

        }
        let list = match self.watch_sets.remove(&id) {
            Some(list) => list,
            None => {
                proof {
                    assert(!lists0.contains_key(id));
                    assert(self.lists() =~= lists0);
                    assert forall|h: u64| p0.contains_key(h) implies !is_hit(p0[h], id, f) by {
                        assert(r0.contains_key(h));
                        if r0[h].contains(id) {
                            assert(lists0.contains_key(id));
                        }
                    }
                    assert(after_update(p0, id, f) =~= p0);
                    assert(is_completed_by(handles@, p0, id, f));
                    lemma_ascending_unique(handles@, completed_by(p0, id, f));
                }
                return (handles, tokens);
            },
        };
        let ghost l = list@;
        proof {
            assert(lists0.contains_key(id) && lists0[id] == l);
            assert(self.lists() =~= lists0.remove(id));
            assert(l.no_duplicates());
            assert(ascending(l));
            assert forall|a: GlobalId| #[trigger] self.lists().contains_key(a) implies ascending(
                self.lists()[a],
            ) by {
                assert(lists0.contains_key(a));
            }
            assert forall|k: int| 0 <= k < l.len() implies p0.contains_key(#[trigger] l[k])
                && p0[l[k]].ids.contains(id) by {
                assert(r0.contains_key(lists0[id][k]));
                assert(r0[lists0[id][k]].contains(id));
            }
            lemma_take_none_to_set(l);
            assert(after_update_among(p0, id, f, l.take(0).to_set()) =~= p0);
        }
        let mut kept: Vec<u64> = Vec::new();
        let mut i: usize = 0;
        while i < list.len()
            invariant
                i <= list.len(),
                l == list@,
                f == frontier@,
                l.no_duplicates(),
                forall|k: int|
                    0 <= k < l.len() ==> p0.contains_key(#[trigger] l[k]) && p0[l[k]].ids.contains(
                        id,
                    ),
                self.watch_sets@ == old(self).watch_sets@.remove(id),
                self.pending() == after_update_among(p0, id, f, l.take(i as int).to_set()),
                self.immediate() == old(self).immediate(),
                self.next_handle == old(self).next_handle,
                forall|h: u64| #[trigger]
                    self.tokens@.contains_key(h) ==> self.tokens@[h].counted() && h
                        < self.next_handle,
                kept@.no_duplicates(),
                forall|h: u64|
                    kept@.contains(h) <==> l.take(i as int).contains(h) && !is_hit(p0[h], id, f),
                lists_completed(handles@, tokens@, p0, id, f, l.take(i as int).to_set()),
                ascending(l),
                ascending(kept@),
                ascending(handles@),
            decreases list.len() - i,
        {
            let h = list[i];
            let ghost done = l.take(i as int).to_set();
            let ghost done_next = l.take(i + 1).to_set();
            let ghost cur = self.pending();
            let ghost kept_before = kept@;
            let ghost handles_before = handles@;
            let ghost tokens_before = tokens@;
            proof {
                broadcast use vstd::std_specs::btree::group_btree_axioms;

                lemma_take_next_to_set(l, i as int);
                assert(l.take(i + 1) =~= l.take(i as int).push(h));
                crate::timestamp_selection::lemma_push_contains(l.take(i as int), h);
                if l.take(i as int).contains(h) {
                    let k = choose|k: int|
                        0 <= k < l.take(i as int).len() && l.take(i as int)[k] == h;
                    assert(l[k] == l[i as int]);
                }
                assert(!done.contains(h));
                assert(p0.contains_key(l[i as int]));
                assert(cur.contains_key(h));
                assert(cur[h] == p0[h]);
                assert(self.tokens@.contains_key(h));
            }
            let mut watch = self.tokens.remove(&h).unwrap();
            proof {
                assert(watch.watch() == p0[h]);
                assert(watch.counted());
            }
            if !frontier.less_equal(watch.target) {
                proof {
                    assert(is_hit(p0[h], id, f));
                    assert(watch.ids@.contains(id));
                }
                let ghost ids_before = watch.ids@;
                watch.remaining = watch.remaining - 1;
                watch.ids = Ghost(ids_before.remove(id));
                if watch.remaining == 0 {
                    proof {
                        assert(watch.ids@.len() == 0);
                        assert(watch.ids@ =~= Set::<GlobalId>::empty());
                        assert(is_completed(p0[h], id, f));
                    }
                    handles.push(h);
                    tokens.push(watch.token);
                    proof {
                        lemma_among_next(p0, id, f, done, h);
                        assert(self.pending() =~= cur.remove(h));
                        crate::timestamp_selection::lemma_push_contains(handles_before, h);
                        crate::timestamp_selection::lemma_push_no_duplicates(handles_before, h);
                    }
                } else {
                    proof {
                        assert(watch.ids@.len() >= 1);
                        assert(!(watch.ids@ =~= Set::<GlobalId>::empty())) by {
                            if watch.ids@ =~= Set::<GlobalId>::empty() {
                                assert(watch.ids@.len() == 0);
                            }
                        }
                        assert(!is_completed(p0[h], id, f));
                        assert(watch.counted());
                    }
                    let ghost stored = watch;
                    self.tokens.insert(h, watch);
                    proof {
                        assert(stored.watch() == watch_after(p0[h], id, f));
                        lemma_among_next(p0, id, f, done, h);
                        assert(self.pending() =~= cur.insert(h, stored.watch()));
                    }
                }
            } else {
                proof {
                    assert(!is_hit(p0[h], id, f));
                }
                let ghost stored = watch;
                self.tokens.insert(h, watch);
                kept.push(h);
                proof {
                    assert(stored.watch() == p0[h]);
                    lemma_among_next(p0, id, f, done, h);
                    assert(self.pending() =~= cur.insert(h, stored.watch()));
                    crate::timestamp_selection::lemma_push_contains(kept_before, h);
                    crate::timestamp_selection::lemma_push_no_duplicates(kept_before, h);
                }
            }
            proof {
                assert forall|k: u64|
                    kept@.contains(k) <==> l.take(i + 1).contains(k) && !is_hit(p0[k], id, f) by {
                    assert(kept_before.contains(k) <==> l.take(i as int).contains(k) && !is_hit(
                        p0[k],
                        id,
                        f,
                    ));
                }
                assert forall|k: u64|
                    handles@.contains(k) <==> done_next.contains(k) && p0.contains_key(k)
                        && is_completed(p0[k], id, f) by {
                    assert(handles_before.contains(k) <==> done.contains(k) && p0.contains_key(k)
                        && is_completed(p0[k], id, f));
                }
                assert forall|k: int| 0 <= k < handles@.len() implies #[trigger] tokens@[k]
                    == p0[handles@[k]].token by {
                    if k < handles_before.len() {
                        assert(tokens@[k] == tokens_before[k]);
                        assert(handles@[k] == handles_before[k]);
                    }
                }
                assert forall|k: u64| #[trigger]
                    self.tokens@.contains_key(k) implies self.tokens@[k].counted() && k
                    < self.next_handle by {
                }
                assert forall|k: int| 0 <= k < kept_before.len() implies kept_before[k] < h by {
                    assert(kept_before.contains(kept_before[k]));
                    let m = choose|m: int|
                        0 <= m < l.take(i as int).len() && l.take(i as int)[m] == kept_before[k];
                    assert(l[m] < l[i as int]);
                }
                assert forall|k: int| 0 <= k < handles_before.len() implies handles_before[k]
                    < h by {
                    assert(handles_before.contains(handles_before[k]));
                    assert(done.contains(handles_before[k]));
                    let m = choose|m: int|
                        0 <= m < l.take(i as int).len() && l.take(i as int)[m] == handles_before[k];
                    assert(l[m] < l[i as int]);
                }
                assert(kept@ == kept_before || kept@ == kept_before.push(h));
                assert(handles@ == handles_before || handles@ == handles_before.push(h));
            }
            i += 1;
        }
        proof {
            assert(l.take(i as int) =~= l);
        }
        let ghost kept_all = kept@;
        if kept.len() > 0 {
            self.watch_sets.insert(id, kept);
        }
        proof {
            let among = l.to_set();
            // Watches outside the list do not wait for the collection.
            assert forall|h: u64| p0.contains_key(h) && !among.contains(h) implies !is_hit(
                p0[h],
                id,
                f,
            ) by {
                assert(r0.contains_key(h));
                if r0[h].contains(id) {
                    assert(lists0[id].contains(h));
                }
            }
            assert(self.pending() =~= after_update(p0, id, f));
            assert forall|h: u64|
                handles@.contains(h) <==> Set::<u64>::full().contains(h) && p0.contains_key(h)
                    && is_completed(p0[h], id, f) by {
                assert(handles@.contains(h) <==> among.contains(h) && p0.contains_key(h)
                    && is_completed(p0[h], id, f));
                if p0.contains_key(h) && !among.contains(h) {
                    assert(!is_hit(p0[h], id, f));
                }
            }
            // The lists and the watches say the same again.
            let lists = self.lists();
            let regs = self.regs();
            assert(lists =~= if kept_all.len() > 0 {
                lists0.remove(id).insert(id, kept_all)
            } else {
                lists0.remove(id)
            });
            let pend = self.pending();
            assert forall|h: u64| regs.contains_key(h) implies pend.contains_key(h) && regs[h]
                == pend[h].ids && p0.contains_key(h) && r0.contains_key(h) && r0[h]
                == p0[h].ids by {
            }
            assert forall|a: GlobalId, k: int|
                lists.contains_key(a) && 0 <= k < lists[a].len() implies regs.contains_key(
                #[trigger] lists[a][k],
            ) && regs[lists[a][k]].contains(a) by {
                let h = lists[a][k];
                if a == id {
                    assert(kept_all.contains(h));
                    assert(l.contains(h));
                    let m = choose|m: int| 0 <= m < l.len() && l[m] == h;
                    assert(p0.contains_key(l[m]));
                    assert(pend.contains_key(h));
                } else {
                    assert(lists0.contains_key(a) && lists0[a][k] == h);
                    assert(r0.contains_key(lists0[a][k]));
                    assert(r0[lists0[a][k]].contains(a));
                    assert(p0[h].ids.contains(a));
                    assert(!(p0[h].ids.remove(id) =~= Set::<GlobalId>::empty())) by {
                        assert(p0[h].ids.remove(id).contains(a));
                    }
                    assert(pend.contains_key(h));
                }
            }
            assert forall|a: GlobalId| #[trigger] lists.contains_key(a) implies lists[a].no_duplicates() by {
                if a != id {
                    assert(lists0.contains_key(a));
                }
            }
            assert forall|a: GlobalId| #[trigger] lists.contains_key(a) implies ascending(
                lists[a],
            ) by {
                if a != id {
                    assert(lists0.contains_key(a));
                }
            }
            assert(is_completed_by(handles@, p0, id, f));
            lemma_ascending_unique(handles@, completed_by(p0, id, f));
            assert forall|h: u64, a: GlobalId|
                regs.contains_key(h) && #[trigger] regs[h].contains(a) implies lists.contains_key(
                a,
            ) && lists[a].contains(h) by {
                assert(pend.contains_key(h));
                assert(p0.contains_key(h));
                if a == id {
                    assert(!is_hit(p0[h], id, f));
                    assert(r0[h].contains(id));
                    assert(lists0[id].contains(h));
                    assert(kept_all.contains(h));
                    let m = choose|m: int| 0 <= m < kept_all.len() && kept_all[m] == h;
                } else {
                    assert(r0[h].contains(a));
                    assert(lists0.contains_key(a) && lists0[a].contains(h));
                }
            }
        }
        (handles, tokens)
    }
}

/// Whether `handles` lists, each once, exactly the watches that are pending
/// in `before` and no longer in `after`, and `tokens` lists their tokens in
/// the same order.
pub open spec fn is_hand_back<W>(
    handles: Seq<u64>,
    tokens: Seq<W>,
    before: Map<u64, Watch<W>>,
    after: Map<u64, Watch<W>>,
) -> bool {
    &&& handles.no_duplicates()
    &&& handles.len() == tokens.len()
    &&& forall|k: int|
        0 <= k < handles.len() ==> before.contains_key(#[trigger] handles[k])
            && !after.contains_key(handles[k]) && tokens[k] == before[handles[k]].token
    &&& forall|h: u64|
        before.contains_key(h) && !after.contains_key(h) ==> #[trigger] handles.contains(h)
}

/// Whether `tokens` are the tokens of the watches that are pending in
/// `before` and no longer in `after`, each watch once.
pub open spec fn hands_back<W>(
    tokens: Seq<W>,
    before: Map<u64, Watch<W>>,
    after: Map<u64, Watch<W>>,
) -> bool {
    exists|handles: Seq<u64>| is_hand_back(handles, tokens, before, after)
}

impl<W> WatchSets<W> {
    /// Takes in a list of updates of write frontiers, one after the other.
    /// Returns the tokens of the watches that the updates complete: each
    /// watch is handed back once, when the last collection that it waited
    /// for has passed its time. The tokens of an earlier update come before
    /// those of a later one, and those of one update come in the order in
    /// which their watches were installed.
    pub fn absorb_updates(&mut self, updates: &Vec<(GlobalId, Frontier)>) -> (finished: Vec<W>)
        requires
            old(self).wf(),
        ensures
            final(self).wf(),
            final(self).pending() == after_updates(old(self).pending(), uppers_view(updates@)),
            final(self).immediate() == old(self).immediate(),
            final(self).installed() == old(self).installed(),
            hands_back(finished@, old(self).pending(), final(self).pending()),
            finished@ == handed_back(old(self).pending(), uppers_view(updates@)),
    {
        let ghost p0 = self.pending();
        let ghost view = uppers_view(updates@);
        let mut finished: Vec<W> = Vec::new();
        let mut completed: Vec<u64> = Vec::new();
        let mut j: usize = 0;
        proof {
            assert(view.skip(0) =~= view);
        }
        while j < updates.len()
            invariant
                j <= updates.len(),
                view == uppers_view(updates@),
                self.wf(),
                self.immediate() == old(self).immediate(),
                self.installed() == old(self).installed(),
                after_updates(self.pending(), view.skip(j as int)) == after_updates(p0, view),
                is_hand_back(completed@, finished@, p0, self.pending()),
                completed@ + completed_by_all(self.pending(), view.skip(j as int))
                    == completed_by_all(p0, view),
                forall|h: u64| #[trigger]
                    self.pending().contains_key(h) ==> p0.contains_key(h)
                        && self.pending()[h].token == p0[h].token,
            decreases updates.len() - j,
        {
            let ghost p = self.pending();
            let ghost rest = view.skip(j as int);
            let ghost completed_before = completed@;
            let ghost finished_before = finished@;
            let ghost id = updates@[j as int].0;
            let ghost f = updates@[j as int].1@;
            proof {
                assert(rest[0] == (id, f));
                assert(rest.drop_first() =~= view.skip(j + 1));
            }
            let (mut handles, mut tokens) = self.absorb_update(updates[j].0, &updates[j].1);
            let ghost handles_now = handles@;
            let ghost tokens_now = tokens@;
            completed.append(&mut handles);
            finished.append(&mut tokens);
            proof {
                let next = self.pending();
                assert(next == after_update(p, id, f));
                assert(completed@ == completed_before + handles_now);
                assert(finished@ == finished_before + tokens_now);
                assert(handles_now == completed_by(p, id, f));
                assert(completed_by_all(p, rest) == handles_now + completed_by_all(
                    next,
                    view.skip(j + 1),
                ));
                assert((completed_before + handles_now) + completed_by_all(next, view.skip(j + 1))
                    =~= completed_before + (handles_now + completed_by_all(
                    next,
                    view.skip(j + 1),
                )));
                assert forall|k: int| 0 <= k < handles_now.len() implies p.contains_key(
                    #[trigger] handles_now[k],
                ) && is_completed(p[handles_now[k]], id, f) by {
                    assert(handles_now.contains(handles_now[k]));
                }
                assert forall|a: int, b: int|
                    0 <= a < completed@.len() && 0 <= b < completed@.len() && a
                        != b implies completed@[a] != completed@[b] by {
                    if a < completed_before.len() && b < completed_before.len() {
                    } else if a >= completed_before.len() && b >= completed_before.len() {
                        assert(handles_now[a - completed_before.len()] != handles_now[b
                            - completed_before.len()]);
                    } else if a < completed_before.len() {
                        assert(!p.contains_key(completed_before[a]));
                        assert(p.contains_key(handles_now[b - completed_before.len()]));
                    } else {
                        assert(!p.contains_key(completed_before[b]));
                        assert(p.contains_key(handles_now[a - completed_before.len()]));
                    }
                }
                assert forall|k: int| 0 <= k < completed@.len() implies p0.contains_key(
                    #[trigger] completed@[k],
                ) && !next.contains_key(completed@[k]) && finished@[k]
                    == p0[completed@[k]].token by {
                    if k < completed_before.len() {
                        assert(completed@[k] == completed_before[k]);
                        assert(finished@[k] == finished_before[k]);
                        assert(!p.contains_key(completed_before[k]));
                    } else {
                        let m = k - completed_before.len();
                        assert(completed@[k] == handles_now[m]);
                        assert(finished@[k] == tokens_now[m]);
                        assert(p.contains_key(handles_now[m]));
                    }
                }
                assert forall|h: u64|
                    p0.contains_key(h) && !next.contains_key(h) implies #[trigger] completed@.contains(
                    h,
                ) by {
                    if p.contains_key(h) {
                        assert(is_completed(p[h], id, f));
                        assert(handles_now.contains(h));
                        let m = choose|m: int| 0 <= m < handles_now.len() && handles_now[m] == h;
                        assert(completed@[completed_before.len() + m] == h);
                    } else {
                        assert(completed_before.contains(h));
                        let m = choose|m: int|
                            0 <= m < completed_before.len() && completed_before[m] == h;
                        assert(completed@[m] == h);
                    }
                }
                assert forall|h: u64| #[trigger] next.contains_key(h) implies p0.contains_key(h)
                    && next[h].token == p0[h].token by {
                    assert(p.contains_key(h));
                }
            }
            j += 1;
        }
        proof {
            assert(view.skip(j as int) =~= Seq::<(u64, Option<u64>)>::empty());
            assert(completed@ + Seq::<u64>::empty() =~= completed@);
            assert(finished@ =~= tokens_of(p0, completed@));
        }
        finished
    }
}

/// Whether one of the updates takes the write frontier of `id` past `target`.
pub open spec fn passed_by(updates: Seq<(u64, Option<u64>)>, id: GlobalId, target: u64) -> bool {
    exists|j: int|
        0 <= j < updates.len() && (#[trigger] updates[j]).0 == id && has_passed(
            updates[j].1,
            target,
        )
}

/// What a list of updates leaves of a watch: the watch stays pending if and
/// only if it waits for a collection that no update has taken past its time,
/// and it then waits for exactly those collections, with its token.
pub proof fn lemma_watch_after_updates<W>(
    pending: Map<u64, Watch<W>>,
    updates: Seq<(u64, Option<u64>)>,
    h: u64,
)
    requires
        pending.contains_key(h),
        !(pending[h].ids =~= Set::<GlobalId>::empty()),
    ensures
        after_updates(pending, updates).contains_key(h) <==> exists|id: GlobalId|
            pending[h].ids.contains(id) && !passed_by(updates, id, pending[h].target),
        after_updates(pending, updates).contains_key(h) ==> {
            let left = after_updates(pending, updates)[h];
            &&& left.token == pending[h].token
            &&& left.target == pending[h].target
            &&& forall|id: GlobalId|
                left.ids.contains(id) <==> pending[h].ids.contains(id) && !passed_by(
                    updates,
                    id,
                    pending[h].target,
                )
        },
    decreases updates.len(),
{
    let watch = pending[h];
    if updates.len() == 0 {
        assert forall|id: GlobalId| !passed_by(updates, id, watch.target) by {
        }
        let id = choose|id: GlobalId| watch.ids.contains(id);
        assert(watch.ids.contains(id) && !passed_by(updates, id, watch.target));
    } else {
        let (first, f) = updates[0];
        let next = after_update(pending, first, f);
        let rest = updates.drop_first();
        assert forall|id: GlobalId|
            passed_by(updates, id, watch.target) <==> (first == id && has_passed(f, watch.target))
                || passed_by(rest, id, watch.target) by {
            if passed_by(updates, id, watch.target) {
                let j = choose|j: int|
                    0 <= j < updates.len() && (#[trigger] updates[j]).0 == id && has_passed(
                        updates[j].1,
                        watch.target,
                    );
                if j > 0 {
                    assert(rest[j - 1] == updates[j]);
                }
            }
            if passed_by(rest, id, watch.target) {
                let j = choose|j: int|
                    0 <= j < rest.len() && (#[trigger] rest[j]).0 == id && has_passed(
                        rest[j].1,
                        watch.target,
                    );
                assert(updates[j + 1] == rest[j]);
            }
            if first == id && has_passed(f, watch.target) {
                assert(updates[0].0 == id);
            }
        }
        if next.contains_key(h) {
            assert(!(next[h].ids =~= Set::<GlobalId>::empty())) by {
                if is_hit(watch, first, f) {
                } else {
                    assert(next[h] == watch);
                }
            }
            lemma_watch_after_updates(next, rest, h);
            let last = after_updates(pending, updates);
            if last.contains_key(h) {
                let id = choose|id: GlobalId|
                    next[h].ids.contains(id) && !passed_by(rest, id, next[h].target);
                assert(watch.ids.contains(id) && !passed_by(updates, id, watch.target));
            }
            if exists|id: GlobalId|
                watch.ids.contains(id) && !passed_by(updates, id, watch.target) {
                let id = choose|id: GlobalId|
                    watch.ids.contains(id) && !passed_by(updates, id, watch.target);
                assert(next[h].ids.contains(id) && !passed_by(rest, id, next[h].target));
            }
        } else {
            // The first update completed the watch: it waited for that
            // collection alone.
            assert(is_completed(watch, first, f));
            lemma_gone_stays_gone(next, rest, h);
            assert forall|id: GlobalId| watch.ids.contains(id) implies passed_by(
                updates,
                id,
                watch.target,
            ) by {
                if id != first {
                    assert(watch.ids.remove(first).contains(id));
                }
            }
        }
    }
}

/// What is not pending does not become pending by updates.
pub proof fn lemma_gone_stays_gone<W>(
    pending: Map<u64, Watch<W>>,
    updates: Seq<(u64, Option<u64>)>,
    h: u64,
)
    requires
        !pending.contains_key(h),
    ensures
        !after_updates(pending, updates).contains_key(h),
    decreases updates.len(),
{
    if updates.len() > 0 {
        lemma_gone_stays_gone(
            after_update(pending, updates[0].0, updates[0].1),
            updates.drop_first(),
            h,
        );
    }
}

/// A watch is handed back exactly when the last of its collections has
/// passed its time, and only once: a list of updates completes a pending
/// watch if and only if, for every collection that the watch waits for, one
/// of the updates takes the write frontier of that collection past the
/// watch's time; and a watch that is completed is never pending again.
pub proof fn law_watch_fires_once_when_all_passed<W>(
    pending: Map<u64, Watch<W>>,
    updates: Seq<(u64, Option<u64>)>,
    later: Seq<(u64, Option<u64>)>,
    h: u64,
)
    requires
        pending.contains_key(h),
        !(pending[h].ids =~= Set::<GlobalId>::empty()),
    ensures
        !after_updates(pending, updates).contains_key(h) <==> forall|id: GlobalId|
            pending[h].ids.contains(id) ==> passed_by(updates, id, pending[h].target),
        !after_updates(pending, updates).contains_key(h) ==> !after_updates(
            after_updates(pending, updates),
            later,
        ).contains_key(h),
{
    lemma_watch_after_updates(pending, updates, h);
    if !after_updates(pending, updates).contains_key(h) {
        lemma_gone_stays_gone(after_updates(pending, updates), later, h);
    }
}

} // verus!
