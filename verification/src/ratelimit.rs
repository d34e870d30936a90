//! A budget of shell requests per caller.

use std::collections::HashMap;
use std::time::Instant;
use vstd::prelude::*;
use vstd::std_specs::iter::IteratorSpec;

verus! {

broadcast use vstd::std_specs::hash::group_hash_axioms;

/// `std::time::Instant`, carried through without being read.
#[verifier::external_type_specification]
#[verifier::external_body]
pub struct ExInstant(Instant);

/// The length of a window, in nanoseconds.
pub const WINDOW: u64 = 10_000_000_000;

/// Clients open several shells back to back while probing, so the ceiling has
/// to clear a burst rather than a steady rate.
pub const MAX_PER_WINDOW: u32 = 32;
pub const MAX_TRACKED_UIDS: usize = 1024;

/// `Instant::now`: the present, of which nothing is promised.
#[verifier::external_body]
fn present() -> (r: Instant) {
    Instant::now()
}

/// `Instant::elapsed`, in nanoseconds: the time since `start`, of which
/// nothing is promised.
#[verifier::external_body]
fn nanos_since(start: &Instant) -> (r: u64) {
    start.elapsed().as_nanos() as u64
}

/// Requests counted per caller: when the caller's window began, in nanoseconds
/// since the limiter was made, and how many it was granted since.
pub struct RateLimiter {
    counts: HashMap<u32, (u64, u32)>,
    start: Instant,
}

/// The time from `then` to `now`, or nothing where the clock went back.
pub open spec fn since(now: u64, then: u64) -> int {
    if now > then {
        now - then
    } else {
        0
    }
}

/// The windows that are still running.
pub open spec fn running(counts: Map<u32, (u64, u32)>, now: u64) -> Map<u32, (u64, u32)> {
    Map::new(
        |uid: u32| counts.contains_key(uid) && since(now, counts[uid].0) < WINDOW,
        |uid: u32| counts[uid],
    )
}

/// Whether `uid` is new and there is no room for another caller.
pub open spec fn crowded(counts: Map<u32, (u64, u32)>, uid: u32) -> bool {
    !counts.contains_key(uid) && counts.dom().len() >= MAX_TRACKED_UIDS
}

/// The windows that a request of `uid` is held against: all of them, or, where
/// it is crowded, those that are still running.
pub open spec fn admitted(counts: Map<u32, (u64, u32)>, uid: u32, now: u64) -> Map<
    u32,
    (u64, u32),
> {
    if crowded(counts, uid) {
        running(counts, now)
    } else {
        counts
    }
}

/// The window that a request of `uid` falls in. One that is over starts anew.
pub open spec fn window_of(counts: Map<u32, (u64, u32)>, uid: u32, now: u64) -> (u64, u32) {
    if counts.contains_key(uid) && since(now, counts[uid].0) < WINDOW {
        counts[uid]
    } else {
        (now, 0)
    }
}

/// Whether a request of `uid` is granted.
pub open spec fn granted(counts: Map<u32, (u64, u32)>, uid: u32, now: u64) -> bool {
    let room = admitted(counts, uid, now);
    !crowded(room, uid) && window_of(room, uid, now).1 < MAX_PER_WINDOW
}

/// The windows after a request of `uid`.
pub open spec fn after(counts: Map<u32, (u64, u32)>, uid: u32, now: u64) -> Map<
    u32,
    (u64, u32),
> {
    let room = admitted(counts, uid, now);
    let window = window_of(room, uid, now);
    if crowded(room, uid) {
        room
    } else if granted(counts, uid, now) {
        room.insert(uid, (window.0, (window.1 + 1) as u32))
    } else {
        room.insert(uid, window)
    }
}

/// Whether no caller exceeds its budget and there is room for all of them.
pub open spec fn bounded(counts: Map<u32, (u64, u32)>) -> bool {
    &&& counts.dom().finite()
    &&& counts.dom().len() <= MAX_TRACKED_UIDS
    &&& forall|uid: u32| #[trigger] counts.contains_key(uid) ==> counts[uid].1 <= MAX_PER_WINDOW
}

impl Default for RateLimiter {
    fn default() -> (r: Self)
        ensures
            r@ == Map::<u32, (u64, u32)>::empty(),
            bounded(r@),
    {
        RateLimiter::new()
    }
}

impl View for RateLimiter {
    type V = Map<u32, (u64, u32)>;

    closed spec fn view(&self) -> Map<u32, (u64, u32)> {
        self.counts@
    }
}

impl RateLimiter {
    /// A limiter that has counted nothing.
    #[must_use]
    pub fn new() -> (r: Self)
        ensures
            r@ == Map::<u32, (u64, u32)>::empty(),
            bounded(r@),
    {
        RateLimiter { counts: HashMap::new(), start: present() }
    }

    /// Counts a request of `uid` at the present, and says whether it is
    /// granted.
    pub fn allow(&mut self, uid: u32) -> (r: bool)
        ensures
            bounded(old(self)@) ==> bounded(final(self)@),
            exists|now: u64| #[trigger]
                after(old(self)@, uid, now) == final(self)@ && r == granted(old(self)@, uid, now),
    {
        let now: u64 = nanos_since(&self.start);
        self.allow_at(uid, now)
    }

    /// Counts a request of `uid` at `now`, and says whether it is granted.
    pub fn allow_at(&mut self, uid: u32, now: u64) -> (r: bool)
        ensures
            bounded(old(self)@) ==> bounded(final(self)@),
            final(self)@ == after(old(self)@, uid, now),
            r == granted(old(self)@, uid, now),
    {
        let ghost before = self.counts@;
        if !self.counts.contains_key(&uid) && self.counts.len() >= MAX_TRACKED_UIDS {
            self.drop_finished(now);
            proof {
                vstd::set_lib::lemma_len_subset(self.counts@.dom(), before.dom());
            }
            if self.counts.len() >= MAX_TRACKED_UIDS {
                return false;
            }
        }
        assert(self.counts@ == admitted(before, uid, now));
        let ghost room = self.counts@;
        let mut window: (u64, u32) = match self.counts.get(&uid) {
            Some(found) => *found,
            None => (now, 0),
        };
        if now > window.0 && now - window.0 >= WINDOW {
            window = (now, 0);
        }
        assert(window == window_of(room, uid, now));
        let allowed = if window.1 >= MAX_PER_WINDOW {
            false
        } else {
            window.1 = window.1 + 1;
            true
        };
        self.counts.insert(uid, window);
        assert(self.counts@ =~= after(before, uid, now));
        assert forall|u: u32|
            bounded(before) && #[trigger] self.counts@.contains_key(u) implies self.counts@[u].1
            <= MAX_PER_WINDOW by {
            if u != uid {
                assert(room.contains_key(u));
                assert(before.contains_key(u));
            }
        }
        allowed
    }

    fn drop_finished(&mut self, now: u64)
        ensures
            final(self)@ == running(old(self)@, now),
            final(self)@.dom().subset_of(old(self)@.dom()),
    {
        let ghost before = self.counts@;
        let mut finished: Vec<u32> = Vec::new();
        let ghost keys = vstd::std_specs::hash::spec_keys_iter(&self.counts).remaining();
        for uid in it: self.counts.keys()
            invariant
                before == self.counts@,
                it.seq() == keys,
                keys.unref().to_set() == before.dom(),
                forall|i: int|
                    0 <= i < finished@.len() ==> before.contains_key(#[trigger] finished@[i])
                        && since(now, before[finished@[i]].0) >= WINDOW,
                forall|i: int|
                    0 <= i < it.index() ==> {
                        let uid = *#[trigger] it.seq()[i];
                        since(now, before[uid].0) >= WINDOW ==> finished@.contains(uid)
                    },
        {
            assert(it.seq().unref()[it.index() as int] == *uid);
            assert(it.seq().unref().to_set().contains(*uid));
            assert(before.contains_key(*uid));
            let ghost prior = finished@;
            if let Some(window) = self.counts.get(uid) {
                if now > window.0 && now - window.0 >= WINDOW {
                    finished.push(*uid);
                    assert(finished@[finished@.len() - 1] == *uid);
                    assert forall|x: u32| prior.contains(x) implies finished@.contains(x) by {
                        let k = choose|k: int| 0 <= k < prior.len() && prior[k] == x;
                        assert(finished@[k] == x);
                    }
                }
            }
        }
        assert forall|uid: u32|
            before.contains_key(uid) && since(now, before[uid].0)
                >= WINDOW implies finished@.contains(uid) by {
            assert(keys.unref().to_set().contains(uid));
            let k = choose|k: int| 0 <= k < keys.unref().len() && keys.unref()[k] == uid;
            assert(*keys[k] == uid);
        }
        let mut i: usize = 0;
        while i < finished.len()
            invariant
                i <= finished@.len(),
                forall|uid: u32| #[trigger]
                    self.counts@.contains_key(uid) <==> before.contains_key(uid)
                        && !finished@.take(i as int).contains(uid),
                forall|uid: u32| #[trigger]
                    self.counts@.contains_key(uid) ==> self.counts@[uid] == before[uid],
            decreases finished@.len() - i,
        {
            let ghost gone = finished@.take(i as int);
            let ghost prior = self.counts@;
            self.counts.remove(&finished[i]);
            let ghost now_gone = finished@.take(i + 1);
            assert(now_gone =~= gone.push(finished@[i as int]));
            assert forall|uid: u32| now_gone.contains(uid) <==> gone.contains(uid) || uid
                == finished@[i as int] by {
                if gone.contains(uid) {
                    let k = choose|k: int| 0 <= k < gone.len() && gone[k] == uid;
                    assert(now_gone[k] == uid);
                }
                if uid == finished@[i as int] {
                    assert(now_gone[i as int] == uid);
                }
            }
            i += 1;
        }
        assert(finished@.take(i as int) =~= finished@);
        assert(self.counts@ =~= running(before, now)) by {
            assert forall|uid: u32| finished@.contains(uid) implies since(now, before[uid].0)
                >= WINDOW by {
                let k = choose|k: int| 0 <= k < finished@.len() && finished@[k] == uid;
            }
        }
    }
}

/// The windows after a history of requests, each a caller and a time.
pub open spec fn after_all(counts: Map<u32, (u64, u32)>, history: Seq<(u32, u64)>) -> Map<
    u32,
    (u64, u32),
>
    decreases history.len(),
{
    if history.len() == 0 {
        counts
    } else {
        after(after_all(counts, history.drop_last()), history.last().0, history.last().1)
    }
}

/// How many requests of `uid` are granted in a history of requests.
pub open spec fn grants(
    counts: Map<u32, (u64, u32)>,
    history: Seq<(u32, u64)>,
    uid: u32,
) -> int
    decreases history.len(),
{
    if history.len() == 0 {
        0
    } else {
        let (caller, now) = history.last();
        grants(counts, history.drop_last(), uid) + if caller == uid && granted(
            after_all(counts, history.drop_last()),
            caller,
            now,
        ) {
            1int
        } else {
            0
        }
    }
}

/// How much of its budget `uid` has used.
pub open spec fn used(counts: Map<u32, (u64, u32)>, uid: u32) -> int {
    if counts.contains_key(uid) {
        counts[uid].1 as int
    } else {
        0
    }
}

proof fn lemma_used_counts_grants(
    counts: Map<u32, (u64, u32)>,
    history: Seq<(u32, u64)>,
    from: int,
    uid: u32,
)
    requires
        counts.contains_key(uid) ==> counts[uid].0 == from,
        used(counts, uid) <= MAX_PER_WINDOW,
        forall|i: int|
            0 <= i < history.len() ==> from <= (#[trigger] history[i]).1 < from + WINDOW,
    ensures
        used(after_all(counts, history), uid) == used(counts, uid) + grants(counts, history, uid),
        used(after_all(counts, history), uid) <= MAX_PER_WINDOW,
        after_all(counts, history).contains_key(uid) ==> from <= after_all(
            counts,
            history,
        )[uid].0 < from + WINDOW,
    decreases history.len(),
{
    if history.len() > 0 {
        let prior = history.drop_last();
        assert forall|i: int| 0 <= i < prior.len() implies from <= (#[trigger] prior[i]).1 < from
            + WINDOW by {
            assert(prior[i] == history[i]);
        }
        lemma_used_counts_grants(counts, prior, from, uid);
        let state = after_all(counts, prior);
        let (caller, now) = history.last();
        assert(history[history.len() - 1] == history.last());
        let room = admitted(state, caller, now);
        assert(room.contains_key(uid) <==> state.contains_key(uid));
        assert(state.contains_key(uid) ==> room[uid] == state[uid]);
    }
}

/// Whatever other callers do, and whatever else the limiter had to count, no
/// caller is granted more than its budget within one window.
pub proof fn lemma_budget_holds(
    counts: Map<u32, (u64, u32)>,
    history: Seq<(u32, u64)>,
    from: int,
    uid: u32,
)
    requires
        counts.contains_key(uid) ==> counts[uid].0 == from,
        used(counts, uid) <= MAX_PER_WINDOW,
        forall|i: int|
            0 <= i < history.len() ==> from <= (#[trigger] history[i]).1 < from + WINDOW,
    ensures
        used(counts, uid) + grants(counts, history, uid) <= MAX_PER_WINDOW,
{
    lemma_used_counts_grants(counts, history, from, uid);
}

/// A known caller is granted again once its window is over.
pub proof fn lemma_budget_resets(counts: Map<u32, (u64, u32)>, uid: u32, now: u64)
    requires
        counts.contains_key(uid),
        since(now, counts[uid].0) >= WINDOW,
    ensures
        granted(counts, uid, now),
        after(counts, uid, now)[uid] == (now, 1u32),
{
}

/// A request leaves the window that any other caller is in as it was.
pub proof fn lemma_budgets_are_per_caller(
    counts: Map<u32, (u64, u32)>,
    uid: u32,
    other: u32,
    now: u64,
)
    requires
        uid != other,
    ensures
        window_of(after(counts, uid, now), other, now) == window_of(counts, other, now),
{
}

/// A caller that is known is granted exactly as many requests in a window as
/// the budget has, each of which is counted. A window that is over starts anew.
pub proof fn lemma_known_caller_is_granted(counts: Map<u32, (u64, u32)>, uid: u32, now: u64)
    requires
        counts.contains_key(uid),
    ensures
        now - counts[uid].0 < WINDOW ==> (granted(counts, uid, now) <==> counts[uid].1
            < MAX_PER_WINDOW),
        now - counts[uid].0 < WINDOW && counts[uid].1 < MAX_PER_WINDOW ==> after(counts, uid, now)
            == counts.insert(uid, (counts[uid].0, (counts[uid].1 + 1) as u32)),
        now - counts[uid].0 < WINDOW && counts[uid].1 >= MAX_PER_WINDOW ==> after(counts, uid, now)
            == counts.insert(uid, counts[uid]),
        now - counts[uid].0 >= WINDOW ==> granted(counts, uid, now) && after(counts, uid, now)
            == counts.insert(uid, (now, 1u32)),
{
}

/// A caller that is not known is granted its first request as long as there is
/// room to count it, or any caller's window is over.
pub proof fn lemma_new_caller_is_granted(
    counts: Map<u32, (u64, u32)>,
    uid: u32,
    now: u64,
    other: u32,
)
    requires
        !counts.contains_key(uid),
        counts.dom().finite(),
        counts.dom().len() <= MAX_TRACKED_UIDS,
    ensures
        counts.dom().len() < MAX_TRACKED_UIDS ==> granted(counts, uid, now) && after(
            counts,
            uid,
            now,
        ) == counts.insert(uid, (now, 1u32)),
        counts.contains_key(other) && now - counts[other].0 >= WINDOW ==> granted(counts, uid, now),
{
    if counts.contains_key(other) && now - counts[other].0 >= WINDOW {
        let left = running(counts, now);
        assert(left.dom().subset_of(counts.dom()));
        assert(!left.contains_key(other));
        assert(left.dom().subset_of(counts.dom().remove(other)));
        vstd::set_lib::lemma_len_subset(left.dom(), counts.dom().remove(other));
    }
}

/// A caller that is not known is refused where as many callers as can be
/// counted are within their windows, and their counts stay.
pub proof fn lemma_crowd_is_refused(counts: Map<u32, (u64, u32)>, uid: u32, now: u64)
    requires
        !counts.contains_key(uid),
        counts.dom().finite(),
        counts.dom().len() >= MAX_TRACKED_UIDS,
        forall|other: u32| #[trigger]
            counts.contains_key(other) ==> now - counts[other].0 < WINDOW,
    ensures
        !granted(counts, uid, now),
        after(counts, uid, now) == counts,
{
    assert(running(counts, now) =~= counts);
}

} // verus!
