//! The expiry scheduler: the pending expirations of the store, nearest
//! deadline first and the older rule first among equal deadlines, one for
//! each rule that has one.

use vstd::prelude::*;

verus! {

/// A pending expiration: the rule `id` is to be retracted at `deadline`.
#[derive(Clone, Copy, Debug, PartialEq, Eq, Structural)]
pub struct Timer {
    pub deadline: u64,
    pub id: u64,
}

/// `a` comes before `b`: its deadline is earlier, or the deadlines are the
/// same and its rule is the older one.
pub open spec fn before(a: Timer, b: Timer) -> bool {
    a.deadline < b.deadline || (a.deadline == b.deadline && a.id < b.id)
}

/// Each timer comes before those behind it: the order is that of the
/// deadlines, and among equal deadlines that of the identifiers.
pub open spec fn sorted(ts: Seq<Timer>) -> bool {
    forall|i: int, j: int| 0 <= i < j < ts.len() ==> before(#[trigger] ts[i], #[trigger] ts[j])
}

/// No rule has two timers.
pub open spec fn distinct_ids(ts: Seq<Timer>) -> bool {
    forall|i: int, j: int| 0 <= i < j < ts.len() ==> ts[i].id != ts[j].id
}

/// The rule `id` has a timer.
pub open spec fn has_id(ts: Seq<Timer>, id: u64) -> bool {
    exists|i: int| 0 <= i < ts.len() && (#[trigger] ts[i]).id == id
}

/// Where the timer of the rule `id` stands.
pub open spec fn id_position(ts: Seq<Timer>, id: u64) -> int {
    choose|i: int| 0 <= i < ts.len() && (#[trigger] ts[i]).id == id
}

/// The deadline of the timer of the rule `id`.
pub open spec fn deadline_of(ts: Seq<Timer>, id: u64) -> u64 {
    ts[id_position(ts, id)].deadline
}

/// How many timers at the head of the sequence are due at `now`.
pub open spec fn due_count(ts: Seq<Timer>, now: u64) -> nat
    decreases ts.len(),
{
    if ts.len() > 0 && ts[0].deadline <= now {
        1 + due_count(ts.drop_first(), now)
    } else {
        0
    }
}

/// How many timers at the head of the sequence come before `t`.
pub open spec fn rank(ts: Seq<Timer>, t: Timer) -> nat
    decreases ts.len(),
{
    if ts.len() > 0 && before(ts[0], t) {
        1 + rank(ts.drop_first(), t)
    } else {
        0
    }
}

/// The timers with `t` among them, in its place in the order.
pub open spec fn with_timer(ts: Seq<Timer>, t: Timer) -> Seq<Timer> {
    ts.insert(rank(ts, t) as int, t)
}

/// The timers without that of the rule `id`.
pub open spec fn without_id(ts: Seq<Timer>, id: u64) -> Seq<Timer> {
    if has_id(ts, id) {
        ts.remove(id_position(ts, id))
    } else {
        ts
    }
}

/// The head of the sequence that is due at `now` ends at `n`.
pub proof fn lemma_due_count(ts: Seq<Timer>, now: u64, n: int)
    requires
        0 <= n <= ts.len(),
        forall|j: int| 0 <= j < n ==> (#[trigger] ts[j]).deadline <= now,
        n < ts.len() ==> ts[n].deadline > now,
    ensures
        due_count(ts, now) == n,
    decreases ts.len(),
{
    if n > 0 {
        assert(ts[0].deadline <= now);
        let rest = ts.drop_first();
        assert forall|j: int| 0 <= j < n - 1 implies (#[trigger] rest[j]).deadline <= now by {
            assert(rest[j] == ts[j + 1]);
        }
        lemma_due_count(rest, now, n - 1);
    }
}

/// The head of the sequence that comes before `t` ends at `n`.
pub proof fn lemma_rank(ts: Seq<Timer>, t: Timer, n: int)
    requires
        0 <= n <= ts.len(),
        forall|j: int| 0 <= j < n ==> before(#[trigger] ts[j], t),
        n < ts.len() ==> !before(ts[n], t),
    ensures
        rank(ts, t) == n,
    decreases ts.len(),
{
    if n > 0 {
        assert(before(ts[0], t));
        let rest = ts.drop_first();
        assert forall|j: int| 0 <= j < n - 1 implies before(#[trigger] rest[j], t) by {
            assert(rest[j] == ts[j + 1]);
        }
        lemma_rank(rest, t, n - 1);
    }
}

/// The rest of a sorted sequence is sorted.
proof fn lemma_sorted_rest(ts: Seq<Timer>)
    requires
        sorted(ts),
        ts.len() > 0,
    ensures
        sorted(ts.drop_first()),
{
    let rest = ts.drop_first();
    assert forall|i: int, j: int| 0 <= i < j < rest.len() implies before(
        #[trigger] rest[i],
        #[trigger] rest[j],
    ) by {
        assert(rest[i] == ts[i + 1] && rest[j] == ts[j + 1]);
        assert(before(ts[i + 1], ts[j + 1]));
    }
}

/// In a sorted sequence the due timers are those before `due_count`.
pub proof fn lemma_due_count_sorted(ts: Seq<Timer>, now: u64)
    requires
        sorted(ts),
    ensures
        due_count(ts, now) <= ts.len(),
        forall|j: int| 0 <= j < due_count(ts, now) ==> (#[trigger] ts[j]).deadline <= now,
        forall|j: int| due_count(ts, now) <= j < ts.len() ==> (#[trigger] ts[j]).deadline > now,
    decreases ts.len(),
{
    if ts.len() > 0 && ts[0].deadline <= now {
        let rest = ts.drop_first();
        lemma_sorted_rest(ts);
        lemma_due_count_sorted(rest, now);
        let n = due_count(ts, now) as int;
        assert forall|j: int| 0 <= j < n implies (#[trigger] ts[j]).deadline <= now by {
            if j > 0 {
                assert(ts[j] == rest[j - 1]);
            }
        }
        assert forall|j: int| n <= j < ts.len() implies (#[trigger] ts[j]).deadline > now by {
            assert(ts[j] == rest[j - 1]);
        }
    } else if ts.len() > 0 {
        assert forall|j: int| 0 <= j < ts.len() implies (#[trigger] ts[j]).deadline > now by {
            if j > 0 {
                assert(before(ts[0], ts[j]));
            }
        }
    }
}

/// In a sorted sequence the timers that come before `t` are those before
/// `rank`.
pub proof fn lemma_rank_sorted(ts: Seq<Timer>, t: Timer)
    requires
        sorted(ts),
    ensures
        rank(ts, t) <= ts.len(),
        forall|j: int| 0 <= j < rank(ts, t) ==> before(#[trigger] ts[j], t),
        forall|j: int| rank(ts, t) <= j < ts.len() ==> !before(#[trigger] ts[j], t),
    decreases ts.len(),
{
    if ts.len() > 0 && before(ts[0], t) {
        let rest = ts.drop_first();
        lemma_sorted_rest(ts);
        lemma_rank_sorted(rest, t);
        let n = rank(ts, t) as int;
        assert forall|j: int| 0 <= j < n implies before(#[trigger] ts[j], t) by {
            if j > 0 {
                assert(ts[j] == rest[j - 1]);
            }
        }
        assert forall|j: int| n <= j < ts.len() implies !before(#[trigger] ts[j], t) by {
            assert(ts[j] == rest[j - 1]);
        }
    } else if ts.len() > 0 {
        assert forall|j: int| 0 <= j < ts.len() implies !before(#[trigger] ts[j], t) by {
            if j > 0 {
                assert(before(ts[0], ts[j]));
            }
        }
    }
}

/// With distinct identifiers, a timer of `id` stands where `id_position` says.
pub proof fn lemma_id_position(ts: Seq<Timer>, id: u64, k: int)
    requires
        distinct_ids(ts),
        0 <= k < ts.len(),
        ts[k].id == id,
    ensures
        has_id(ts, id),
        id_position(ts, id) == k,
{
    assert(has_id(ts, id));
    let p = id_position(ts, id);
    if p < k {
        assert(ts[p].id != ts[k].id);
    } else if k < p {
        assert(ts[k].id != ts[p].id);
    }
}

/// What adding a timer does: order and distinctness stay, the new rule has a
/// timer with its deadline, and every other rule keeps what it had.
pub proof fn lemma_with_timer(ts: Seq<Timer>, t: Timer)
    requires
        sorted(ts),
        distinct_ids(ts),
        !has_id(ts, t.id),
    ensures
        sorted(with_timer(ts, t)),
        distinct_ids(with_timer(ts, t)),
        with_timer(ts, t).len() == ts.len() + 1,
        has_id(with_timer(ts, t), t.id),
        deadline_of(with_timer(ts, t), t.id) == t.deadline,
        forall|x: u64|
            x != t.id ==> (#[trigger] has_id(with_timer(ts, t), x) <==> has_id(ts, x)),
        forall|x: u64|
            x != t.id && has_id(ts, x) ==> #[trigger] deadline_of(with_timer(ts, t), x)
                == deadline_of(ts, x),
        forall|now: u64|
            t.deadline > now ==> #[trigger] due_count(with_timer(ts, t), now) == due_count(
                ts,
                now,
            ),
{
    let p = rank(ts, t) as int;
    let w = with_timer(ts, t);
    lemma_rank_sorted(ts, t);
    assert(w.len() == ts.len() + 1);
    assert(w[p] == t);
    assert forall|j: int| 0 <= j < w.len() implies #[trigger] w[j] == (if j < p {
        ts[j]
    } else if j == p {
        t
    } else {
        ts[j - 1]
    }) by {}
    assert forall|j: int| p <= j < ts.len() implies before(t, #[trigger] ts[j]) by {
        assert(!before(ts[j], t));
        assert(ts[j].id != t.id);
    }
    assert forall|i: int, j: int| 0 <= i < j < w.len() implies before(
        #[trigger] w[i],
        #[trigger] w[j],
    ) by {
        if i < p && j == p {
            assert(before(ts[i], t));
        } else if i < p && j > p {
            assert(before(ts[i], ts[j - 1]));
        } else if i < p && j < p {
            assert(before(ts[i], ts[j]));
        } else if i == p {
            assert(before(t, ts[j - 1]));
        } else {
            assert(before(ts[i - 1], ts[j - 1]));
        }
    }
    assert forall|i: int, j: int| 0 <= i < j < w.len() implies w[i].id != w[j].id by {
        if i == p {
            assert(ts[j - 1].id != t.id);
        } else if j == p {
            assert(ts[i].id != t.id);
        } else if i < p && j > p {
            assert(ts[i].id != ts[j - 1].id);
        } else if i < p {
            assert(ts[i].id != ts[j].id);
        } else {
            assert(ts[i - 1].id != ts[j - 1].id);
        }
    }
    lemma_id_position(w, t.id, p);
    assert forall|x: u64| x != t.id implies (#[trigger] has_id(w, x) <==> has_id(ts, x)) by {
        if has_id(w, x) {
            let j = id_position(w, x);
            if j < p {
                assert(ts[j].id == x);
            } else {
                assert(ts[j - 1].id == x);
            }
        }
        if has_id(ts, x) {
            let j = id_position(ts, x);
            if j < p {
                assert(w[j].id == x);
            } else {
                assert(w[j + 1].id == x);
            }
        }
    }
    assert forall|x: u64| x != t.id && has_id(ts, x) implies #[trigger] deadline_of(w, x)
        == deadline_of(ts, x) by {
        let j = id_position(ts, x);
        if j < p {
            lemma_id_position(w, x, j);
        } else {
            lemma_id_position(w, x, j + 1);
        }
    }
    assert forall|now: u64| t.deadline > now implies #[trigger] due_count(w, now) == due_count(
        ts,
        now,
    ) by {
        lemma_due_count_sorted(ts, now);
        let n = due_count(ts, now) as int;
        assert(n <= p) by {
            if n > p {
                assert(ts[p].deadline <= now);
                assert(before(t, ts[p]));
            }
        }
        assert forall|j: int| 0 <= j < n implies (#[trigger] w[j]).deadline <= now by {
            assert(w[j] == ts[j]);
        }
        if n < w.len() {
            if n < p {
                assert(w[n] == ts[n]);
            }
        }
        lemma_due_count(w, now, n);
    }
}

/// What removing the timer of a rule does: order and distinctness stay, the
/// rule has no timer, and every other rule keeps what it had.
pub proof fn lemma_without_id(ts: Seq<Timer>, id: u64)
    requires
        sorted(ts),
        distinct_ids(ts),
    ensures
        sorted(without_id(ts, id)),
        distinct_ids(without_id(ts, id)),
        !has_id(without_id(ts, id), id),
        forall|x: u64| x != id ==> (#[trigger] has_id(without_id(ts, id), x) <==> has_id(ts, x)),
        forall|x: u64|
            x != id && has_id(ts, x) ==> #[trigger] deadline_of(without_id(ts, id), x)
                == deadline_of(ts, x),
        forall|now: u64| #[trigger] due_count(without_id(ts, id), now) <= due_count(ts, now),
{
    let w = without_id(ts, id);
    if has_id(ts, id) {
        let p = id_position(ts, id);
        assert(w.len() == ts.len() - 1);
        assert forall|j: int| 0 <= j < w.len() implies #[trigger] w[j] == (if j < p {
            ts[j]
        } else {
            ts[j + 1]
        }) by {}
        assert forall|i: int, j: int| 0 <= i < j < w.len() implies before(
            #[trigger] w[i],
            #[trigger] w[j],
        ) by {
            let a = if i < p {
                i
            } else {
                i + 1
            };
            let b = if j < p {
                j
            } else {
                j + 1
            };
            assert(before(ts[a], ts[b]));
        }
        assert forall|i: int, j: int| 0 <= i < j < w.len() implies w[i].id != w[j].id by {
            let a = if i < p {
                i
            } else {
                i + 1
            };
            let b = if j < p {
                j
            } else {
                j + 1
            };
            assert(ts[a].id != ts[b].id);
        }
        if has_id(w, id) {
            let j = id_position(w, id);
            let a = if j < p {
                j
            } else {
                j + 1
            };
            if a < p {
                assert(ts[a].id != ts[p].id);
            } else {
                assert(ts[p].id != ts[a].id);
            }
        }
        assert forall|x: u64| x != id implies (#[trigger] has_id(w, x) <==> has_id(ts, x)) by {
            if has_id(w, x) {
                let j = id_position(w, x);
                let a = if j < p {
                    j
                } else {
                    j + 1
                };
                assert(ts[a].id == x);
            }
            if has_id(ts, x) {
                let j = id_position(ts, x);
                if j < p {
                    assert(w[j].id == x);
                } else {
                    assert(w[j - 1].id == x);
                }
            }
        }
        assert forall|x: u64| x != id && has_id(ts, x) implies #[trigger] deadline_of(w, x)
            == deadline_of(ts, x) by {
            let j = id_position(ts, x);
            if j < p {
                lemma_id_position(w, x, j);
            } else {
                lemma_id_position(w, x, j - 1);
            }
        }
        assert forall|now: u64| #[trigger] due_count(w, now) <= due_count(ts, now) by {
            lemma_due_count_sorted(ts, now);
            lemma_due_count_sorted(w, now);
            let n = due_count(ts, now) as int;
            let m = due_count(w, now) as int;
            if m > n {
                assert(w[m - 1].deadline <= now);
                if m - 1 < p {
                    assert(ts[m - 1].deadline > now);
                } else {
                    assert(ts[m].deadline > now);
                }
            }
        }
    }
}

/// Taking a timer out and putting it back leaves the timers as they were:
/// the place of a timer is that of its deadline and its rule, whatever was
/// done before.
pub proof fn lemma_timer_restored(ts: Seq<Timer>, k: int)
    requires
        sorted(ts),
        distinct_ids(ts),
        0 <= k < ts.len(),
    ensures
        with_timer(without_id(ts, ts[k].id), ts[k]) == ts,
{
    let t = ts[k];
    lemma_id_position(ts, t.id, k);
    let w = without_id(ts, t.id);
    assert(w == ts.remove(k));
    assert forall|j: int| 0 <= j < k implies before(#[trigger] w[j], t) by {
        assert(w[j] == ts[j]);
        assert(before(ts[j], ts[k]));
    }
    if k < w.len() {
        assert(w[k] == ts[k + 1]);
        assert(before(ts[k], ts[k + 1]));
    }
    lemma_rank(w, t, k);
    assert(w.insert(k, t) =~= ts);
}

/// The pending expirations, nearest deadline first.
pub struct ExpiryScheduler {
    timers: Vec<Timer>,
}

impl View for ExpiryScheduler {
    type V = Seq<Timer>;

    closed spec fn view(&self) -> Seq<Timer> {
        self.timers@
    }
}

impl ExpiryScheduler {
    /// The timers are in order of deadline and no rule has two.
    pub open spec fn wf(&self) -> bool {
        sorted(self@) && distinct_ids(self@)
    }

    /// A scheduler with nothing pending.
    pub fn new() -> (r: ExpiryScheduler)
        ensures
            r@ == Seq::<Timer>::empty(),
            r.wf(),
    {
        ExpiryScheduler { timers: Vec::new() }
    }

    /// How many expirations are pending.
    pub fn len(&self) -> (r: usize)
        ensures
            r == self@.len(),
    {
        self.timers.len()
    }

    /// The nearest deadline, if anything is pending.
    pub fn next_deadline(&self) -> (r: Option<u64>)
        ensures
            r == (if self@.len() > 0 {
                Some(self@[0].deadline)
            } else {
                None::<u64>
            }),
    {
        if self.timers.len() > 0 {
            Some(self.timers[0].deadline)
        } else {
            None
        }
    }

    /// The expiration that comes first, if anything is pending.
    pub fn peek(&self) -> (r: Option<Timer>)
        ensures
            r == (if self@.len() > 0 {
                Some(self@[0])
            } else {
                None::<Timer>
            }),
    {
        if self.timers.len() > 0 {
            Some(self.timers[0])
        } else {
            None
        }
    }

    /// Whether the rule `id` has a pending expiration.
    pub fn is_scheduled(&self, id: u64) -> (r: bool)
        ensures
            r == has_id(self@, id),
    {
        let mut i: usize = 0;
        while i < self.timers.len()
            invariant
                i <= self.timers@.len(),
                forall|j: int| 0 <= j < i ==> (#[trigger] self.timers@[j]).id != id,
            decreases self.timers@.len() - i,
        {
            if self.timers[i].id == id {
                return true;
            }
            i = i + 1;
        }
        false
    }

    /// Registers the expiration of the rule `id` at `deadline`, in its place
    /// in the order. An expiration that the rule has already gives way to the
    /// new one.
    pub fn schedule(&mut self, id: u64, deadline: u64)
        requires
            old(self).wf(),
        ensures
            final(self)@ == with_timer(without_id(old(self)@, id), Timer { deadline, id }),
            final(self).wf(),
    {
        let _ = self.cancel(id);
        let ghost rest = self.timers@;
        let ghost t = Timer { deadline, id };
        proof {
            lemma_without_id(old(self).timers@, id);
        }
        let mut i: usize = 0;
        while i < self.timers.len() && (self.timers[i].deadline < deadline || (
        self.timers[i].deadline == deadline && self.timers[i].id < id))
            invariant
                i <= self.timers@.len(),
                self.timers@ == rest,
                t == (Timer { deadline, id }),
                forall|j: int| 0 <= j < i ==> before(#[trigger] self.timers@[j], t),
            decreases self.timers@.len() - i,
        {
            i = i + 1;
        }
        proof {
            lemma_rank(self.timers@, t, i as int);
            lemma_with_timer(self.timers@, t);
        }
        self.timers.insert(i, Timer { deadline, id });
    }

    /// The deadline of the expiration of the rule `id`, if it has one.
    pub fn deadline_for(&self, id: u64) -> (r: Option<u64>)
        requires
            self.wf(),
        ensures
            r == (if has_id(self@, id) {
                Some(deadline_of(self@, id))
            } else {
                None::<u64>
            }),
    {
        let mut i: usize = 0;
        while i < self.timers.len()
            invariant
                i <= self.timers@.len(),
                self.wf(),
                forall|j: int| 0 <= j < i ==> (#[trigger] self.timers@[j]).id != id,
            decreases self.timers@.len() - i,
        {
            if self.timers[i].id == id {
                proof {
                    lemma_id_position(self.timers@, id, i as int);
                }
                return Some(self.timers[i].deadline);
            }
            i = i + 1;
        }
        None
    }

    /// Cancels the expiration of the rule `id`, and says whether there was one.
    pub fn cancel(&mut self, id: u64) -> (r: bool)
        requires
            old(self).wf(),
        ensures
            r == has_id(old(self)@, id),
            final(self)@ == without_id(old(self)@, id),
            final(self).wf(),
    {
        let mut i: usize = 0;
        while i < self.timers.len()
            invariant
                i <= self.timers@.len(),
                self.timers@ == old(self).timers@,
                old(self).wf(),
                forall|j: int| 0 <= j < i ==> (#[trigger] self.timers@[j]).id != id,
            decreases self.timers@.len() - i,
        {
            if self.timers[i].id == id {
                proof {
                    lemma_id_position(self.timers@, id, i as int);
                    lemma_without_id(self.timers@, id);
                }
                self.timers.remove(i);
                return true;
            }
            i = i + 1;
        }
        false
    }

    /// Takes the nearest expiration if its deadline has come.
    pub fn pop_due(&mut self, now: u64) -> (r: Option<Timer>)
        requires
            old(self).wf(),
        ensures
            final(self).wf(),
            match r {
                Some(t) => {
                    &&& old(self)@.len() > 0
                    &&& t == old(self)@[0]
                    &&& t.deadline <= now
                    &&& final(self)@ == without_id(old(self)@, t.id)
                    &&& final(self)@ == old(self)@.drop_first()
                },
                None => {
                    &&& final(self)@ == old(self)@
                    &&& due_count(old(self)@, now) == 0
                },
            },
    {
        if self.timers.len() > 0 && self.timers[0].deadline <= now {
            proof {
                lemma_id_position(self.timers@, self.timers@[0].id, 0);
                lemma_without_id(self.timers@, self.timers@[0].id);
                assert(self.timers@.remove(0) =~= self.timers@.drop_first());
            }
            let t = self.timers.remove(0);
            Some(t)
        } else {
            None
        }
    }
}

} // verus!
