//! Timers and animation frames: when callbacks are due, and in which order.
use crate::registry;
use vstd::prelude::*;

verus! {

/// A callback that waits for its time. Times are in nanoseconds from a fixed point on.
pub struct TimerEntry<C> {
    pub id: u32,
    pub fire_at: u128,
    /// How many milliseconds later it is due again, where it repeats.
    pub interval: Option<u32>,
    pub callback: C,
}

/// The callbacks that wait for their time.
pub struct TimerState<C> {
    pub timers: Vec<TimerEntry<C>>,
    pub next_id: u32,
    /// The numbers that were cleared since timers were last taken.
    pub cleared: Vec<u32>,
}

/// The time so many milliseconds after another.
pub open spec fn later(now: u64, ms: u32) -> u128 {
    (now + ms * 1_000_000) as u128
}

fn after(now: u64, ms: u32) -> (r: u128)
    ensures
        r == later(now, ms),
        r >= now,
{
    now as u128 + ms as u128 * 1_000_000
}

/// The timers that are not the one with a number.
pub open spec fn not_numbered<C>(id: u32) -> spec_fn(TimerEntry<C>) -> bool {
    |t: TimerEntry<C>| t.id != id
}

/// The timers that are due, in the order in which they are taken from the list: from the front
/// on, where the last one takes the place of one that was taken.
pub open spec fn due_from<C>(v: Seq<TimerEntry<C>>, i: int, now: u64) -> Seq<TimerEntry<C>>
    decreases v.len() - i,
{
    if i < 0 || i >= v.len() {
        Seq::empty()
    } else if v[i].fire_at <= now {
        seq![v[i]] + due_from(v.update(i, v.last()).drop_last(), i, now)
    } else {
        due_from(v, i + 1, now)
    }
}

/// The timers that stay, in the order that taking the others leaves.
pub open spec fn kept_from<C>(v: Seq<TimerEntry<C>>, i: int, now: u64) -> Seq<TimerEntry<C>>
    decreases v.len() - i,
{
    if i < 0 || i >= v.len() {
        v
    } else if v[i].fire_at <= now {
        kept_from(v.update(i, v.last()).drop_last(), i, now)
    } else {
        kept_from(v, i + 1, now)
    }
}

/// The timers with one that fired set again, where it repeats and its number is not among those
/// that were cleared.
pub open spec fn rearmed<C>(
    v: Seq<TimerEntry<C>>,
    cleared: Seq<u32>,
    t: TimerEntry<C>,
    now: u64,
) -> Seq<TimerEntry<C>> {
    match t.interval {
        Some(ms) => if cleared.contains(t.id) {
            v
        } else {
            v.push(TimerEntry { fire_at: later(now, ms), ..t })
        },
        None => v,
    }
}

/// The soonest time of the timers of a list.
pub open spec fn soonest<C>(v: Seq<TimerEntry<C>>) -> Option<u128>
    decreases v.len(),
{
    if v.len() == 0 {
        None
    } else {
        match soonest(v.drop_last()) {
            None => Some(v.last().fire_at),
            Some(t) => if v.last().fire_at < t {
                Some(v.last().fire_at)
            } else {
                Some(t)
            },
        }
    }
}

impl<C> TimerState<C> {
    /// No timers.
    pub fn new() -> (r: Self)
        ensures
            r.timers@.len() == 0,
            r.next_id == 0,
            r.cleared@.len() == 0,
    {
        TimerState { timers: Vec::new(), next_id: 0, cleared: Vec::new() }
    }

    /// Sets a timer, and gives its number.
    pub fn schedule_timer(
        &mut self,
        callback: C,
        delay_ms: u32,
        interval: Option<u32>,
        now: u64,
    ) -> (r: u32)
        ensures
            r == registry::next_after(old(self).next_id),
            final(self).next_id == r,
            final(self).cleared@ == old(self).cleared@,
            final(self).timers@ == old(self).timers@.push(
                TimerEntry { id: r, fire_at: later(now, delay_ms), interval, callback },
            ),
    {
        self.next_id = self.next_id.wrapping_add(1);
        let id: u32 = self.next_id;
        self.timers.push(TimerEntry { id, fire_at: after(now, delay_ms), interval, callback });
        id
    }

    /// Sets a timer that fires once.
    pub fn set_timeout(&mut self, callback: C, ms: u32, now: u64) -> (r: u32)
        ensures
            r == registry::next_after(old(self).next_id),
            final(self).next_id == r,
            final(self).cleared@ == old(self).cleared@,
            final(self).timers@ == old(self).timers@.push(
                TimerEntry { id: r, fire_at: later(now, ms), interval: None, callback },
            ),
    {
        self.schedule_timer(callback, ms, None, now)
    }

    /// Sets a timer that fires again and again, at most once in a millisecond.
    pub fn set_interval(&mut self, callback: C, ms: u32, now: u64) -> (r: u32)
        ensures
            r == registry::next_after(old(self).next_id),
            final(self).next_id == r,
            final(self).cleared@ == old(self).cleared@,
            final(self).timers@ == old(self).timers@.push(
                TimerEntry {
                    id: r,
                    fire_at: later(now, ms),
                    interval: Some(
                        if ms == 0 {
                            1
                        } else {
                            ms
                        },
                    ),
                    callback,
                },
            ),
    {
        let period: u32 = if ms == 0 {
            1
        } else {
            ms
        };
        self.schedule_timer(callback, ms, Some(period), now)
    }

    /// Clears the timers with a number. One that was taken, since it was due, is not set again.
    pub fn clear_timer(&mut self, id: u32)
        ensures
            final(self).timers@ == old(self).timers@.filter(not_numbered(id)),
            final(self).next_id == old(self).next_id,
            final(self).cleared@ == old(self).cleared@.push(id),
    {
        self.cleared.push(id);
        let ghost before = self.timers@;
        let ghost keep = not_numbered::<C>(id);
        let mut i: usize = 0;
        proof {
            reveal(Seq::filter);
            assert(before.take(0).filter(keep) + before.skip(0) =~= before);
        }
        let ghost mut seen: int = 0;
        while i < self.timers.len()
            invariant
                0 <= seen <= before.len(),
                keep == not_numbered::<C>(id),
                i == before.take(seen).filter(keep).len(),
                self.timers@ == before.take(seen).filter(keep) + before.skip(seen),
                self.next_id == old(self).next_id,
                self.cleared@ == old(self).cleared@.push(id),
            decreases before.len() - seen,
        {
            proof {
                reveal(Seq::filter);
                assert(before.take(seen + 1).drop_last() =~= before.take(seen));
                assert(before.take(seen + 1).last() == before[seen]);
                assert(self.timers@[i as int] == before[seen]);
            }
            if self.timers[i].id == id {
                self.timers.remove(i);
                proof {
                    assert(self.timers@ =~= before.take(seen + 1).filter(keep) + before.skip(
                        seen + 1,
                    ));
                }
            } else {
                proof {
                    assert(before.take(seen).filter(keep) + before.skip(seen) =~= before.take(
                        seen + 1,
                    ).filter(keep) + before.skip(seen + 1));
                }
                i = i + 1;
            }
            proof {
                seen = seen + 1;
            }
        }
        proof {
            assert(before.skip(seen).len() == 0);
            assert(before.take(seen) =~= before);
            assert(self.timers@ =~= before.filter(keep));
        }
    }

    /// The soonest time at which a timer is due.
    pub fn next_timer_at(&self) -> (r: Option<u128>)
        ensures
            r == soonest(self.timers@),
    {
        let mut best: Option<u128> = None;
        let mut i: usize = 0;
        while i < self.timers.len()
            invariant
                i <= self.timers@.len(),
                best == soonest(self.timers@.take(i as int)),
            decreases self.timers@.len() - i,
        {
            proof {
                assert(self.timers@.take(i + 1).drop_last() =~= self.timers@.take(i as int));
                assert(self.timers@.take(i + 1).last() == self.timers@[i as int]);
            }
            let t: u128 = self.timers[i].fire_at;
            best = match best {
                None => Some(t),
                Some(b) => if t < b {
                    Some(t)
                } else {
                    Some(b)
                },
            };
            i = i + 1;
        }
        proof {
            assert(self.timers@.take(self.timers@.len() as int) =~= self.timers@);
        }
        best
    }

    /// Takes the timers that are due.
    pub fn drain_due_timers(&mut self, now: u64) -> (r: Vec<TimerEntry<C>>)
        ensures
            r@ == due_from(old(self).timers@, 0, now),
            final(self).timers@ == kept_from(old(self).timers@, 0, now),
            final(self).next_id == old(self).next_id,
            final(self).cleared@.len() == 0,
    {
        self.cleared = Vec::new();
        let ghost before = self.timers@;
        let mut due: Vec<TimerEntry<C>> = Vec::new();
        let mut i: usize = 0;
        proof {
            assert(due@ + due_from(self.timers@, 0, now) =~= due_from(before, 0, now));
        }
        while i < self.timers.len()
            invariant
                i <= self.timers@.len(),
                due@ + due_from(self.timers@, i as int, now) == due_from(before, 0, now),
                kept_from(self.timers@, i as int, now) == kept_from(before, 0, now),
                self.next_id == old(self).next_id,
                self.cleared@.len() == 0,
            decreases self.timers@.len() - i,
        {
            if self.timers[i].fire_at <= now as u128 {
                let ghost prev = self.timers@;
                let ghost done = due@;
                let t = self.timers.swap_remove(i);
                due.push(t);
                proof {
                    let rest = prev.update(i as int, prev.last()).drop_last();
                    assert(self.timers@ =~= rest);
                    assert(done + (seq![prev[i as int]] + due_from(rest, i as int, now)) =~= (
                    done.push(prev[i as int])) + due_from(rest, i as int, now));
                }
            } else {
                i = i + 1;
            }
        }
        proof {
            assert(due@ =~= due_from(before, 0, now));
        }
        due
    }

    /// Sets a timer that fired again, where it repeats and was not cleared since it was taken: its
    /// time is counted from when it fired.
    pub fn rearm_timer(&mut self, timer: TimerEntry<C>, now: u64)
        ensures
            final(self).next_id == old(self).next_id,
            final(self).cleared@ == old(self).cleared@,
            final(self).timers@ == rearmed(old(self).timers@, old(self).cleared@, timer, now),
    {
        let mut gone = false;
        let mut i: usize = 0;
        while i < self.cleared.len()
            invariant
                i <= self.cleared@.len(),
                self.cleared@ == old(self).cleared@,
                self.timers@ == old(self).timers@,
                self.next_id == old(self).next_id,
                gone == exists|j: int| 0 <= j < i && #[trigger] self.cleared@[j] == timer.id,
            decreases self.cleared@.len() - i,
        {
            if self.cleared[i] == timer.id {
                gone = true;
            }
            i = i + 1;
        }
        proof {
            assert(gone == self.cleared@.contains(timer.id));
        }
        match timer.interval {
            Some(ms) => {
                if !gone {
                    self.timers.push(
                        TimerEntry {
                            id: timer.id,
                            fire_at: after(now, ms),
                            interval: Some(ms),
                            callback: timer.callback,
                        },
                    );
                }
            },
            None => {},
        }
    }
}

proof fn lemma_due<C>(v: Seq<TimerEntry<C>>, i: int, now: u64)
    requires
        0 <= i <= v.len(),
        forall|j: int| 0 <= j < i ==> (#[trigger] v[j]).fire_at > now,
    ensures
        (due_from(v, i, now) + kept_from(v, i, now)).to_multiset() == v.to_multiset(),
        forall|j: int|
            0 <= j < due_from(v, i, now).len() ==> (#[trigger] due_from(v, i, now)[j]).fire_at
                <= now,
        forall|j: int|
            0 <= j < kept_from(v, i, now).len() ==> (#[trigger] kept_from(v, i, now)[j]).fire_at
                > now,
    decreases v.len() - i,
{
    broadcast use vstd::seq_lib::group_to_multiset_ensures;

    if i >= v.len() {
        assert(due_from(v, i, now) + kept_from(v, i, now) =~= v);
    } else if v[i].fire_at <= now {
        let rest = v.update(i, v.last()).drop_last();
        assert forall|j: int| 0 <= j < i implies (#[trigger] rest[j]).fire_at > now by {
            assert(rest[j] == v[j]);
        }
        lemma_due(rest, i, now);
        let d = due_from(rest, i, now);
        let k = kept_from(rest, i, now);
        assert((seq![v[i]] + d) + k =~= seq![v[i]] + (d + k));
        vstd::seq_lib::lemma_multiset_commutative(seq![v[i]], d + k);
        assert(seq![v[i]].to_multiset() =~= vstd::multiset::Multiset::singleton(v[i])) by {
            assert(seq![v[i]] =~= Seq::empty().push(v[i]));
            assert(Seq::<TimerEntry<C>>::empty().to_multiset()
                =~= vstd::multiset::Multiset::<TimerEntry<C>>::empty());
        }
        let before = v.drop_last();
        assert(v =~= before.push(v.last()));
        assert(v.to_multiset() == before.to_multiset().insert(v.last()));
        if i == v.len() - 1 {
            assert(rest =~= before);
        } else {
            assert(rest =~= before.update(i, v.last()));
            vstd::seq_lib::to_multiset_update(before, i, v.last());
            assert(before.to_multiset().contains(v[i])) by {
                assert(before[i] == v[i]);
                assert(before.contains(v[i]));
            }
        }
        assert(v.to_multiset() =~= vstd::multiset::Multiset::singleton(v[i]).add(
            rest.to_multiset(),
        ));
    } else {
        lemma_due(v, i + 1, now);
    }
}

/// Every timer whose time has come fires, none whose time has not come does, and none is lost.
pub proof fn due_timers_fire<C>(v: Seq<TimerEntry<C>>, now: u64)
    ensures
        (due_from(v, 0, now) + kept_from(v, 0, now)).to_multiset() == v.to_multiset(),
        forall|j: int|
            0 <= j < due_from(v, 0, now).len() ==> (#[trigger] due_from(v, 0, now)[j]).fire_at
                <= now,
        forall|j: int|
            0 <= j < kept_from(v, 0, now).len() ==> (#[trigger] kept_from(v, 0, now)[j]).fire_at
                > now,
{
    lemma_due(v, 0, now);
}

/// A timer that was cleared does not fire, whatever the time.
pub proof fn cleared_timers_are_silent<C>(v: Seq<TimerEntry<C>>, id: u32, now: u64)
    ensures
        forall|j: int|
            0 <= j < due_from(v.filter(not_numbered(id)), 0, now).len() ==> (#[trigger] due_from(
                v.filter(not_numbered(id)),
                0,
                now,
            )[j]).id != id,
{
    broadcast use vstd::seq_lib::group_to_multiset_ensures;

    let w = v.filter(not_numbered(id));
    let due = due_from(w, 0, now);
    let both = due + kept_from(w, 0, now);
    due_timers_fire(w, now);
    assert forall|j: int| 0 <= j < due.len() implies (#[trigger] due[j]).id != id by {
        assert(both[j] == due[j]);
        assert(both.contains(due[j]));
        assert(both.to_multiset().contains(due[j]));
        assert(w.contains(due[j]));
        let k = w.index_of(due[j]);
        v.lemma_filter_pred(not_numbered(id), k);
    }
}

/// A timer that its own callback cleared is not set again, and neither is any other with its
/// number.
pub proof fn cleared_timers_stay_away<C>(
    v: Seq<TimerEntry<C>>,
    cleared: Seq<u32>,
    t: TimerEntry<C>,
    now: u64,
)
    ensures
        forall|j: int|
            0 <= j < rearmed(v.filter(not_numbered(t.id)), cleared.push(t.id), t, now).len() ==> (
            #[trigger] rearmed(v.filter(not_numbered(t.id)), cleared.push(t.id), t, now)[j]).id
                != t.id,
{
    let w = v.filter(not_numbered(t.id));
    assert(cleared.push(t.id)[cleared.len() as int] == t.id);
    assert forall|j: int| 0 <= j < w.len() implies (#[trigger] w[j]).id != t.id by {
        v.lemma_filter_pred(not_numbered(t.id), j);
    }
}

/// The soonest time is that of a timer, and no timer is due before it.
pub proof fn soonest_is_first<C>(v: Seq<TimerEntry<C>>)
    ensures
        v.len() == 0 <==> soonest(v) is None,
        soonest(v) matches Some(t) ==> (exists|j: int|
            0 <= j < v.len() && (#[trigger] v[j]).fire_at == t) && forall|j: int|
            0 <= j < v.len() ==> t <= (#[trigger] v[j]).fire_at,
    decreases v.len(),
{
    if v.len() > 0 {
        let w = v.drop_last();
        soonest_is_first(w);
        assert(v[v.len() - 1] == v.last());
        if soonest(w) is Some {
            let t = soonest(w)->0;
            let j = choose|j: int| 0 <= j < w.len() && (#[trigger] w[j]).fire_at == t;
            assert(v[j] == w[j]);
            assert forall|j: int| 0 <= j < v.len() implies soonest(v)->0 <= (
            #[trigger] v[j]).fire_at by {
                if j < w.len() {
                    assert(v[j] == w[j]);
                }
            }
        }
    }
}

/// A callback that waits for the next frame.
pub struct AnimationFrameEntry<C> {
    pub id: u32,
    pub callback: C,
}

/// The callbacks that wait for the next frame.
pub struct AnimationFrameQueue<C> {
    pub pending: Vec<AnimationFrameEntry<C>>,
    pub next_id: u32,
}

/// The callbacks that are not the one with a number.
pub open spec fn other_frames<C>(id: u32) -> spec_fn(AnimationFrameEntry<C>) -> bool {
    |e: AnimationFrameEntry<C>| e.id != id
}

impl<C> AnimationFrameQueue<C> {
    /// No callbacks.
    pub fn new() -> (r: Self)
        ensures
            r.pending@.len() == 0,
            r.next_id == 0,
    {
        AnimationFrameQueue { pending: Vec::new(), next_id: 0 }
    }

    /// Adds a callback for the next frame, and gives its number.
    pub fn request_animation_frame(&mut self, callback: C) -> (r: u32)
        ensures
            r == registry::next_after(old(self).next_id),
            final(self).next_id == r,
            final(self).pending@ == old(self).pending@.push(
                AnimationFrameEntry { id: r, callback },
            ),
    {
        self.next_id = self.next_id.wrapping_add(1);
        let id: u32 = self.next_id;
        self.pending.push(AnimationFrameEntry { id, callback });
        id
    }

    /// Drops the callbacks with a number.
    pub fn cancel_animation_frame(&mut self, id: u32)
        ensures
            final(self).pending@ == old(self).pending@.filter(other_frames(id)),
            final(self).next_id == old(self).next_id,
    {
        let ghost before = self.pending@;
        let ghost keep = other_frames::<C>(id);
        let mut i: usize = 0;
        proof {
            reveal(Seq::filter);
            assert(before.take(0).filter(keep) + before.skip(0) =~= before);
        }
        let ghost mut seen: int = 0;
        while i < self.pending.len()
            invariant
                0 <= seen <= before.len(),
                keep == other_frames::<C>(id),
                i == before.take(seen).filter(keep).len(),
                self.pending@ == before.take(seen).filter(keep) + before.skip(seen),
                self.next_id == old(self).next_id,
            decreases before.len() - seen,
        {
            proof {
                reveal(Seq::filter);
                assert(before.take(seen + 1).drop_last() =~= before.take(seen));
                assert(before.take(seen + 1).last() == before[seen]);
                assert(self.pending@[i as int] == before[seen]);
            }
            if self.pending[i].id == id {
                self.pending.remove(i);
                proof {
                    assert(self.pending@ =~= before.take(seen + 1).filter(keep) + before.skip(
                        seen + 1,
                    ));
                }
            } else {
                proof {
                    assert(before.take(seen).filter(keep) + before.skip(seen) =~= before.take(
                        seen + 1,
                    ).filter(keep) + before.skip(seen + 1));
                }
                i = i + 1;
            }
            proof {
                seen = seen + 1;
            }
        }
        proof {
            assert(before.skip(seen).len() == 0);
            assert(before.take(seen) =~= before);
            assert(self.pending@ =~= before.filter(keep));
        }
    }

    /// Whether any callback waits.
    pub fn has_pending_animation_frames(&self) -> (r: bool)
        ensures
            r == (self.pending@.len() > 0),
    {
        self.pending.len() > 0
    }

    /// Takes the callbacks of this frame, in order; what they ask for waits for the next one.
    pub fn take_frame(&mut self) -> (r: Vec<AnimationFrameEntry<C>>)
        ensures
            r@ == old(self).pending@,
            final(self).pending@.len() == 0,
            final(self).next_id == old(self).next_id,
    {
        let mut out: Vec<AnimationFrameEntry<C>> = Vec::new();
        core::mem::swap(&mut out, &mut self.pending);
        out
    }
}

/// A timer is due so many milliseconds after it was set as its delay says: it does not fire at any
/// time before, and fires at every time from then on.
pub proof fn timers_wait_their_delay<C>(t: TimerEntry<C>, set_at: u64, delay_ms: u32, now: u64)
    requires
        t.fire_at == later(set_at, delay_ms),
    ensures
        later(set_at, delay_ms) == set_at + delay_ms * 1_000_000,
        due_from(seq![t], 0, now).contains(t) <==> now >= set_at + delay_ms * 1_000_000,
        kept_from(seq![t], 0, now).contains(t) <==> now < set_at + delay_ms * 1_000_000,
{
    let one = seq![t];
    assert(one[0] == t);
    assert(one.update(0, one.last()).drop_last() =~= Seq::empty());
    assert(due_from(Seq::<TimerEntry<C>>::empty(), 0, now) =~= Seq::empty());
    assert(kept_from(Seq::<TimerEntry<C>>::empty(), 0, now) =~= Seq::empty());
    if t.fire_at <= now {
        assert(due_from(one, 0, now) =~= seq![t]);
        assert(seq![t][0] == t);
    } else {
        assert(due_from(one, 1, now) =~= Seq::empty());
        assert(kept_from(one, 1, now) =~= one);
    }
}

/// A timer that repeats and was not cleared waits, once it fired, for its own interval from then
/// on, and keeps its number, its interval and its callback; the other timers stay as they are. One
/// that does not repeat is not set again.
pub proof fn intervals_keep_their_pace<C>(
    v: Seq<TimerEntry<C>>,
    cleared: Seq<u32>,
    t: TimerEntry<C>,
    now: u64,
)
    ensures
        t.interval is None ==> rearmed(v, cleared, t, now) == v,
        t.interval is Some && !cleared.contains(t.id) ==> {
            let after = rearmed(v, cleared, t, now);
            &&& after.len() == v.len() + 1
            &&& after.drop_last() == v
            &&& after.last().id == t.id
            &&& after.last().interval == t.interval
            &&& after.last().callback == t.callback
            &&& after.last().fire_at == now + t.interval->0 * 1_000_000
            &&& forall|then: u64| #[trigger]
                due_from(seq![after.last()], 0, then).contains(after.last()) <==> then - now
                    >= t.interval->0 * 1_000_000
        },
{
    let after = rearmed(v, cleared, t, now);
    if t.interval is Some && !cleared.contains(t.id) {
        assert(after.drop_last() =~= v);
        assert forall|then: u64| #[trigger]
            due_from(seq![after.last()], 0, then).contains(after.last()) <==> then - now
                >= t.interval->0 * 1_000_000 by {
            timers_wait_their_delay(after.last(), now, t.interval->0, then);
        }
    }
}

/// Clearing a number takes the timers with it, and only these, and leaves the others in order.
pub proof fn clearing_takes_one_number<C>(v: Seq<TimerEntry<C>>, id: u32, t: TimerEntry<C>)
    ensures
        v.filter(not_numbered(id)).contains(t) <==> v.contains(t) && t.id != id,
{
    let keep = not_numbered::<C>(id);
    if v.filter(keep).contains(t) {
        let i = v.filter(keep).index_of(t);
        v.lemma_filter_pred(keep, i);
        v.lemma_filter_contains_rev(keep, t);
    }
    if v.contains(t) && t.id != id {
        let i = v.index_of(t);
        v.lemma_filter_contains(keep, i);
    }
}

/// Cancelling a number takes the callbacks with it from the next frame, and only these.
pub proof fn cancelling_takes_one_number<C>(
    v: Seq<AnimationFrameEntry<C>>,
    id: u32,
    e: AnimationFrameEntry<C>,
)
    ensures
        v.filter(other_frames(id)).contains(e) <==> v.contains(e) && e.id != id,
{
    let keep = other_frames::<C>(id);
    if v.filter(keep).contains(e) {
        let i = v.filter(keep).index_of(e);
        v.lemma_filter_pred(keep, i);
        v.lemma_filter_contains_rev(keep, e);
    }
    if v.contains(e) && e.id != id {
        let i = v.index_of(e);
        v.lemma_filter_contains(keep, i);
    }
}

/// Of the timers that are due the first in the list fires first. The last one of the list takes its
/// place, and so on with what is left.
pub proof fn first_due_fires_first<C>(v: Seq<TimerEntry<C>>, i: int, now: u64)
    requires
        0 <= i < v.len(),
        v[i].fire_at <= now,
        forall|j: int| 0 <= j < i ==> (#[trigger] v[j]).fire_at > now,
    ensures
        due_from(v, 0, now) == seq![v[i]] + due_from(v.update(i, v.last()).drop_last(), 0, now),
        kept_from(v, 0, now) == kept_from(v.update(i, v.last()).drop_last(), 0, now),
{
    let w = v.update(i, v.last()).drop_last();
    lemma_not_due_yet(v, 0, i, now);
    assert forall|j: int| 0 <= j < i && j < w.len() implies (#[trigger] w[j]).fire_at > now by {
        assert(w[j] == v[j]);
    }
    lemma_not_due_yet(w, 0, i, now);
}

proof fn lemma_not_due_yet<C>(v: Seq<TimerEntry<C>>, k: int, i: int, now: u64)
    requires
        0 <= k <= i <= v.len(),
        forall|j: int| k <= j < i ==> (#[trigger] v[j]).fire_at > now,
    ensures
        due_from(v, k, now) == due_from(v, i, now),
        kept_from(v, k, now) == kept_from(v, i, now),
    decreases i - k,
{
    if k < i {
        assert(v[k].fire_at > now);
        lemma_not_due_yet(v, k + 1, i, now);
    }
}

} // verus!
