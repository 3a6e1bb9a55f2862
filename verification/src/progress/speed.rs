//! Speeds, and sizes and times as text.

use vstd::prelude::*;

use crate::progress::ratio;
use crate::text;

verus! {

/// How many buckets the window has.
pub const BUCKET_COUNT: usize = 20;

/// How many nanoseconds a bucket lasts: 50 milliseconds, so that the window lasts one second.
pub const BUCKET_NANOS: u64 = 50_000_000;

// ---------------------------------------------------------------------------
// The window
// ---------------------------------------------------------------------------

/// The sum of the buckets.
pub open spec fn total(buckets: Seq<u64>) -> nat
    decreases buckets.len(),
{
    if buckets.len() == 0 {
        0
    } else {
        total(buckets.drop_last()) + buckets.last() as nat
    }
}

proof fn lemma_total_update(buckets: Seq<u64>, i: int, n: u64)
    requires
        0 <= i < buckets.len(),
    ensures
        total(buckets.update(i, n)) + buckets[i] == total(buckets) + n,
    decreases buckets.len(),
{
    let u = buckets.update(i, n);
    if i == buckets.len() - 1 {
        assert(u.drop_last() =~= buckets.drop_last());
    } else {
        assert(u.drop_last() =~= buckets.drop_last().update(i, n));
        lemma_total_update(buckets.drop_last(), i, n);
    }
}

/// The bytes of the last second, in buckets that go round, and the bytes of all time. Times are in
/// nanoseconds.
pub struct SpeedTracker {
    pub buckets: Vec<u64>,
    pub current_bucket: usize,
    pub last_update: u64,
    pub total_bytes: u64,
}

/// The state of a window.
pub struct Window {
    pub buckets: Seq<u64>,
    pub current: nat,
    pub last_update: u64,
    pub total_bytes: u64,
}

/// How many buckets have gone by.
pub open spec fn gone_by(last_update: u64, now: u64) -> nat {
    if now <= last_update {
        0
    } else {
        ((now - last_update) / BUCKET_NANOS as int) as nat
    }
}

impl Window {
    /// The window that begins in the next `n` buckets, which are empty.
    pub open spec fn turned(self, n: nat) -> Window
        decreases n,
    {
        if n == 0 {
            self
        } else {
            let w = self.turned((n - 1) as nat);
            let next = (w.current + 1) % BUCKET_COUNT as nat;
            Window { buckets: w.buckets.update(next as int, 0), current: next, ..w }
        }
    }

    /// The window as it is at a time: buckets that have gone by are emptied, each once at most, and
    /// the clock moves on by whole buckets, so that no time is lost.
    pub open spec fn at(self, now: u64) -> Window {
        let n = gone_by(self.last_update, now);
        Window {
            last_update: (self.last_update + n * BUCKET_NANOS) as u64,
            ..self.turned(
                if n < BUCKET_COUNT {
                    n
                } else {
                    BUCKET_COUNT as nat
                },
            )
        }
    }

    /// The window after bytes came.
    pub open spec fn counted(self, bytes: u64, now: u64) -> Window {
        let w = self.at(now);
        Window {
            buckets: w.buckets.update(
                w.current as int,
                (w.buckets[w.current as int] + bytes) as u64,
            ),
            total_bytes: (w.total_bytes + bytes) as u64,
            ..w
        }
    }
}

/// A window without bytes, from a time on.
pub open spec fn empty_window(start: u64) -> Window {
    Window {
        buckets: Seq::new(BUCKET_COUNT as nat, |i: int| 0u64),
        current: 0,
        last_update: start,
        total_bytes: 0,
    }
}

impl View for SpeedTracker {
    type V = Window;

    open spec fn view(&self) -> Window {
        Window {
            buckets: self.buckets@,
            current: self.current_bucket as nat,
            last_update: self.last_update,
            total_bytes: self.total_bytes,
        }
    }
}

impl SpeedTracker {
    /// The current bucket is one of them, and they hold no more than the bytes of all time.
    pub open spec fn wf(self) -> bool {
        &&& self.buckets@.len() == BUCKET_COUNT
        &&& self.current_bucket < BUCKET_COUNT
        &&& total(self.buckets@) <= self.total_bytes
    }

    /// A window without bytes.
    pub fn new(now: u64) -> (r: Self)
        ensures
            r.wf(),
            r@ == empty_window(now),
    {
        let mut buckets: Vec<u64> = Vec::new();
        let mut i: usize = 0;
        while i < BUCKET_COUNT
            invariant
                i <= BUCKET_COUNT,
                buckets@ == Seq::new(i as nat, |j: int| 0u64),
                total(buckets@) == 0,
            decreases BUCKET_COUNT - i,
        {
            let ghost before = buckets@;
            buckets.push(0);
            i = i + 1;
            proof {
                assert(buckets@.drop_last() =~= before);
                assert(buckets@ =~= Seq::new(i as nat, |j: int| 0u64));
            }
        }
        SpeedTracker { buckets, current_bucket: 0, last_update: now, total_bytes: 0 }
    }

    fn advance_buckets(&mut self, now: u64)
        requires
            old(self).wf(),
        ensures
            final(self).wf(),
            final(self)@ == old(self)@.at(now),
    {
        let ghost before = self@;
        if now <= self.last_update {
            return;
        }
        let gone: u64 = (now - self.last_update) / BUCKET_NANOS;
        let steps: usize = if gone < BUCKET_COUNT as u64 {
            gone as usize
        } else {
            BUCKET_COUNT
        };
        let mut i: usize = 0;
        while i < steps
            invariant
                i <= steps,
                self.wf(),
                self@ == before.turned(i as nat),
                self.last_update == before.last_update,
            decreases steps - i,
        {
            let next: usize = (self.current_bucket + 1) % BUCKET_COUNT;
            proof {
                lemma_total_update(self.buckets@, next as int, 0);
            }
            self.buckets.set(next, 0);
            self.current_bucket = next;
            i = i + 1;
        }
        self.last_update = self.last_update + gone * BUCKET_NANOS;
    }

    /// Counts bytes that went over now.
    pub fn add_bytes(&mut self, bytes: u64, now: u64)
        requires
            old(self).wf(),
            old(self).total_bytes + bytes <= u64::MAX,
        ensures
            final(self).wf(),
            final(self)@ == old(self)@.counted(bytes, now),
    {
        self.advance_buckets(now);
        let i: usize = self.current_bucket;
        proof {
            lemma_total_update(self.buckets@, i as int, 0);
            lemma_turned_keeps(old(self)@, gone_by(old(self)@.last_update, now));
            lemma_turned_keeps(old(self)@, BUCKET_COUNT as nat);
            assert(self.buckets@[i as int] <= total(self.buckets@));
            assert(self.total_bytes == old(self).total_bytes);
        }
        let sum: u64 = self.buckets[i] + bytes;
        proof {
            lemma_total_update(self.buckets@, i as int, sum);
        }
        self.buckets.set(i, sum);
        self.total_bytes = self.total_bytes + bytes;
    }

    /// Bytes per second: what the window of one second holds now.
    pub fn speed_bps(&mut self, now: u64) -> (r: u64)
        requires
            old(self).wf(),
        ensures
            final(self).wf(),
            final(self)@ == old(self)@.at(now),
            r == total(final(self)@.buckets),
    {
        self.advance_buckets(now);
        let mut sum: u64 = 0;
        let mut i: usize = 0;
        while i < BUCKET_COUNT
            invariant
                i <= BUCKET_COUNT,
                self.wf(),
                self@ == old(self)@.at(now),
                sum == total(self.buckets@.take(i as int)),
            decreases BUCKET_COUNT - i,
        {
            proof {
                let b = self.buckets@;
                assert(b.take(i + 1).drop_last() =~= b.take(i as int));
                lemma_total_take(b, i + 1);
            }
            sum = sum + self.buckets[i];
            i = i + 1;
        }
        proof {
            assert(self.buckets@.take(i as int) =~= self.buckets@);
        }
        sum
    }

    /// The bytes of all time.
    pub fn total_bytes(&self) -> (r: u64)
        ensures
            r == self.total_bytes,
    {
        self.total_bytes
    }
}

proof fn lemma_total_take(buckets: Seq<u64>, n: int)
    requires
        0 <= n <= buckets.len(),
    ensures
        total(buckets.take(n)) <= total(buckets),
    decreases buckets.len(),
{
    if n == buckets.len() {
        assert(buckets.take(n) =~= buckets);
    } else {
        lemma_total_take(buckets.drop_last(), n);
        assert(buckets.drop_last().take(n) =~= buckets.take(n));
    }
}

proof fn lemma_turned_keeps(w: Window, n: nat)
    requires
        w.buckets.len() == BUCKET_COUNT,
    ensures
        w.turned(n).total_bytes == w.total_bytes,
        w.turned(n).buckets.len() == w.buckets.len(),
        w.turned(n).last_update == w.last_update,
        w.current < BUCKET_COUNT ==> w.turned(n).current < BUCKET_COUNT,
    decreases n,
{
    if n > 0 {
        lemma_turned_keeps(w, (n - 1) as nat);
    }
}

// ---------------------------------------------------------------------------
// Laws
// ---------------------------------------------------------------------------

/// A call: bytes that came at a time. A call that asks for the speed brings no bytes.
pub struct Arrival {
    pub bytes: u64,
    pub time: u64,
}

/// The calls are in the order of time, from `start` on.
pub open spec fn in_order(start: u64, calls: Seq<Arrival>) -> bool {
    &&& forall|i: int| 0 <= i < calls.len() ==> start <= (#[trigger] calls[i]).time
    &&& forall|i: int, j: int|
        0 <= i <= j < calls.len() ==> (#[trigger] calls[i]).time <= (#[trigger] calls[j]).time
}

/// The bytes that came in all.
pub open spec fn bytes_of(calls: Seq<Arrival>) -> nat
    decreases calls.len(),
{
    if calls.len() == 0 {
        0
    } else {
        bytes_of(calls.drop_last()) + calls.last().bytes as nat
    }
}

/// The window after calls, one after the other.
pub open spec fn window_after(start: u64, calls: Seq<Arrival>) -> Window
    decreases calls.len(),
{
    if calls.len() == 0 {
        empty_window(start)
    } else {
        window_after(start, calls.drop_last()).counted(calls.last().bytes, calls.last().time)
    }
}

/// The number of the bucket that a time falls into.
pub open spec fn slot(start: u64, time: u64) -> int {
    (time - start) / BUCKET_NANOS as int
}

/// The bytes that came in the buckets of the last second before `now`, the one of `now` included.
pub open spec fn recent(start: u64, calls: Seq<Arrival>, now: u64) -> nat
    decreases calls.len(),
{
    if calls.len() == 0 {
        0
    } else {
        recent(start, calls.drop_last(), now) + (if slot(start, now) - slot(
            start,
            calls.last().time,
        ) < BUCKET_COUNT {
            calls.last().bytes as nat
        } else {
            0nat
        })
    }
}

/// The bytes that came in one bucket.
spec fn in_slot(start: u64, calls: Seq<Arrival>, k: int) -> nat
    decreases calls.len(),
{
    if calls.len() == 0 {
        0
    } else {
        in_slot(start, calls.drop_last(), k) + (if slot(start, calls.last().time) == k {
            calls.last().bytes as nat
        } else {
            0nat
        })
    }
}

/// How far a bucket lies behind the current one, as the buckets go round.
spec fn behind(current: int, i: int) -> int {
    (current - i) % (BUCKET_COUNT as int)
}

/// The buckets hold what came in the bucket numbered `k` and in those before it.
spec fn holds(start: u64, calls: Seq<Arrival>, k: int, w: Window) -> bool {
    &&& w.buckets.len() == BUCKET_COUNT
    &&& w.current < BUCKET_COUNT
    &&& forall|i: int|
        0 <= i < BUCKET_COUNT ==> (#[trigger] w.buckets[i]) == in_slot(
            start,
            calls,
            k - behind(w.current as int, i),
        )
}

proof fn lemma_in_slot_bounded(start: u64, calls: Seq<Arrival>, k: int)
    ensures
        in_slot(start, calls, k) <= bytes_of(calls),
    decreases calls.len(),
{
    if calls.len() > 0 {
        lemma_in_slot_bounded(start, calls.drop_last(), k);
    }
}

proof fn lemma_nothing_came_yet(start: u64, calls: Seq<Arrival>, k: int)
    requires
        forall|i: int| 0 <= i < calls.len() ==> slot(start, (#[trigger] calls[i]).time) < k,
    ensures
        in_slot(start, calls, k) == 0,
    decreases calls.len(),
{
    if calls.len() > 0 {
        let front = calls.drop_last();
        assert forall|i: int| 0 <= i < front.len() implies slot(
            start,
            (#[trigger] front[i]).time,
        ) < k by {
            assert(front[i] == calls[i]);
        }
        lemma_nothing_came_yet(start, front, k);
        assert(calls[calls.len() - 1] == calls.last());
    }
}

proof fn lemma_turned_holds(start: u64, calls: Seq<Arrival>, k: int, w: Window, n: nat)
    requires
        holds(start, calls, k, w),
        forall|i: int| 0 <= i < calls.len() ==> slot(start, (#[trigger] calls[i]).time) <= k,
    ensures
        holds(start, calls, k + n, w.turned(n)),
    decreases n,
{
    if n > 0 {
        let m = (n - 1) as nat;
        lemma_turned_holds(start, calls, k, w, m);
        let before = w.turned(m);
        let after = w.turned(n);
        assert(after.current == (before.current + 1) % (BUCKET_COUNT as nat));
        lemma_nothing_came_yet(start, calls, k + n);
        assert forall|i: int| 0 <= i < BUCKET_COUNT implies (#[trigger] after.buckets[i])
            == in_slot(start, calls, k + n - behind(after.current as int, i)) by {
            if i == after.current {
                assert(behind(after.current as int, i) == 0);
            } else {
                assert(behind(after.current as int, i) == behind(before.current as int, i) + 1);
                assert(after.buckets[i] == before.buckets[i]);
            }
        }
    }
}

proof fn lemma_at_holds(start: u64, calls: Seq<Arrival>, w: Window, k: int, now: u64)
    requires
        holds(start, calls, k, w),
        w.last_update == start + k * BUCKET_NANOS,
        k >= 0,
        start <= now,
        k <= slot(start, now),
        forall|i: int| 0 <= i < calls.len() ==> slot(start, (#[trigger] calls[i]).time) <= k,
    ensures
        holds(start, calls, slot(start, now), w.at(now)),
        w.at(now).last_update == start + slot(start, now) * BUCKET_NANOS,
        w.at(now).total_bytes == w.total_bytes,
{
    let n = gone_by(w.last_update, now);
    let later = slot(start, now);
    assert(later == k + n);
    assert(w.last_update + n * BUCKET_NANOS <= now);
    if n < BUCKET_COUNT {
        lemma_turned_holds(start, calls, k, w, n);
        lemma_turned_keeps(w, n);
    } else {
        let all = BUCKET_COUNT as nat;
        lemma_turned_holds(start, calls, k, w, all);
        lemma_turned_keeps(w, all);
        let t = w.turned(all);
        assert forall|i: int| 0 <= i < BUCKET_COUNT implies (#[trigger] t.buckets[i]) == in_slot(
            start,
            calls,
            later - behind(t.current as int, i),
        ) by {
            lemma_nothing_came_yet(start, calls, k + all - behind(t.current as int, i));
            lemma_nothing_came_yet(start, calls, later - behind(t.current as int, i));
        }
    }
}

proof fn lemma_slots_in_order(start: u64, a: u64, b: u64)
    requires
        start <= a <= b,
    ensures
        0 <= slot(start, a) <= slot(start, b),
{
}

/// The number of the bucket of the last call.
spec fn last_slot(start: u64, calls: Seq<Arrival>) -> int {
    if calls.len() == 0 {
        0
    } else {
        slot(start, calls.last().time)
    }
}

proof fn lemma_window_holds(start: u64, calls: Seq<Arrival>)
    requires
        in_order(start, calls),
        bytes_of(calls) <= u64::MAX,
    ensures
        holds(start, calls, last_slot(start, calls), window_after(start, calls)),
        window_after(start, calls).last_update == start + last_slot(start, calls) * BUCKET_NANOS,
        window_after(start, calls).total_bytes == bytes_of(calls),
    decreases calls.len(),
{
    if calls.len() > 0 {
        let front = calls.drop_last();
        let c = calls.last();
        let k = last_slot(start, front);
        assert(in_order(start, front)) by {
            assert forall|i: int| 0 <= i < front.len() implies start <= (
            #[trigger] front[i]).time by {
                assert(front[i] == calls[i]);
            }
            assert forall|i: int, j: int| 0 <= i <= j < front.len() implies (
            #[trigger] front[i]).time <= (#[trigger] front[j]).time by {
                assert(front[i] == calls[i] && front[j] == calls[j]);
            }
        }
        lemma_window_holds(start, front);
        assert(calls[calls.len() - 1] == c);
        if front.len() > 0 {
            assert(front.last() == calls[calls.len() - 2]);
            lemma_slots_in_order(start, front.last().time, c.time);
        } else {
            lemma_slots_in_order(start, c.time, c.time);
        }
        assert forall|i: int| 0 <= i < front.len() implies slot(
            start,
            (#[trigger] front[i]).time,
        ) <= k by {
            assert(front[i] == calls[i]);
            assert(front.last() == front[front.len() - 1]);
            lemma_slots_in_order(start, front[i].time, front.last().time);
        }
        let w = window_after(start, front);
        lemma_at_holds(start, front, w, k, c.time);
        let t = w.at(c.time);
        let u = w.counted(c.bytes, c.time);
        let later = slot(start, c.time);
        assert forall|i: int| 0 <= i < BUCKET_COUNT implies (#[trigger] u.buckets[i]) == in_slot(
            start,
            calls,
            later - behind(u.current as int, i),
        ) by {
            lemma_in_slot_bounded(start, calls, later - behind(u.current as int, i));
            assert(t.buckets[i] == in_slot(start, front, later - behind(t.current as int, i)));
            if i == t.current {
                assert(behind(t.current as int, i) == 0);
            } else {
                assert(0 < behind(t.current as int, i) < BUCKET_COUNT);
            }
        }
    }
}

/// What the buckets of a window hold, where they hold what came up to the bucket numbered `k`.
spec fn row(start: u64, calls: Seq<Arrival>, k: int, current: int) -> Seq<u64> {
    Seq::new(
        BUCKET_COUNT as nat,
        |i: int| in_slot(start, calls, k - behind(current, i)) as u64,
    )
}

proof fn lemma_row_is_recent(start: u64, calls: Seq<Arrival>, now: u64, current: int)
    requires
        0 <= current < BUCKET_COUNT,
        bytes_of(calls) <= u64::MAX,
        forall|i: int|
            0 <= i < calls.len() ==> slot(start, (#[trigger] calls[i]).time) <= slot(start, now),
    ensures
        total(row(start, calls, slot(start, now), current)) == recent(start, calls, now),
    decreases calls.len(),
{
    let k = slot(start, now);
    let r = row(start, calls, k, current);
    if calls.len() == 0 {
        lemma_total_zero(r);
    } else {
        let front = calls.drop_last();
        let c = calls.last();
        assert(calls[calls.len() - 1] == c);
        assert forall|i: int| 0 <= i < front.len() implies slot(
            start,
            (#[trigger] front[i]).time,
        ) <= k by {
            assert(front[i] == calls[i]);
        }
        lemma_row_is_recent(start, front, now, current);
        let f = row(start, front, k, current);
        let gap = k - slot(start, c.time);
        assert forall|i: int| 0 <= i < BUCKET_COUNT implies in_slot(
            start,
            calls,
            k - #[trigger] behind(current, i),
        ) <= u64::MAX && in_slot(start, front, k - behind(current, i)) <= u64::MAX by {
            lemma_in_slot_bounded(start, calls, k - behind(current, i));
            lemma_in_slot_bounded(start, front, k - behind(current, i));
        }
        if gap < BUCKET_COUNT {
            let place = (current - gap) % (BUCKET_COUNT as int);
            assert(behind(current, place) == gap);
            assert forall|i: int| 0 <= i < BUCKET_COUNT implies #[trigger] r[i] == f.update(
                place,
                r[place],
            )[i] by {
                if i != place {
                    assert(behind(current, i) != gap);
                }
            }
            assert(r =~= f.update(place, r[place]));
            lemma_total_update(f, place, r[place]);
            assert(r[place] == f[place] + c.bytes);
        } else {
            assert forall|i: int| 0 <= i < BUCKET_COUNT implies #[trigger] r[i] == f[i] by {
                assert(behind(current, i) < BUCKET_COUNT);
            }
            assert(r =~= f);
        }
    }
}

/// The speed is what came in the last second, to the bucket, whatever calls were made before: of
/// each call it counts the bytes if its bucket is among the last twenty, and nothing else. The bytes
/// of all time are all bytes that came.
pub proof fn lemma_speed_is_of_the_last_second(start: u64, calls: Seq<Arrival>, now: u64)
    requires
        in_order(start, calls),
        bytes_of(calls) <= u64::MAX,
        start <= now,
        calls.len() > 0 ==> calls.last().time <= now,
    ensures
        total(window_after(start, calls).at(now).buckets) == recent(start, calls, now),
        window_after(start, calls).at(now).total_bytes == bytes_of(calls),
{
    lemma_window_holds(start, calls);
    let k = last_slot(start, calls);
    if calls.len() > 0 {
        assert(calls.last() == calls[calls.len() - 1]);
        lemma_slots_in_order(start, calls.last().time, now);
    } else {
        lemma_slots_in_order(start, now, now);
    }
    assert forall|i: int| 0 <= i < calls.len() implies slot(start, (#[trigger] calls[i]).time)
        <= k by {
        lemma_slots_in_order(start, calls[i].time, calls.last().time);
    }
    let w = window_after(start, calls);
    lemma_at_holds(start, calls, w, k, now);
    let t = w.at(now);
    lemma_row_is_recent(start, calls, now, t.current as int);
    assert(t.buckets =~= row(start, calls, slot(start, now), t.current as int)) by {
        assert forall|i: int| 0 <= i < BUCKET_COUNT implies #[trigger] t.buckets[i] == row(
            start,
            calls,
            slot(start, now),
            t.current as int,
        )[i] by {
            lemma_in_slot_bounded(start, calls, slot(start, now) - behind(t.current as int, i));
        }
    }
}

/// A byte that came a second ago or longer counts for nothing, and one that came within the last
/// nineteen buckets of time counts, whatever calls were made before and since.
pub proof fn lemma_old_bytes_are_forgotten(start: u64, calls: Seq<Arrival>, now: u64)
    requires
        in_order(start, calls),
        calls.len() > 0 ==> calls.last().time <= now,
    ensures
        forall|i: int|
            0 <= i < calls.len() && now - (#[trigger] calls[i]).time >= 1_000_000_000
                ==> recent(start, calls, now) == recent(start, calls.remove(i), now),
        forall|i: int|
            0 <= i < calls.len() && now - (#[trigger] calls[i]).time <= 950_000_000 ==> recent(start, calls, now) == recent(start, calls.remove(i), now)
                + calls[i].bytes,
    decreases calls.len(),
{
    assert forall|i: int| 0 <= i < calls.len() implies (now - (#[trigger] calls[i]).time
        >= 1_000_000_000 ==> recent(start, calls, now) == recent(
        start,
        calls.remove(i),
        now,
    )) && (now - calls[i].time <= 950_000_000 ==> recent(start, calls, now)
        == recent(start, calls.remove(i), now) + calls[i].bytes) by {
        lemma_recent_without(start, calls, now, i);
    }
}

proof fn lemma_recent_without(start: u64, calls: Seq<Arrival>, now: u64, i: int)
    requires
        0 <= i < calls.len(),
    ensures
        recent(start, calls, now) == recent(start, calls.remove(i), now) + (if slot(start, now)
            - slot(start, calls[i].time) < BUCKET_COUNT {
            calls[i].bytes as nat
        } else {
            0nat
        }),
    decreases calls.len(),
{
    let front = calls.drop_last();
    if i == calls.len() - 1 {
        assert(calls.remove(i) =~= front);
    } else {
        lemma_recent_without(start, front, now, i);
        assert(calls.remove(i).drop_last() =~= front.remove(i));
        assert(calls.remove(i).last() == calls.last());
    }
}

/// Asking for the speed is a call that brings no bytes.
pub proof fn lemma_asking_brings_no_bytes(w: Window, now: u64)
    requires
        w.buckets.len() == BUCKET_COUNT,
        w.current < BUCKET_COUNT,
    ensures
        w.at(now) == w.counted(0, now),
{
    let n = gone_by(w.last_update, now);
    let steps = if n < BUCKET_COUNT {
        n
    } else {
        BUCKET_COUNT as nat
    };
    lemma_turned_keeps(w, steps);
    let t = w.at(now);
    assert(t.buckets.update(t.current as int, t.buckets[t.current as int]) =~= t.buckets);
}

proof fn lemma_total_zero(b: Seq<u64>)
    requires
        forall|i: int| 0 <= i < b.len() ==> b[i] == 0,
    ensures
        total(b) == 0,
    decreases b.len(),
{
    if b.len() > 0 {
        lemma_total_zero(b.drop_last());
    }
}

// ---------------------------------------------------------------------------
// Text
// ---------------------------------------------------------------------------

/// Tenths as a number with one decimal.
pub open spec fn one_decimal(tenths: nat) -> Seq<char> {
    text::decimal_text(tenths / 10) + "."@ + text::decimal_text(tenths % 10)
}

/// A size in units, with one decimal: the size and the quotient are rounded as floating point
/// numbers are.
pub open spec fn in_units(bytes: u64, unit: nat) -> Seq<char> {
    one_decimal(ratio::in_tenths(ratio::whole_part(bytes as nat, 1), unit))
}

/// A size as the user reads it.
pub open spec fn size_text(bytes: u64) -> Seq<char> {
    if bytes >= 1_000_000_000 {
        in_units(bytes, 1_000_000_000) + " GB"@
    } else if bytes >= 1_000_000 {
        in_units(bytes, 1_000_000) + " MB"@
    } else if bytes >= 1_000 {
        in_units(bytes, 1_000) + " KB"@
    } else {
        text::decimal_text(bytes as nat) + " B"@
    }
}

fn one_decimal_of(tenths: u128) -> (r: String)
    requires
        tenths <= u64::MAX,
    ensures
        r@ == one_decimal(tenths as nat),
{
    let t: u64 = tenths as u64;
    text::cat3(text::decimal(t / 10).as_str(), ".", text::decimal(t % 10).as_str())
}

fn units(bytes: u64, unit: u64) -> (r: String)
    requires
        unit >= 1000,
        bytes <= 20_000_000_000 * unit,
    ensures
        r@ == in_units(bytes, unit as nat),
{
    let size: u128 = ratio::whole(bytes as u128, 1);
    proof {
        assert(size < unit * ratio::BITS_53) by (nonlinear_arith)
            requires
                unit >= 1000,
                size <= bytes + 2 * ratio::BITS_53,
                bytes <= 20_000_000_000 * unit,
                ratio::BITS_53 == 0x20_0000_0000_0000,
        ;
    }
    one_decimal_of(ratio::tenths(size, unit as u128))
}

/// A size as the user reads it.
pub fn format_bytes(bytes: u64) -> (r: String)
    ensures
        r@ == size_text(bytes),
{
    if bytes >= 1_000_000_000 {
        text::cat(units(bytes, 1_000_000_000).as_str(), " GB")
    } else if bytes >= 1_000_000 {
        text::cat(units(bytes, 1_000_000).as_str(), " MB")
    } else if bytes >= 1_000 {
        text::cat(units(bytes, 1_000).as_str(), " KB")
    } else {
        text::cat(text::decimal(bytes).as_str(), " B")
    }
}

/// A time as the user reads it.
pub open spec fn duration_text(seconds: u64) -> Seq<char> {
    if seconds >= 3600 {
        text::decimal_text((seconds / 3600) as nat) + "h"@ + text::decimal_text(
            ((seconds % 3600) / 60) as nat,
        ) + "m"@
    } else if seconds >= 60 {
        text::decimal_text((seconds / 60) as nat) + "m"@ + text::decimal_text(
            (seconds % 60) as nat,
        ) + "s"@
    } else {
        text::decimal_text(seconds as nat) + "s"@
    }
}

/// A time as the user reads it.
pub fn format_duration(seconds: u64) -> (r: String)
    ensures
        r@ == duration_text(seconds),
{
    if seconds >= 3600 {
        text::cat4(
            text::decimal(seconds / 3600).as_str(),
            "h",
            text::decimal((seconds % 3600) / 60).as_str(),
            "m",
        )
    } else if seconds >= 60 {
        text::cat4(
            text::decimal(seconds / 60).as_str(),
            "m",
            text::decimal(seconds % 60).as_str(),
            "s",
        )
    } else {
        text::cat(text::decimal(seconds).as_str(), "s")
    }
}

/// A size is shown in the largest unit that it fills, of a thousand each, and off by less than a
/// tenth and a half of that unit; below a thousand bytes it is shown exactly.
pub proof fn lemma_sizes_are_shown(bytes: u64, r: String)
    requires
        bytes < ratio::BITS_53,
        call_ensures(format_bytes, (bytes,), r),
    ensures
        bytes < 1_000 ==> r@ == text::decimal_text(bytes as nat) + " B"@,
        1_000 <= bytes < 1_000_000 ==> exists|t: nat|
            r@ == #[trigger] one_decimal(t) + " KB"@ && t * 1_000 <= 10 * bytes + 1_000 && 10
                * bytes <= t * 1_000 + 1_000,
        1_000_000 <= bytes < 1_000_000_000 ==> exists|t: nat|
            r@ == #[trigger] one_decimal(t) + " MB"@ && t * 1_000_000 <= 10 * bytes + 1_000_000 && 10
                * bytes <= t * 1_000_000 + 1_000_000,
        1_000_000_000 <= bytes ==> exists|t: nat|
            r@ == #[trigger] one_decimal(t) + " GB"@ && t * 1_000_000_000 <= 10 * bytes
                + 1_000_000_000 && 10 * bytes <= t * 1_000_000_000 + 1_000_000_000,
{
    ratio::lemma_whole_numbers_are_exact(bytes as nat, 1);
    let n = ratio::whole_part(bytes as nat, 1);
    assert(n == bytes);
    if bytes >= 1_000_000_000 {
        ratio::lemma_tenths_are_near(n, 1_000_000_000);
        assert(r@ == one_decimal(ratio::in_tenths(n, 1_000_000_000)) + " GB"@);
    } else if bytes >= 1_000_000 {
        ratio::lemma_tenths_are_near(n, 1_000_000);
        assert(r@ == one_decimal(ratio::in_tenths(n, 1_000_000)) + " MB"@);
    } else if bytes >= 1_000 {
        ratio::lemma_tenths_are_near(n, 1_000);
        assert(r@ == one_decimal(ratio::in_tenths(n, 1_000)) + " KB"@);
    }
}

/// Tenths are shown as a number with one digit behind the point.
pub proof fn lemma_tenths_are_shown(t: nat)
    ensures
        exists|a: Seq<char>, b: Seq<char>|
            one_decimal(t) == #[trigger] (a + "."@ + b) && b.len() == 1 && text::digits_number(a, 10)
                * 10 + text::digits_number(b, 10) == t,
{
    let a = text::decimal_text(t / 10);
    let b = text::decimal_text(t % 10);
    text::lemma_number_is_written(t / 10, 10);
    text::lemma_number_is_written(t % 10, 10);
    assert(one_decimal(t) == a + "."@ + b);
}

/// A time is shown in hours and minutes, in minutes and seconds, or in seconds, with no more than 59
/// of the smaller one, and nothing is lost but what is smaller than what is shown.
pub proof fn lemma_times_are_shown(seconds: u64, r: String)
    requires
        call_ensures(format_duration, (seconds,), r),
    ensures
        seconds < 60 ==> r@ == text::decimal_text(seconds as nat) + "s"@,
        60 <= seconds < 3600 ==> exists|m: nat, s: nat|
            r@ == #[trigger] (text::decimal_text(m) + "m"@ + text::decimal_text(s) + "s"@) && s < 60
                && 60 * m + s == seconds,
        seconds >= 3600 ==> exists|h: nat, m: nat|
            r@ == #[trigger] (text::decimal_text(h) + "h"@ + text::decimal_text(m) + "m"@) && m < 60
                && 3600 * h + 60 * m <= seconds < 3600 * h + 60 * m + 60,
{
    if seconds >= 3600 {
        let h = (seconds / 3600) as nat;
        let m = ((seconds % 3600) / 60) as nat;
        assert(r@ == text::decimal_text(h) + "h"@ + text::decimal_text(m) + "m"@);
    } else if seconds >= 60 {
        let m = (seconds / 60) as nat;
        let s = (seconds % 60) as nat;
        assert(r@ == text::decimal_text(m) + "m"@ + text::decimal_text(s) + "s"@);
    }
}

/// The speed and the total that are given are those of the calls that were made.
pub proof fn lemma_speed_is_given(
    s: &mut SpeedTracker,
    now: u64,
    r: u64,
    start: u64,
    calls: Seq<Arrival>,
    a: &mut SpeedTracker,
    bytes: u64,
)
    requires
        in_order(start, calls),
        bytes_of(calls) + bytes <= u64::MAX,
        start <= now,
        calls.len() > 0 ==> calls.last().time <= now,
        old(s).wf(),
        old(a).wf(),
        old(s)@ == window_after(start, calls),
        old(a)@ == window_after(start, calls),
        call_ensures(SpeedTracker::speed_bps, (s, now), r),
        call_ensures(SpeedTracker::add_bytes, (a, bytes, now), ()),
    ensures
        r == recent(start, calls, now),
        final(s).total_bytes == bytes_of(calls),
        final(a)@ == window_after(start, calls.push(Arrival { bytes, time: now })),
        final(a).total_bytes == bytes_of(calls) + bytes,
{
    lemma_speed_is_of_the_last_second(start, calls, now);
    assert(calls.push(Arrival { bytes, time: now }).drop_last() =~= calls);
}

/// Time alone brings no bytes and takes none from the total.
pub proof fn lemma_turning_keeps_the_total(w: Window, now: u64)
    requires
        w.buckets.len() == BUCKET_COUNT,
    ensures
        w.at(now).total_bytes == w.total_bytes,
{
    lemma_turned_keeps(w, gone_by(w.last_update, now));
    lemma_turned_keeps(w, BUCKET_COUNT as nat);
}

} // verus!
