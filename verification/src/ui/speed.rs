//! Rolling bytes-per-second tracker.
//!
//! Time since the first byte is split into buckets of fixed width, and the
//! bytes of each are summed. Only the most recent buckets count, so the rate
//! reflects recent throughput rather than the lifetime average.
use vstd::prelude::*;

use crate::time::{nanos_per_sec, since, Moment};

verus! {

/// Width of one bucket in seconds.
pub const BUCKET_SECS: u64 = 15;

/// Number of buckets that count.
pub const NUM_BUCKETS: usize = 20;

/// Total observation window in seconds.
pub const WINDOW_SECS: u64 = 300;

/// Sums bytes over a ring of buckets.
#[derive(Debug)]
pub struct SpeedTracker {
    /// `None` until the first byte is recorded. Buckets and elapsed time are
    /// counted from there: a copy spends its first minutes in discovery, and
    /// the rate of the first real transfer is not to suffer from that.
    first_byte_at: Option<Moment>,
    buckets: [u64; NUM_BUCKETS],
    /// The number of the most recent bucket, counted from `first_byte_at`.
    last_bucket_index: u64,
}

/// What a tracker knows.
#[verifier::ext_equal]
pub struct SpeedState {
    /// When the first byte was recorded, in nanoseconds.
    pub first_byte_at: Option<nat>,
    /// The number of the most recent bucket.
    pub last: nat,
    /// The bytes of the most recent buckets, the newest first.
    pub recent: Seq<u64>,
}

/// The sum of the bytes in the buckets.
pub open spec fn total(buckets: Seq<u64>) -> nat
    decreases buckets.len(),
{
    if buckets.len() == 0 {
        0
    } else {
        total(buckets.drop_last()) + buckets.last() as nat
    }
}

impl SpeedState {
    pub open spec fn start() -> SpeedState {
        SpeedState {
            first_byte_at: None,
            last: 0,
            recent: Seq::new(NUM_BUCKETS as nat, |k: int| 0u64),
        }
    }

    /// The whole seconds from the first byte to `now`.
    pub open spec fn elapsed_secs(self, now: nat) -> nat {
        match self.first_byte_at {
            Some(start) => since(now, start) / nanos_per_sec(),
            None => 0,
        }
    }

    /// The number of the bucket that `now` falls into.
    pub open spec fn bucket_at(self, now: nat) -> nat {
        self.elapsed_secs(now) / (BUCKET_SECS as nat)
    }

    /// The buckets after time has moved on by `steps` of them: as many empty
    /// ones come in front, and as many old ones drop out.
    pub open spec fn shifted(self, steps: nat) -> SpeedState {
        SpeedState {
            first_byte_at: self.first_byte_at,
            last: self.last + steps,
            recent: Seq::new(
                NUM_BUCKETS as nat,
                |k: int|
                    if k < steps {
                        0u64
                    } else {
                        self.recent[k - steps]
                    },
            ),
        }
    }

    /// The buckets as they stand at `now`. They never move back.
    pub open spec fn advanced(self, now: nat) -> SpeedState {
        if self.bucket_at(now) > self.last {
            self.shifted((self.bucket_at(now) - self.last) as nat)
        } else {
            self
        }
    }

    /// The same buckets, with the count begun at `now` at the latest.
    pub open spec fn started(self, now: nat) -> SpeedState {
        SpeedState {
            first_byte_at: Some(
                match self.first_byte_at {
                    Some(start) => start,
                    None => now,
                },
            ),
            last: self.last,
            recent: self.recent,
        }
    }

    /// The buckets with `bytes` more in the most recent one. A bucket that is
    /// full stays full.
    pub open spec fn filled(self, bytes: nat) -> SpeedState {
        let sum = self.recent[0] + bytes;
        SpeedState {
            first_byte_at: self.first_byte_at,
            last: self.last,
            recent: self.recent.update(
                0,
                if sum > u64::MAX {
                    u64::MAX
                } else {
                    sum as u64
                },
            ),
        }
    }

    /// The buckets after `bytes` more have been recorded at `now`. The first
    /// byte sets the start of the count; no bytes do not.
    pub open spec fn recorded(self, bytes: nat, now: nat) -> SpeedState {
        if self.first_byte_at is None && bytes == 0 {
            self
        } else {
            self.started(now).advanced(now).filled(bytes)
        }
    }

    /// The seconds that the rate at `now` is an average over: those since
    /// the first byte, one at least, the whole window at most.
    pub open spec fn divisor(self, now: nat) -> nat {
        let elapsed = self.elapsed_secs(now);
        if elapsed < 1 {
            1
        } else if elapsed > WINDOW_SECS {
            WINDOW_SECS as nat
        } else {
            elapsed
        }
    }

    /// The rate at `now`, in bytes per second.
    pub open spec fn rate(self, now: nat) -> Option<nat> {
        if self.first_byte_at is Some {
            Some(total(self.advanced(now).recent) / self.divisor(now))
        } else {
            None
        }
    }
}

/// Where the ring keeps the bucket that is `k` before the last one.
spec fn slot(last: nat, k: int) -> int {
    (last + NUM_BUCKETS - k) % (NUM_BUCKETS as int)
}

proof fn lemma_slots_differ(last: nat, j: int, k: int)
    requires
        0 <= j < NUM_BUCKETS,
        0 <= k < NUM_BUCKETS,
        j != k,
    ensures
        slot(last, j) != slot(last, k),
        0 <= slot(last, j) < NUM_BUCKETS,
{
}

proof fn lemma_next_slot(last: nat, k: int)
    requires
        0 <= k < NUM_BUCKETS,
    ensures
        slot(last + 1, 0) == (last + 1) % (NUM_BUCKETS as nat),
        k > 0 ==> slot(last + 1, k) == slot(last, k - 1),
{
}

/// Shifting by one more bucket.
proof fn lemma_shift_once_more(state: SpeedState, steps: nat)
    requires
        state.recent.len() == NUM_BUCKETS,
    ensures
        state.shifted(steps).shifted(1) == state.shifted(steps + 1),
{
    assert(state.shifted(steps).shifted(1).recent =~= state.shifted(steps + 1).recent);
}

/// The total falls or stays when buckets drop out.
pub proof fn lemma_total_of_shifted(state: SpeedState, steps: nat)
    requires
        state.recent.len() == NUM_BUCKETS,
    ensures
        total(state.shifted(steps).recent) <= total(state.recent),
    decreases steps,
{
    if steps == 0 {
        assert(state.shifted(0).recent =~= state.recent);
    } else {
        let before = (steps - 1) as nat;
        lemma_total_of_shifted(state, before);
        lemma_shift_once_more(state, before);
        let r = state.shifted(before).recent;
        assert(state.shifted(steps).recent =~= seq![0u64] + r.drop_last());
        lemma_total_of_concat(seq![0u64], r.drop_last());
        lemma_total_of_zeros(1);
        assert(seq![0u64] =~= Seq::new(1, |k: int| 0u64));
    }
}

pub proof fn lemma_total_of_concat(a: Seq<u64>, b: Seq<u64>)
    ensures
        total(a + b) == total(a) + total(b),
    decreases b.len(),
{
    if b.len() == 0 {
        assert(a + b =~= a);
    } else {
        assert((a + b).drop_last() =~= a + b.drop_last());
        lemma_total_of_concat(a, b.drop_last());
    }
}

proof fn lemma_total_of_update(s: Seq<u64>, i: int, x: u64)
    requires
        0 <= i < s.len(),
    ensures
        total(s.update(i, x)) == total(s) - s[i] + x,
    decreases s.len(),
{
    if i == s.len() - 1 {
        assert(s.update(i, x).drop_last() =~= s.drop_last());
    } else {
        assert(s.update(i, x).drop_last() =~= s.drop_last().update(i, x));
        lemma_total_of_update(s.drop_last(), i, x);
    }
}

proof fn lemma_total_of_zeros(n: nat)
    ensures
        total(Seq::new(n, |k: int| 0u64)) == 0,
    decreases n,
{
    let z = Seq::new(n, |k: int| 0u64);
    if n > 0 {
        assert(z.drop_last() =~= Seq::new((n - 1) as nat, |k: int| 0u64));
        lemma_total_of_zeros((n - 1) as nat);
    }
}

/// Recording adds at most the bytes that are recorded.
pub proof fn lemma_total_of_recorded(state: SpeedState, bytes: nat, now: nat)
    requires
        state.recent.len() == NUM_BUCKETS,
    ensures
        total(state.recorded(bytes, now).recent) <= total(state.recent) + bytes,
        state.recorded(bytes, now).recent.len() == NUM_BUCKETS,
{
    if state.first_byte_at is Some || bytes > 0 {
        let started = state.started(now);
        if started.bucket_at(now) > started.last {
            lemma_total_of_shifted(started, (started.bucket_at(now) - started.last) as nat);
        }
        let at = started.advanced(now);
        let filled = at.filled(bytes);
        lemma_total_of_update(at.recent, 0, filled.recent[0]);
    }
}

/// At the start no bytes count.
pub proof fn lemma_start_is_empty()
    ensures
        total(SpeedState::start().recent) == 0,
{
    lemma_total_of_zeros(NUM_BUCKETS as nat);
}

/// Before the first byte there is no rate.
pub proof fn no_rate_before_the_first_byte(now: nat)
    ensures
        SpeedState::start().rate(now) is None,
{
}

/// After the first byte there is always a rate, and after a quiet time as
/// long as the window and the bucket in progress it is zero.
pub proof fn rate_falls_to_zero_when_nothing_comes(state: SpeedState, now: nat)
    requires
        state.first_byte_at is Some,
        state.recent.len() == NUM_BUCKETS,
        state.elapsed_secs(now) >= state.last * BUCKET_SECS + WINDOW_SECS,
    ensures
        state.rate(now) == Some(0nat),
{
    let steps = (state.bucket_at(now) - state.last) as nat;
    assert(steps >= NUM_BUCKETS) by (nonlinear_arith)
        requires
            state.bucket_at(now) == state.elapsed_secs(now) / (BUCKET_SECS as nat),
            state.elapsed_secs(now) >= state.last * BUCKET_SECS + WINDOW_SECS,
            steps == state.bucket_at(now) - state.last,
            BUCKET_SECS == 15,
            WINDOW_SECS == 300,
            NUM_BUCKETS == 20,
    ;
    lemma_total_of_zeros(NUM_BUCKETS as nat);
    assert(state.shifted(steps).recent =~= Seq::new(NUM_BUCKETS as nat, |k: int| 0u64));
}

/// Bytes recorded at the first moment give that many bytes per second for
/// the whole first second, however long nothing was recorded before.
pub proof fn first_rate_counts_from_the_first_byte(bytes: u64, first: nat, now: nat)
    requires
        bytes > 0,
        since(now, first) < 2 * nanos_per_sec(),
    ensures
        SpeedState::start().recorded(bytes as nat, first).rate(now) == Some(bytes as nat),
{
    let state = SpeedState::start().recorded(bytes as nat, first);
    let zeros = Seq::new(NUM_BUCKETS as nat, |k: int| 0u64);
    assert(state.first_byte_at == Some(first));
    assert(state.last == 0);
    assert(state.recent =~= zeros.update(0, bytes));
    lemma_total_of_zeros(NUM_BUCKETS as nat);
    lemma_total_of_update(zeros, 0, bytes);
    assert(state.elapsed_secs(now) <= 1);
    assert(state.bucket_at(now) == 0);
    assert(state.divisor(now) == 1);
    assert(total(state.recent) / 1 == total(state.recent));
}

/// A tracker always knows all the buckets that count.
pub proof fn tracker_has_all_buckets(tracker: SpeedTracker)
    ensures
        tracker@.recent.len() == NUM_BUCKETS,
{
}

/// Once a byte has been recorded there is a rate, whatever is recorded or
/// asked later.
pub proof fn rate_stays_known(state: SpeedState, bytes: nat, now: nat, later: nat)
    requires
        state.first_byte_at is Some,
    ensures
        state.rate(later) is Some,
        state.recorded(bytes, now).first_byte_at == state.first_byte_at,
        state.advanced(now).first_byte_at == state.first_byte_at,
{
}

/// Two records at one moment are one record of their sum. From then on there
/// is a rate.
pub proof fn records_at_one_moment_add_up(state: SpeedState, a: u64, b: u64, now: nat)
    requires
        state.recent.len() == NUM_BUCKETS,
        a > 0,
    ensures
        state.recorded(a as nat, now).recorded(b as nat, now) == state.recorded(
            if a + b > u64::MAX {
                u64::MAX as nat
            } else {
                (a + b) as nat
            },
            now,
        ),
        state.recorded(a as nat, now).first_byte_at is Some,
{
    let at = state.started(now).advanced(now);
    let once = at.filled(a as nat);
    let sum: nat = if a + b > u64::MAX {
        u64::MAX as nat
    } else {
        (a + b) as nat
    };
    assert(once.started(now).advanced(now) == once);
    assert(once.filled(b as nat).recent =~= at.filled(sum).recent);
}

// ---------------------------------------------------------------------------
// A whole run
// ---------------------------------------------------------------------------

/// What happens to a tracker.
pub enum SpeedStep {
    /// So many bytes are recorded at a time.
    Record { bytes: u64, at: nat },
    /// The rate at a time is asked for.
    Query { at: nat },
}

impl SpeedStep {
    /// When it happens.
    pub open spec fn time(self) -> nat {
        match self {
            SpeedStep::Record { bytes, at } => at,
            SpeedStep::Query { at } => at,
        }
    }

    /// The bytes that it brings.
    pub open spec fn bytes(self) -> nat {
        match self {
            SpeedStep::Record { bytes, at } => bytes as nat,
            SpeedStep::Query { at } => 0,
        }
    }
}

/// The buckets of a new tracker after the steps.
pub open spec fn state_after(steps: Seq<SpeedStep>) -> SpeedState
    decreases steps.len(),
{
    if steps.len() == 0 {
        SpeedState::start()
    } else {
        let before = state_after(steps.drop_last());
        match steps.last() {
            SpeedStep::Record { bytes, at } => before.recorded(bytes as nat, at),
            SpeedStep::Query { at } => before.advanced(at),
        }
    }
}

/// Do the steps follow each other in time, and end at `now` at the latest?
pub open spec fn in_time_order(steps: Seq<SpeedStep>, now: nat) -> bool {
    &&& forall|i: int, j: int|
        0 <= i <= j < steps.len() ==> (#[trigger] steps[i]).time() <= (#[trigger] steps[j]).time()
    &&& forall|i: int| 0 <= i < steps.len() ==> (#[trigger] steps[i]).time() <= now
}

/// When the first byte came, if any did.
pub open spec fn first_byte(steps: Seq<SpeedStep>) -> Option<nat>
    decreases steps.len(),
{
    if steps.len() == 0 {
        None
    } else {
        match first_byte(steps.drop_last()) {
            Some(start) => Some(start),
            None => if steps.last().bytes() > 0 {
                Some(steps.last().time())
            } else {
                None
            },
        }
    }
}

/// The number of the bucket that a time falls into, counted from `start`.
pub open spec fn bucket_of(start: nat, time: nat) -> nat {
    since(time, start) / nanos_per_sec() / (BUCKET_SECS as nat)
}

/// All bytes that the steps bring.
pub open spec fn bytes_in(steps: Seq<SpeedStep>) -> nat
    decreases steps.len(),
{
    if steps.len() == 0 {
        0
    } else {
        bytes_in(steps.drop_last()) + steps.last().bytes()
    }
}

/// The bytes whose bucket is still among those that count at `now`.
pub open spec fn bytes_in_window(steps: Seq<SpeedStep>, start: nat, now: nat) -> nat
    decreases steps.len(),
{
    if steps.len() == 0 {
        0
    } else {
        let before = bytes_in_window(steps.drop_last(), start, now);
        if bucket_of(start, steps.last().time()) + NUM_BUCKETS > bucket_of(start, now) {
            before + steps.last().bytes()
        } else {
            before
        }
    }
}

/// The bytes that fall into the bucket with the number.
spec fn bytes_in_bucket(steps: Seq<SpeedStep>, start: nat, bucket: int) -> nat
    decreases steps.len(),
{
    if steps.len() == 0 {
        0
    } else {
        let before = bytes_in_bucket(steps.drop_last(), start, bucket);
        if bucket_of(start, steps.last().time()) == bucket {
            before + steps.last().bytes()
        } else {
            before
        }
    }
}

/// The buckets up to the one with the number, the newest first.
spec fn buckets_up_to(steps: Seq<SpeedStep>, start: nat, newest: int) -> Seq<u64> {
    Seq::new(NUM_BUCKETS as nat, |k: int| bytes_in_bucket(steps, start, newest - k) as u64)
}

proof fn lemma_bytes_in_bucket(steps: Seq<SpeedStep>, start: nat, bucket: int)
    ensures
        bytes_in_bucket(steps, start, bucket) <= bytes_in(steps),
    decreases steps.len(),
{
    if steps.len() > 0 {
        lemma_bytes_in_bucket(steps.drop_last(), start, bucket);
    }
}

proof fn lemma_later_bucket(start: nat, a: nat, b: nat)
    requires
        a <= b,
    ensures
        bucket_of(start, a) <= bucket_of(start, b),
{
    vstd::arithmetic::div_mod::lemma_div_is_ordered(
        since(a, start) as int,
        since(b, start) as int,
        nanos_per_sec() as int,
    );
    vstd::arithmetic::div_mod::lemma_div_is_ordered(
        (since(a, start) / nanos_per_sec()) as int,
        (since(b, start) / nanos_per_sec()) as int,
        BUCKET_SECS as int,
    );
}

/// Nothing is in a bucket that no step has come to.
proof fn lemma_bucket_ahead_is_empty(steps: Seq<SpeedStep>, start: nat, now: nat, bucket: int)
    requires
        in_time_order(steps, now),
        bucket > bucket_of(start, now),
    ensures
        bytes_in_bucket(steps, start, bucket) == 0,
    decreases steps.len(),
{
    if steps.len() > 0 {
        let init = steps.drop_last();
        assert(forall|i: int| 0 <= i < init.len() ==> init[i] == steps[i]);
        lemma_bucket_ahead_is_empty(init, start, now, bucket);
        lemma_later_bucket(start, steps[steps.len() - 1].time(), now);
    }
}

/// Without a first byte there are no bytes.
proof fn lemma_no_bytes(steps: Seq<SpeedStep>)
    requires
        first_byte(steps) is None,
    ensures
        bytes_in(steps) == 0,
        state_after(steps) == SpeedState::start(),
    decreases steps.len(),
{
    if steps.len() > 0 {
        lemma_no_bytes(steps.drop_last());
    }
}

/// The buckets of a tracker hold the bytes of the steps that fall into them.
proof fn lemma_buckets_hold_the_bytes(steps: Seq<SpeedStep>, now: nat)
    requires
        in_time_order(steps, now),
        bytes_in(steps) <= u64::MAX,
        first_byte(steps) is Some,
    ensures
        ({
            let start = first_byte(steps)->0;
            let state = state_after(steps);
            &&& state.first_byte_at == Some(start)
            &&& start <= steps.last().time()
            &&& state.last == bucket_of(start, steps.last().time())
            &&& state.recent == buckets_up_to(steps, start, state.last as int)
        }),
    decreases steps.len(),
{
    let init = steps.drop_last();
    let last = steps.last();
    let time = last.time();
    let start = first_byte(steps)->0;
    let before = state_after(init);
    let state = state_after(steps);
    assert(forall|i: int| 0 <= i < init.len() ==> init[i] == steps[i]);
    assert(last == steps[steps.len() - 1]);
    assert(in_time_order(init, time));
    let newest = bucket_of(start, time) as int;
    if first_byte(init) is None {
        lemma_no_bytes(init);
        assert(start == time);
        assert(newest == 0);
    } else {
        lemma_buckets_hold_the_bytes(init, time);
        assert(init.last() == steps[steps.len() - 2]);
        assert(init.last().time() <= time);
        lemma_later_bucket(start, init.last().time(), time);
        assert(before.bucket_at(time) == newest);
    }
    let at = before.started(time).advanced(time);
    assert(at.first_byte_at == Some(start));
    assert(at.last == newest);
    assert forall|k: int| 0 <= k < NUM_BUCKETS implies #[trigger] at.recent[k] == bytes_in_bucket(
        init,
        start,
        newest - k,
    ) by {
        lemma_bytes_in_bucket(init, start, newest - k);
        if first_byte(init) is Some {
            let shift = newest - before.last;
            if k < shift {
                assert(in_time_order(init, init.last().time())) by {
                    assert(init.last() == init[init.len() - 1]);
                }
                lemma_bucket_ahead_is_empty(init, start, init.last().time(), newest - k);
            } else {
                assert(before.recent[k - shift] == bytes_in_bucket(init, start, newest - k));
            }
        }
    }
    assert forall|k: int| 0 <= k < NUM_BUCKETS implies #[trigger] state.recent[k]
        == bytes_in_bucket(steps, start, newest - k) by {
        lemma_bytes_in_bucket(steps, start, newest - k);
        assert(at.recent[k] == bytes_in_bucket(init, start, newest - k));
    }
    assert forall|k: int| 0 <= k < NUM_BUCKETS implies #[trigger] state.recent[k]
        == buckets_up_to(steps, start, newest)[k] by {
        lemma_bytes_in_bucket(steps, start, newest - k);
    }
    assert(state.recent =~= buckets_up_to(steps, start, newest));
}

/// The buckets that count hold the bytes that are still in the window.
proof fn lemma_total_of_buckets(steps: Seq<SpeedStep>, start: nat, now: nat)
    requires
        in_time_order(steps, now),
        bytes_in(steps) <= u64::MAX,
    ensures
        total(buckets_up_to(steps, start, bucket_of(start, now) as int)) == bytes_in_window(
            steps,
            start,
            now,
        ),
    decreases steps.len(),
{
    let newest = bucket_of(start, now) as int;
    let all = buckets_up_to(steps, start, newest);
    if steps.len() == 0 {
        lemma_total_of_zeros(NUM_BUCKETS as nat);
        assert(all =~= Seq::new(NUM_BUCKETS as nat, |k: int| 0u64));
    } else {
        let init = steps.drop_last();
        let last = steps.last();
        assert(forall|i: int| 0 <= i < init.len() ==> init[i] == steps[i]);
        assert(last == steps[steps.len() - 1]);
        lemma_total_of_buckets(init, start, now);
        lemma_later_bucket(start, last.time(), now);
        let old_all = buckets_up_to(init, start, newest);
        let k = newest - bucket_of(start, last.time());
        assert forall|i: int| 0 <= i < NUM_BUCKETS implies #[trigger] all[i] == if i == k {
            old_all[i] + last.bytes()
        } else {
            old_all[i] as int
        } by {
            lemma_bytes_in_bucket(init, start, newest - i);
            lemma_bytes_in_bucket(steps, start, newest - i);
        }
        if k < NUM_BUCKETS {
            assert(all =~= old_all.update(k, all[k]));
            lemma_total_of_update(old_all, k, all[k]);
        } else {
            assert(all =~= old_all);
        }
    }
}

/// The buckets never hold more than was recorded, so the rate can be asked for
/// as long as all bytes together can be counted.
pub proof fn buckets_hold_no_more_than_came(steps: Seq<SpeedStep>)
    ensures
        state_after(steps).recent.len() == NUM_BUCKETS,
        total(state_after(steps).recent) <= bytes_in(steps),
    decreases steps.len(),
{
    if steps.len() == 0 {
        lemma_start_is_empty();
    } else {
        let before = state_after(steps.drop_last());
        buckets_hold_no_more_than_came(steps.drop_last());
        match steps.last() {
            SpeedStep::Record { bytes, at } => {
                lemma_total_of_recorded(before, bytes as nat, at);
            },
            SpeedStep::Query { at } => {
                if before.bucket_at(at) > before.last {
                    lemma_total_of_shifted(before, (before.bucket_at(at) - before.last) as nat);
                }
            },
        }
    }
}

/// The rate over a whole run: the bytes of the buckets that still count, over
/// the seconds since the first byte, one at least and the window at most.
/// What came before the first byte does not matter, nor does what was asked
/// in between.
pub proof fn rate_is_what_the_window_holds(steps: Seq<SpeedStep>, now: nat)
    requires
        in_time_order(steps, now),
        bytes_in(steps) <= u64::MAX,
    ensures
        state_after(steps).rate(now) == match first_byte(steps) {
            None => None,
            Some(start) => {
                let secs = since(now, start) / nanos_per_sec();
                let window = if secs < 1 {
                    1
                } else if secs > WINDOW_SECS {
                    WINDOW_SECS as nat
                } else {
                    secs
                };
                Some(bytes_in_window(steps, start, now) / window)
            },
        },
{
    if first_byte(steps) is None {
        lemma_no_bytes(steps);
    } else {
        let start = first_byte(steps)->0;
        let state = state_after(steps);
        lemma_buckets_hold_the_bytes(steps, now);
        let newest = bucket_of(start, now) as int;
        let time = steps.last().time();
        assert(steps.last() == steps[steps.len() - 1]);
        lemma_later_bucket(start, time, now);
        let want = buckets_up_to(steps, start, newest);
        let at = state.advanced(now);
        let shift = newest - state.last;
        assert(in_time_order(steps, time));
        assert forall|k: int| 0 <= k < NUM_BUCKETS implies #[trigger] at.recent[k] == want[k] by {
            lemma_bytes_in_bucket(steps, start, newest - k);
            if k < shift {
                lemma_bucket_ahead_is_empty(steps, start, time, newest - k);
            } else {
                assert(state.recent[k - shift] == bytes_in_bucket(steps, start, newest - k) as u64);
            }
        }
        assert(at.recent =~= want);
        lemma_total_of_buckets(steps, start, now);
    }
}

impl View for SpeedTracker {
    type V = SpeedState;

    closed spec fn view(&self) -> SpeedState {
        SpeedState {
            first_byte_at: match self.first_byte_at {
                Some(start) => Some(start@),
                None => None,
            },
            last: self.last_bucket_index as nat,
            recent: Seq::new(
                NUM_BUCKETS as nat,
                |k: int| self.buckets@[slot(self.last_bucket_index as nat, k)],
            ),
        }
    }
}

impl SpeedTracker {
    pub fn new() -> (r: SpeedTracker)
        ensures
            r@ == SpeedState::start(),
    {
        let r = SpeedTracker { first_byte_at: None, buckets: [0;NUM_BUCKETS], last_bucket_index: 0 };
        proof {
            assert forall|k: int| 0 <= k < NUM_BUCKETS implies r@.recent[k] == 0 by {
                assert(0 <= slot(0, k) < NUM_BUCKETS);
            }
            assert(r@.recent =~= SpeedState::start().recent);
        }
        r
    }

    /// Adds `bytes` to the bucket that contains `now`. The count begins with
    /// the first byte.
    pub fn record(&mut self, bytes: u64, now: Moment)
        ensures
            final(self)@ == old(self)@.recorded(bytes as nat, now@),
    {
        let start = match self.first_byte_at {
            Some(start) => start,
            None => if bytes == 0 {
                return;
            } else {
                now
            },
        };
        self.first_byte_at = Some(start);
        self.advance_to(now, start);
        let idx: usize = (self.last_bucket_index % NUM_BUCKETS as u64) as usize;
        let ghost at = self@;
        let sum: u64 = self.buckets[idx].saturating_add(bytes);
        self.buckets[idx] = sum;
        proof {
            let last = self.last_bucket_index as nat;
            assert(slot(last, 0) == idx);
            assert forall|k: int| 0 < k < NUM_BUCKETS implies #[trigger] self@.recent[k]
                == at.recent[k] by {
                lemma_slots_differ(last, 0, k);
                lemma_slots_differ(last, k, 0);
            }
            assert(self@.recent =~= at.recent.update(0, sum));
        }
    }

    /// The average over the buckets that count, in bytes per second. `None`
    /// until the first byte: not having started is not the same as standing
    /// still, which is a rate of zero.
    pub fn bytes_per_sec(&mut self, now: Moment) -> (r: Option<u64>)
        requires
            total(old(self)@.recent) <= u64::MAX,
        ensures
            match r {
                Some(rate) => old(self)@.rate(now@) == Some(rate as nat),
                None => old(self)@.rate(now@) is None,
            },
            final(self)@ == old(self)@.advanced(now@),
    {
        let start = match self.first_byte_at {
            Some(start) => start,
            None => return None,
        };
        self.advance_to(now, start);
        let elapsed: u64 = now.saturating_since(start).as_secs();
        let elapsed: u64 = if elapsed < 1 {
            1
        } else {
            elapsed
        };
        let window: u64 = if elapsed < WINDOW_SECS {
            elapsed
        } else {
            WINDOW_SECS
        };
        proof {
            let before = old(self)@;
            if before.bucket_at(now@) > before.last {
                lemma_total_of_shifted(before, (before.bucket_at(now@) - before.last) as nat);
            }
        }
        let sum = self.sum();
        Some(sum / window)
    }

    /// The sum of all buckets.
    fn sum(&self) -> (r: u64)
        requires
            total(self@.recent) <= u64::MAX,
        ensures
            r == total(self@.recent),
    {
        let mut sum: u64 = 0;
        let mut k: usize = 0;
        let last: u64 = self.last_bucket_index % NUM_BUCKETS as u64;
        proof {
            assert(self@.recent.take(0) =~= Seq::<u64>::empty());
        }
        while k < NUM_BUCKETS
            invariant
                k <= NUM_BUCKETS,
                last == self.last_bucket_index % NUM_BUCKETS as u64,
                sum == total(self@.recent.take(k as int)),
                total(self@.recent) <= u64::MAX,
            decreases NUM_BUCKETS - k,
        {
            let idx: usize = ((last + NUM_BUCKETS as u64 - k as u64) % NUM_BUCKETS as u64) as usize;
            proof {
                vstd::arithmetic::div_mod::lemma_fundamental_div_mod(
                    self.last_bucket_index as int,
                    NUM_BUCKETS as int,
                );
                vstd::arithmetic::div_mod::lemma_mod_multiples_vanish(
                    self.last_bucket_index as int / NUM_BUCKETS as int,
                    last + NUM_BUCKETS - k,
                    NUM_BUCKETS as int,
                );
                assert(idx == slot(self.last_bucket_index as nat, k as int));
                let recent = self@.recent;
                assert(recent.take(k + 1).drop_last() =~= recent.take(k as int));
                assert(recent.take(k + 1) + recent.skip(k + 1) =~= recent);
                lemma_total_of_concat(recent.take(k + 1), recent.skip(k + 1));
            }
            sum = sum + self.buckets[idx];
            k += 1;
        }
        proof {
            assert(self@.recent.take(k as int) =~= self@.recent);
        }
        sum
    }

    /// Empties the buckets that have been stepped past since the last call,
    /// so that bytes from an earlier lap of the ring do not count again.
    fn advance_to(&mut self, now: Moment, start: Moment)
        requires
            old(self)@.first_byte_at == Some(start@),
        ensures
            final(self)@ == old(self)@.advanced(now@),
    {
        let now_index: u64 = now.saturating_since(start).as_secs() / BUCKET_SECS;
        if now_index <= self.last_bucket_index {
            return;
        }
        let skipped: u64 = now_index - self.last_bucket_index;
        if skipped >= NUM_BUCKETS as u64 {
            self.buckets = [0;NUM_BUCKETS];
            self.last_bucket_index = now_index;
            proof {
                assert forall|k: int| 0 <= k < NUM_BUCKETS implies self@.recent[k] == 0 by {
                    assert(0 <= slot(now_index as nat, k) < NUM_BUCKETS);
                }
                assert(self@.recent =~= old(self)@.shifted(skipped as nat).recent);
            }
        } else {
            let ghost before = self@;
            let mut step: u64 = 0;
            proof {
                assert(before.shifted(0).recent =~= before.recent);
            }
            while step < skipped
                invariant
                    step <= skipped,
                    skipped < NUM_BUCKETS,
                    before.recent.len() == NUM_BUCKETS,
                    before.last + skipped == now_index,
                    self@ == before.shifted(step as nat),
                decreases skipped - step,
            {
                let ghost at = self@;
                let next: u64 = self.last_bucket_index + 1;
                let idx: usize = (next % NUM_BUCKETS as u64) as usize;
                self.buckets[idx] = 0;
                self.last_bucket_index = next;
                proof {
                    lemma_shift_once_more(before, step as nat);
                    assert forall|k: int| 0 <= k < NUM_BUCKETS implies #[trigger] self@.recent[k]
                        == at.shifted(1).recent[k] by {
                        lemma_next_slot(at.last, k);
                        if k > 0 {
                            lemma_slots_differ(at.last + 1, k, 0);
                        }
                    }
                    assert(self@.recent =~= at.shifted(1).recent);
                }
                step += 1;
            }
        }
    }
}

} // verus!
