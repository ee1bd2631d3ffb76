//! A token bucket that caps the bytes sent per second.
use vstd::prelude::*;

verus! {

/// Tokens are counted in thousandths of a byte, so that a refill over any
/// number of milliseconds is exact.
pub const MILLI: u64 = 1000;

/// Largest burst, in bytes, that the bucket can be configured with.
pub const MAX_BURST: u64 = 1_000_000_000_000;

/// A byte budget that fills at `rate` bytes per second up to `burst` bytes.
#[derive(Clone, Copy, Debug)]
pub struct TokenBucket {
    /// Refill rate, in bytes per second.
    pub rate: u64,
    /// Most bytes that can be held.
    pub burst: u64,
    /// Bytes available, in thousandths of a byte.
    pub level: u64,
    /// Time of the last refill, in milliseconds.
    pub last: Option<u64>,
}

/// The level after `elapsed` milliseconds at `rate` bytes per second,
/// capped at `burst` bytes.
pub open spec fn refill_level(level: int, rate: int, burst: int, elapsed: int) -> int {
    if level + rate * elapsed > burst * 1000 {
        burst * 1000
    } else {
        level + rate * elapsed
    }
}

/// Milliseconds since the last refill; none before the first or when the
/// clock went back.
pub open spec fn elapsed_since(last: Option<u64>, now: u64) -> int {
    match last {
        Some(t) => if now >= t {
            now - t
        } else {
            0
        },
        None => 0,
    }
}

impl TokenBucket {
    /// The level never exceeds the burst, which fits in the level's type.
    pub open spec fn wf(&self) -> bool {
        &&& self.burst <= MAX_BURST
        &&& self.level <= self.burst * 1000
    }

    /// The bucket after refilling at time `now`.
    pub open spec fn refilled(self, now: u64) -> TokenBucket {
        TokenBucket {
            level: refill_level(
                self.level as int,
                self.rate as int,
                self.burst as int,
                elapsed_since(self.last, now),
            ) as u64,
            last: Some(now),
            ..self
        }
    }

    /// A full bucket of `burst` bytes refilling at `rate` bytes per second.
    pub fn new(rate: u64, burst: u64) -> (r: TokenBucket)
        requires
            burst <= MAX_BURST,
        ensures
            r.wf(),
            r.rate == rate,
            r.burst == burst,
            r.level == burst * 1000,
            r.last is None,
    {
        TokenBucket { rate, burst, level: burst * MILLI, last: None }
    }

    /// Adds what the rate gives for the time since the last refill, up to the
    /// burst.
    pub fn refill(&mut self, now: u64)
        requires
            old(self).wf(),
        ensures
            final(self).wf(),
            *final(self) == old(self).refilled(now),
    {
        let elapsed: u64 = match self.last {
            Some(t) => if now >= t {
                now - t
            } else {
                0
            },
            None => 0,
        };
        let cap: u64 = self.burst * MILLI;
        proof {
            let a = self.rate as int;
            let b = elapsed as int;
            let m = u64::MAX as int;
            assert(a * b <= m * m) by (nonlinear_arith)
                requires 0 <= a <= m, 0 <= b <= m;
            assert(m * m <= u128::MAX);
        }
        let add: u128 = (self.rate as u128) * (elapsed as u128);
        let room: u64 = cap - self.level;
        if add > room as u128 {
            self.level = cap;
        } else {
            self.level = self.level + add as u64;
        }
        self.last = Some(now);
    }

    /// Whether `bytes` bytes are available.
    pub open spec fn affords(self, bytes: nat) -> bool {
        bytes * 1000 <= self.level
    }

    /// Takes `bytes` bytes out if they are available, and says whether it
    /// did.
    pub fn try_take(&mut self, bytes: usize) -> (r: bool)
        requires
            old(self).wf(),
        ensures
            final(self).wf(),
            r == old(self).affords(bytes as nat),
            r ==> final(self).level == old(self).level - bytes * 1000,
            !r ==> final(self).level == old(self).level,
            final(self).rate == old(self).rate,
            final(self).burst == old(self).burst,
            final(self).last == old(self).last,
    {
        if bytes as u64 > self.level / MILLI {
            proof {
                assert(bytes * 1000 > self.level) by (nonlinear_arith)
                    requires bytes > self.level / 1000;
            }
            false
        } else {
            proof {
                assert(bytes * 1000 <= self.level) by (nonlinear_arith)
                    requires bytes <= self.level / 1000;
            }
            self.level = self.level - bytes as u64 * MILLI;
            true
        }
    }
}

/// The bucket after a flush at `now` that sent `sent` bytes: refilled, then
/// paid from.
pub open spec fn bucket_step(b: TokenBucket, now: u64, sent: nat) -> TokenBucket {
    let r = b.refilled(now);
    TokenBucket { level: (r.level - sent * 1000) as u64, ..r }
}

/// The bucket after the flushes `steps`, each a time and the bytes sent.
pub open spec fn run(b: TokenBucket, steps: Seq<(u64, nat)>) -> TokenBucket
    decreases steps.len(),
{
    if steps.len() == 0 {
        b
    } else {
        bucket_step(run(b, steps.drop_last()), steps.last().0, steps.last().1)
    }
}

/// Every flush of `steps` sent no more than the bucket held after its
/// refill.
pub open spec fn run_paid(b: TokenBucket, steps: Seq<(u64, nat)>) -> bool
    decreases steps.len(),
{
    if steps.len() == 0 {
        true
    } else {
        run_paid(b, steps.drop_last()) && steps.last().1 * 1000 <= run(
            b,
            steps.drop_last(),
        ).refilled(steps.last().0).level
    }
}

/// Bytes sent over all of `steps`.
pub open spec fn total_sent(steps: Seq<(u64, nat)>) -> nat
    decreases steps.len(),
{
    if steps.len() == 0 {
        0
    } else {
        total_sent(steps.drop_last()) + steps.last().1
    }
}

/// The times of `steps` never go back, and none is before `start`.
pub open spec fn times_from(steps: Seq<(u64, nat)>, start: u64) -> bool {
    &&& forall|i: int| 0 <= i < steps.len() ==> start <= #[trigger] steps[i].0
    &&& forall|i: int, j: int| 0 <= i < j < steps.len() ==> steps[i].0 <= steps[j].0
}

proof fn lemma_run_budget(b: TokenBucket, steps: Seq<(u64, nat)>, start: u64)
    requires
        b.wf(),
        run_paid(b, steps),
        times_from(steps, start),
        b.last is None || b.last == Some(start),
    ensures
        run(b, steps).wf(),
        run(b, steps).rate == b.rate,
        run(b, steps).burst == b.burst,
        steps.len() > 0 ==> run(b, steps).last == Some(steps.last().0),
        steps.len() == 0 ==> run(b, steps).last == b.last,
        total_sent(steps) * 1000 + run(b, steps).level <= b.level + b.rate * ((if steps.len() > 0 {
            steps.last().0
        } else {
            start
        }) - start),
    decreases steps.len(),
{
    if steps.len() > 0 {
        let prev = steps.drop_last();
        assert(times_from(prev, start));
        lemma_run_budget(b, prev, start);
        let before = run(b, prev);
        let t_prev: int = if prev.len() > 0 { prev.last().0 as int } else { start as int };
        let now = steps.last().0;
        assert(t_prev <= now) by {
            if prev.len() > 0 {
                assert(steps[prev.len() - 1].0 <= steps[steps.len() - 1].0);
            }
        }
        let el = elapsed_since(before.last, now);
        if prev.len() > 0 {
            assert(el == now - t_prev);
        } else if b.last is Some {
            assert(el == now - start);
        } else {
            assert(el == 0);
        }
        assert(el <= now - t_prev);
        let rate = b.rate as int;
        assert(rate * el <= rate * (now - t_prev)) by (nonlinear_arith)
            requires rate >= 0, el <= now - t_prev;
        assert(rate * (t_prev - start) + rate * (now - t_prev) == rate * (now - start)) by (nonlinear_arith);
        assert(rate * el >= 0) by (nonlinear_arith)
            requires rate >= 0, el >= 0;
    }
}

/// Over any run of flushes between `start` and the last one, the bytes
/// sent are at most the rate times the time elapsed, plus the burst: with
/// times in milliseconds, `1000 * bytes <= rate * ms + 1000 * burst`.
pub proof fn lemma_bandwidth_cap(b: TokenBucket, steps: Seq<(u64, nat)>, start: u64)
    requires
        b.wf(),
        run_paid(b, steps),
        times_from(steps, start),
        b.last is None || b.last == Some(start),
        steps.len() > 0,
    ensures
        total_sent(steps) * 1000 <= b.rate * (steps.last().0 - start) + b.burst * 1000,
{
    lemma_run_budget(b, steps, start);
}

} // verus!
