//! A token bucket that bounds how many packets are relayed per second.

use vstd::prelude::*;
use std::time::Instant;

verus! {

/// `std::time::Instant`, a reading of the monotonic clock.
#[verifier::external_type_specification]
#[verifier::external_body]
pub struct ExInstant(Instant);

/// Calls `Instant::now`. Nothing is said of the time that it gives.
#[verifier::external_body]
fn clock() -> Instant {
    Instant::now()
}

/// Calls `Instant::elapsed`, in nanoseconds. Nothing is said of the time that
/// has passed.
#[verifier::external_body]
fn nanos_since(start: &Instant) -> u128 {
    start.elapsed().as_nanos()
}

/// One token, in the parts that it is counted in: at a rate of `r` tokens per
/// second, every nanosecond brings `r` parts.
pub const TOKEN: u128 = 1_000_000_000;

/// Token-bucket rate limiter bounding how many packets the relay accepts per
/// second. Each accepted packet goes out on every output interface, so without
/// a ceiling a broadcast storm on one input would be amplified.
///
/// The bucket holds up to `burst` tokens and refills at `rate` tokens per
/// second. Each accepted packet takes one token; when there is none left the
/// packet is dropped.
pub struct RateLimiter {
    rate: u32,
    burst: u32,
    parts: u128,
    /// When the limiter was made.
    start: Instant,
    /// When it was last asked, in nanoseconds after `start`.
    last: u128,
}

/// What a [`RateLimiter`] stands for. Times are nanoseconds since it was made.
#[verifier::ext_equal]
pub struct Bucket {
    pub rate: nat,
    pub burst: nat,
    /// What the bucket holds, in parts of a token.
    pub parts: nat,
    /// When it was last refilled.
    pub last: nat,
}

impl Bucket {
    /// The bucket holds no more than `burst` tokens, and has room for one.
    pub open spec fn wf(self) -> bool {
        &&& self.burst >= 1
        &&& self.parts <= self.burst * TOKEN
    }

    /// Nanoseconds from the last refill to `now`.
    pub open spec fn elapsed(self, now: nat) -> nat {
        if now >= self.last {
            (now - self.last) as nat
        } else {
            0
        }
    }

    /// What the bucket holds after a refill at `now`.
    pub open spec fn refilled(self, now: nat) -> nat {
        let full = self.burst * TOKEN as nat;
        let more = self.parts + self.elapsed(now) * self.rate;
        if more <= full {
            more
        } else {
            full
        }
    }

    /// Whether a packet at `now` passes.
    pub open spec fn passes(self, now: nat) -> bool {
        self.refilled(now) >= TOKEN
    }

    /// The bucket after a packet at `now`.
    pub open spec fn after(self, now: nat) -> Bucket {
        Bucket {
            parts: if self.passes(now) {
                (self.refilled(now) - TOKEN) as nat
            } else {
                self.refilled(now)
            },
            last: now,
            ..self
        }
    }
}

/// The full bucket that a limiter starts with.
pub open spec fn new_bucket(rate: u32, burst: u32) -> Bucket {
    let size = if burst == 0 {
        1
    } else {
        burst as nat
    };
    Bucket { rate: rate as nat, burst: size, parts: size * TOKEN as nat, last: 0 }
}

impl View for RateLimiter {
    type V = Bucket;

    closed spec fn view(&self) -> Bucket {
        Bucket {
            rate: self.rate as nat,
            burst: self.burst as nat,
            parts: self.parts as nat,
            last: self.last as nat,
        }
    }
}

impl RateLimiter {
    /// The reading of the clock from which the limiter counts its time.
    pub closed spec fn made_at(&self) -> Instant {
        self.start
    }

    /// A limiter of `rate` packets per second with a burst capacity of `burst`
    /// packets, but at least one: the most that can pass back to back after an
    /// idle period.
    pub fn new(rate: u32, burst: u32) -> (r: RateLimiter)
        ensures
            r@ == new_bucket(rate, burst),
            r@.wf(),
    {
        let burst: u32 = if burst == 0 {
            1
        } else {
            burst
        };
        RateLimiter { rate, burst, parts: burst as u128 * TOKEN, start: clock(), last: 0 }
    }

    /// The limiter that the options ask for. A rate of zero means no limit;
    /// the burst capacity is one second of the rate unless given.
    pub fn from_options(rate_limit: u32, rate_burst: Option<u32>) -> (r: Option<RateLimiter>)
        ensures
            r is None <==> rate_limit == 0,
            r matches Some(limiter) ==> limiter@ == new_bucket(
                rate_limit,
                match rate_burst {
                    Some(burst) => burst,
                    None => rate_limit,
                },
            ),
    {
        if rate_limit == 0 {
            return None;
        }
        let burst: u32 = match rate_burst {
            Some(burst) => burst,
            None => rate_limit,
        };
        Some(RateLimiter::new(rate_limit, burst))
    }

    /// Nanoseconds since the limiter was made. The time never lies before the
    /// one at which the limiter was last asked.
    pub(crate) fn now(&self) -> (r: u128)
        ensures
            r >= self@.last,
    {
        let now: u128 = nanos_since(&self.start);
        if now >= self.last {
            now
        } else {
            self.last
        }
    }

    /// Refills the bucket for the time that has passed, then tries to take one
    /// token. Returns whether the packet is allowed.
    pub fn allow(&mut self) -> (r: bool)
        ensures
            exists|now: nat|
                now >= old(self)@.last && r == old(self)@.passes(now) && final(self)@
                    == #[trigger] old(self)@.after(now),
            old(self)@.wf() ==> final(self)@.wf(),
            final(self).made_at() == old(self).made_at(),
    {
        let now: u128 = self.now();
        self.allow_at(now)
    }

    /// Like [`RateLimiter::allow`], at the time `now`, in nanoseconds since the
    /// limiter was made.
    pub fn allow_at(&mut self, now: u128) -> (r: bool)
        ensures
            r == old(self)@.passes(now as nat),
            final(self)@ == old(self)@.after(now as nat),
            old(self)@.wf() ==> final(self)@.wf(),
            final(self).made_at() == old(self).made_at(),
    {
        let ghost before = self@;
        let elapsed: u128 = if now >= self.last {
            now - self.last
        } else {
            0
        };
        self.last = now;
        let full: u128 = self.burst as u128 * TOKEN;
        let more: Option<u128> = match elapsed.checked_mul(self.rate as u128) {
            Some(gained) => self.parts.checked_add(gained),
            None => None,
        };
        self.parts = match more {
            Some(sum) => if sum <= full {
                sum
            } else {
                full
            },
            None => full,
        };
        proof {
            assert(self.parts == before.refilled(now as nat));
        }
        if self.parts >= TOKEN {
            self.parts = self.parts - TOKEN;
            true
        } else {
            false
        }
    }
}

/// The bucket after packets at the given times.
pub open spec fn bucket_after(b: Bucket, times: Seq<nat>) -> Bucket
    decreases times.len(),
{
    if times.len() == 0 {
        b
    } else {
        bucket_after(b, times.drop_last()).after(times.last())
    }
}

/// How many of the packets at the given times pass.
pub open spec fn passed(b: Bucket, times: Seq<nat>) -> nat
    decreases times.len(),
{
    if times.len() == 0 {
        0
    } else {
        passed(b, times.drop_last()) + if bucket_after(b, times.drop_last()).passes(times.last()) {
            1nat
        } else {
            0
        }
    }
}

/// The bucket never holds more than `burst` tokens, whatever comes in.
pub proof fn bucket_never_overflows(b: Bucket, times: Seq<nat>)
    requires
        b.wf(),
    ensures
        bucket_after(b, times).wf(),
        bucket_after(b, times).burst == b.burst,
        bucket_after(b, times).rate == b.rate,
    decreases times.len(),
{
    if times.len() > 0 {
        bucket_never_overflows(b, times.drop_last());
    }
}

/// The limit holds: of the packets at any times that the clock gives in order,
/// no more pass than the burst and what the rate brings from the first of them
/// to the last.
pub proof fn rate_is_limited(b: Bucket, times: Seq<nat>)
    requires
        b.wf(),
        times.len() > 0,
        forall|i: int, j: int| 0 <= i <= j < times.len() ==> times[i] <= times[j],
    ensures
        passed(b, times) * TOKEN <= b.burst * TOKEN + b.rate * (times.last() - times[0]),
{
    lemma_budget(b, times);
}

/// What has passed and what is left come out of a full bucket and what the
/// rate has brought since the first packet.
proof fn lemma_budget(b: Bucket, times: Seq<nat>)
    requires
        b.wf(),
        times.len() > 0,
        forall|i: int, j: int| 0 <= i <= j < times.len() ==> times[i] <= times[j],
    ensures
        passed(b, times) * TOKEN + bucket_after(b, times).refilled(times.last()) <= b.burst * TOKEN
            + b.rate * (times.last() - times[0]),
    decreases times.len(),
{
    let front = times.drop_last();
    let now = times.last();
    let mid = bucket_after(b, front);
    bucket_never_overflows(b, front);
    if front.len() > 0 {
        assert(front.last() == times[front.len() - 1]);
        assert(front[0] == times[0]);
        lemma_budget(b, front);
        lemma_refill_bounded(mid, front.last(), now);
        assert(b.rate * (now - times[0]) == b.rate * (front.last() - times[0]) + b.rate * (now
            - front.last())) by (nonlinear_arith);
    } else {
        assert(b.rate * (times[0] - times[0]) == 0) by (nonlinear_arith);
    }
    lemma_taken(mid, now);
    let n = passed(b, front);
    assert((n + 1) * TOKEN == n * TOKEN + TOKEN) by (nonlinear_arith);
}

/// Between two times a bucket gains no more than what the rate brings.
pub proof fn lemma_refill_bounded(b: Bucket, from: nat, to: nat)
    requires
        b.wf(),
        from <= to,
    ensures
        b.refilled(to) <= b.refilled(from) + b.rate * (to - from),
{
    let gained = b.elapsed(to) * b.rate;
    let already = b.elapsed(from) * b.rate;
    assert(gained <= already + b.rate * (to - from)) by (nonlinear_arith)
        requires
            b.elapsed(to) <= b.elapsed(from) + (to - from),
            b.rate >= 0,
            gained == b.elapsed(to) * b.rate,
            already == b.elapsed(from) * b.rate,
    ;
    assert(b.rate * (to - from) >= 0) by (nonlinear_arith)
        requires
            b.rate >= 0,
            from <= to,
    ;
}

/// What a packet leaves in a bucket, at the time of the packet.
pub proof fn lemma_taken(b: Bucket, now: nat)
    requires
        b.wf(),
    ensures
        b.after(now).refilled(now) == if b.passes(now) {
            (b.refilled(now) - TOKEN) as nat
        } else {
            b.refilled(now)
        },
{
    let end = b.after(now);
    assert(end.elapsed(now) * end.rate == 0) by (nonlinear_arith)
        requires
            end.elapsed(now) == 0,
    ;
}

/// After an idle period long enough to fill the bucket, as many packets pass
/// back to back as the burst says, and no more.
pub proof fn burst_passes_back_to_back(b: Bucket, now: nat, n: nat)
    requires
        b.wf(),
        b.refilled(now) == b.burst * TOKEN,
    ensures
        passed(b, Seq::new(n, |i: int| now)) == if n <= b.burst {
            n
        } else {
            b.burst
        },
{
    lemma_burst(b, now, n);
}

/// The packets that pass back to back and the tokens that they leave.
proof fn lemma_burst(b: Bucket, now: nat, n: nat)
    requires
        b.wf(),
        b.refilled(now) == b.burst * TOKEN,
    ensures
        ({
            let times = Seq::new(n, |i: int| now);
            let count = if n <= b.burst {
                n
            } else {
                b.burst
            };
            &&& passed(b, times) == count
            &&& bucket_after(b, times).burst == b.burst
            &&& n > 0 ==> bucket_after(b, times).last == now
            &&& n > 0 ==> bucket_after(b, times).parts == (b.burst - count) * TOKEN
        }),
    decreases n,
{
    let times = Seq::new(n, |i: int| now);
    if n > 0 {
        let front = Seq::new((n - 1) as nat, |i: int| now);
        assert(times.drop_last() =~= front);
        lemma_burst(b, now, (n - 1) as nat);
        let mid = bucket_after(b, front);
        let k = if n - 1 <= b.burst {
            (n - 1) as nat
        } else {
            b.burst
        };
        assert(mid.refilled(now) == (b.burst - k) * TOKEN) by {
            if n == 1 {
                assert(front =~= Seq::<nat>::empty());
                assert(mid == b);
            } else {
                assert(mid.elapsed(now) == 0);
                assert(mid.elapsed(now) * mid.rate == 0) by (nonlinear_arith)
                    requires
                        mid.elapsed(now) == 0,
                ;
                assert((b.burst - k) * TOKEN <= b.burst * TOKEN) by (nonlinear_arith)
                    requires
                        k >= 0,
                ;
            }
        }
        if k < b.burst {
            assert((b.burst - k) * TOKEN >= TOKEN) by (nonlinear_arith)
                requires
                    k < b.burst,
            ;
            assert((b.burst - k) * TOKEN - TOKEN == (b.burst - (k + 1)) * TOKEN)
                by (nonlinear_arith);
        } else {
            assert((b.burst - k) * TOKEN == 0) by (nonlinear_arith)
                requires
                    k == b.burst,
            ;
        }
    }
}

/// What one packet does to the bucket: the time since the last refill brings
/// `rate` billionths of a token per nanosecond, up to `burst` tokens, and a time
/// before it brings nothing; a packet passes if that makes a token, and takes it.
pub proof fn tokens_come_with_time(b: Bucket, now: nat)
    requires
        b.wf(),
    ensures
        ({
            let earned = b.parts + if now >= b.last {
                (now - b.last) * b.rate
            } else {
                0
            };
            let most = b.burst * 1_000_000_000int;
            let end = b.after(now);
            &&& b.passes(now) <==> earned >= 1_000_000_000
            &&& end.rate == b.rate
            &&& end.burst == b.burst
            &&& end.last == now
            &&& end.parts == (if earned <= most {
                earned
            } else {
                most
            }) - (if b.passes(now) {
                1_000_000_000int
            } else {
                0
            })
        }),
{
    if now < b.last {
        assert(b.elapsed(now) * b.rate == 0) by (nonlinear_arith)
            requires
                b.elapsed(now) == 0,
        ;
    }
}

/// However empty the bucket is, after enough idle time for the rate to bring
/// `burst` tokens, as many packets pass back to back as the burst says, and no
/// more.
pub proof fn idle_time_fills_the_bucket(b: Bucket, now: nat, n: nat)
    requires
        b.wf(),
        b.last <= now,
        (now - b.last) * b.rate >= b.burst * 1_000_000_000,
    ensures
        passed(b, Seq::new(n, |i: int| now)) == if n <= b.burst {
            n
        } else {
            b.burst
        },
{
    assert(b.elapsed(now) * b.rate == (now - b.last) * b.rate);
    burst_passes_back_to_back(b, now, n);
}

/// A limiter starts full: at once as many packets pass as the burst says, but
/// at least one, and no more; then the rate brings them.
pub proof fn new_limiters_start_full(rate: u32, burst: u32, n: nat)
    ensures
        new_bucket(rate, burst).wf(),
        new_bucket(rate, burst).rate == rate,
        new_bucket(rate, burst).last == 0,
        burst > 0 ==> new_bucket(rate, burst).burst == burst,
        burst == 0 ==> new_bucket(rate, burst).burst == 1,
        passed(new_bucket(rate, burst), Seq::new(n, |i: int| 0nat)) == if n
            <= new_bucket(rate, burst).burst {
            n
        } else {
            new_bucket(rate, burst).burst
        },
{
    let b = new_bucket(rate, burst);
    assert(b.elapsed(0) * b.rate == 0) by (nonlinear_arith)
        requires
            b.elapsed(0) == 0,
    ;
    burst_passes_back_to_back(b, 0, n);
}

/// A packet that is dropped makes no difference to those after it.
pub proof fn dropped_packets_take_nothing(b: Bucket, now: nat, later: nat)
    requires
        b.wf(),
        b.last <= now <= later,
        !b.passes(now),
    ensures
        b.after(now).passes(later) == b.passes(later),
        b.after(now).after(later) == b.after(later),
{
    let mid = b.after(now);
    let full = b.burst * TOKEN as nat;
    assert(full >= TOKEN) by (nonlinear_arith)
        requires
            full == b.burst * TOKEN,
            b.burst >= 1,
    ;
    assert(b.elapsed(now) * b.rate + mid.elapsed(later) * mid.rate == b.elapsed(later) * b.rate)
        by (nonlinear_arith)
        requires
            b.elapsed(later) == b.elapsed(now) + mid.elapsed(later),
            mid.rate == b.rate,
    ;
    assert(mid.refilled(later) == b.refilled(later));
}

/// Packets that keep to the rate all pass: one that comes no sooner than the
/// rate brings a token after the one before it is never dropped.
pub proof fn packets_within_the_rate_pass(b: Bucket, now: nat)
    requires
        b.wf(),
        b.last <= now,
        (now - b.last) * b.rate >= 1_000_000_000,
    ensures
        b.passes(now),
{
    tokens_come_with_time(b, now);
}

} // verus!
