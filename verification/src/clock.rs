//! Timestamp generation and pacing for senders that have no capture clock.
//!
//! The first frame gets timestamp 0; each later one gets the previous plus one
//! frame interval. The caller then waits until wall time catches up, and if it
//! has fallen more than one interval behind, the clock skips timestamps forward
//! instead of bursting. Changing the frame or sample rate restarts the
//! wall-clock reference. Use one `Clock` for video and another for audio.
//!
//! The clock does not read the time and does not sleep: the caller hands it
//! the wall time in milliseconds and asks how far ahead the last stamp is.

use crate::float::{round_to, rounded};
use crate::frame::TICKS_PER_SECOND;
use vstd::arithmetic::power2::{lemma2_to64, lemma2_to64_rest, lemma_pow2_pos, pow2};
use vstd::prelude::*;

verus! {

// ---------------------------------------------------------------------------
// Intervals
// ---------------------------------------------------------------------------

/// `m * 2^e` cut to an integer.
pub open spec fn whole(m: int, e: int) -> int {
    if e >= 0 {
        m * pow2(e as nat) as int
    } else {
        m / pow2((-e) as nat) as int
    }
}

/// `m * 2^e` to the nearest integer, halves up.
pub open spec fn nearest_whole(m: int, e: int) -> int {
    if e >= 0 {
        m * pow2(e as nat) as int
    } else {
        (2 * m + pow2((-e) as nat)) / (2 * pow2((-e) as nat)) as int
    }
}

/// A hundred times the frame rate `n / d`, rounded to an integer: the rate is
/// held in a double, multiplied by 100 there, and rounded.
pub open spec fn centi_rate(n: nat, d: nat) -> int {
    let (m, e) = rounded(53, n, d);
    let (m2, e2) = rounded(53, (100 * m) as nat, 1);
    nearest_whole(m2, e + e2)
}

/// Ticks per frame at `c / 100` frames a second: the rate is held in a double,
/// then in a single, and the division is done in singles and cut off.
pub open spec fn ticks_at(c: nat) -> int {
    let (m, e) = rounded(53, c, 100);
    let (m2, e2) = rounded(24, m as nat, 1);
    let (m3, e3) = rounded(24, 10_000_000, m2 as nat);
    whole(m3, e3 - (e + e2))
}

/// The absolute value.
pub open spec fn magnitude(v: int) -> nat {
    (if v < 0 {
        -v
    } else {
        v
    }) as nat
}

/// Ticks per frame at `n / d` frames a second: 0 for a rate that is not
/// positive once it is rounded to two decimals.
pub open spec fn interval_of(n: int, d: int) -> int {
    if n == 0 || d == 0 || (n < 0) != (d < 0) {
        0
    } else {
        let c = centi_rate(magnitude(n), magnitude(d));
        if c <= 0 {
            0
        } else {
            ticks_at(c as nat)
        }
    }
}

/// The largest power of two used here.
proof fn lemma_pow2_bound(k: nat)
    requires
        k <= 100,
    ensures
        0 < pow2(k) <= 0x10_0000_0000_0000_0000_0000_0000,
{
    lemma_pow2_pos(k);
    lemma2_to64();
    lemma2_to64_rest();
    vstd::arithmetic::power2::lemma_pow2_adds(50, 50);
    if k < 100 {
        vstd::arithmetic::power2::lemma_pow2_strictly_increases(k, 100);
    }
}

/// `2^k`.
fn power(k: u32) -> (r: u128)
    requires
        k <= 100,
    ensures
        r == pow2(k as nat),
        0 < r <= 0x10_0000_0000_0000_0000_0000_0000,
{
    let mut r: u128 = 1;
    let mut i: u32 = 0;
    proof {
        lemma2_to64();
    }
    while i < k
        invariant
            i <= k <= 100,
            r == pow2(i as nat),
        decreases k - i,
    {
        proof {
            lemma_pow2_bound(i as nat);
            vstd::arithmetic::power2::lemma_pow2_unfold((i + 1) as nat);
        }
        r = 2 * r;
        i = i + 1;
    }
    proof {
        lemma_pow2_bound(k as nat);
    }
    r
}

/// A hundred times the frame rate, rounded.
fn rate_times_100(n: u32, d: u32) -> (r: u64)
    requires
        0 < n <= 0x8000_0000,
        0 < d <= 0x8000_0000,
    ensures
        r == centi_rate(n as nat, d as nat),
        r < 0x4000_0000_0000_0000,
{
    proof {
        lemma2_to64();
        lemma2_to64_rest();
    }
    let (m, e): (u128, i32) = round_to(53, n as u128, d as u128);
    proof {
        if e > 0 {
            lemma_pow2_pos(e as nat);
            assert(pow2(52) * (d * pow2(e as nat)) >= pow2(52)) by (nonlinear_arith)
                requires
                    d >= 1,
                    pow2(e as nat) >= 1,
            ;
        }
        assert(e <= 0);
    }
    let (m2, e2): (u128, i32) = round_to(53, 100 * m, 1);
    proof {
        if e2 > 8 {
            vstd::arithmetic::power2::lemma_pow2_strictly_increases(8, e2 as nat);
            assert(pow2(52) * (1 * pow2(e2 as nat)) > pow2(52) * 256) by (nonlinear_arith)
                requires
                    pow2(e2 as nat) > 256,
                    pow2(52) > 0,
            ;
        }
        assert(e2 <= 8);
    }
    let t: i32 = e + e2;
    if t >= 0 {
        let u: u128 = power(t as u32);
        proof {
            if t < 8 {
                vstd::arithmetic::power2::lemma_pow2_strictly_increases(t as nat, 8);
            }
            assert(0 <= m2 * u <= 0x20_0000_0000_0000 * 256) by (nonlinear_arith)
                requires
                    0 <= m2 <= 0x20_0000_0000_0000,
                    0 <= u <= 256,
            ;
        }
        (m2 * u) as u64
    } else if t < -100 {
        proof {
            let s = (-t) as nat;
            lemma_pow2_bound(100);
            vstd::arithmetic::power2::lemma_pow2_strictly_increases(60, s);
            let ps = pow2(s) as int;
            let m = m2 as int;
            assert((2 * m + ps) / (2 * ps) == 0) by (nonlinear_arith)
                requires
                    0 <= 2 * m < ps,
            ;
        }
        0
    } else {
        let u: u128 = power((-t) as u32);
        let r: u128 = (2 * m2 + u) / (2 * u);
        proof {
            assert(0 <= r <= m2 + 1) by (nonlinear_arith)
                requires
                    r == (2 * m2 + u) / (2 * u),
                    u >= 1,
                    m2 >= 0,
            ;
        }
        r as u64
    }
}

/// Ticks per frame at `c / 100` frames a second.
fn ticks_for(c: u64) -> (r: i64)
    requires
        0 < c < 0x4000_0000_0000_0000,
    ensures
        r == ticks_at(c as nat),
        0 <= r <= 0x40_0000_0000_0000,
{
    proof {
        lemma2_to64();
        lemma2_to64_rest();
    }
    let (m, e): (u128, i32) = round_to(53, c as u128, 100);
    proof {
        if e < -59 {
            let j = (-e - 1) as nat;
            if j > 59 {
                vstd::arithmetic::power2::lemma_pow2_strictly_increases(59, j);
            }
            assert(pow2(j) * c >= pow2(j)) by (nonlinear_arith)
                requires
                    c >= 1,
                    pow2(j) >= 0,
            ;
        }
        assert(e >= -59);
        if e > 10 {
            vstd::arithmetic::power2::lemma_pow2_strictly_increases(10, e as nat);
            assert(pow2(52) * (100 * pow2(e as nat)) > pow2(52) * 1024) by (nonlinear_arith)
                requires
                    pow2(e as nat) > 1024,
                    pow2(52) > 0,
            ;
        }
        assert(e <= 10);
    }
    let (m2, e2): (u128, i32) = round_to(24, m, 1);
    proof {
        if e2 < 0 {
            let j = (-e2 - 1) as nat;
            lemma_pow2_pos(j);
            assert(pow2(j) * m >= m) by (nonlinear_arith)
                requires
                    pow2(j) >= 1,
                    m >= 0,
            ;
        }
        if e2 < 29 {
            if e2 < 28 {
                vstd::arithmetic::power2::lemma_pow2_strictly_increases(e2 as nat, 28);
            }
            assert(pow2(24) * (1 * pow2(e2 as nat)) <= pow2(24) * pow2(28)) by (nonlinear_arith)
                requires
                    pow2(e2 as nat) <= pow2(28),
                    pow2(24) > 0,
            ;
        }
        assert(e2 >= 29);
        if e2 > 30 {
            vstd::arithmetic::power2::lemma_pow2_strictly_increases(30, e2 as nat);
            assert(pow2(23) * (1 * pow2(e2 as nat)) > pow2(23) * pow2(30)) by (nonlinear_arith)
                requires
                    pow2(e2 as nat) > pow2(30),
                    pow2(23) > 0,
            ;
        }
        assert(e2 <= 30);
    }
    let (m3, e3): (u128, i32) = round_to(24, 10_000_000, m2);
    proof {
        if e3 > 0 {
            lemma_pow2_pos(e3 as nat);
            assert(pow2(23) * (m2 * pow2(e3 as nat)) >= pow2(23) * m2) by (nonlinear_arith)
                requires
                    pow2(e3 as nat) >= 1,
                    m2 >= 0,
                    pow2(23) > 0,
            ;
            assert(pow2(23) * m2 > 10_000_000);
        }
        assert(e3 <= 0);
        if e3 < -30 {
            let j = (-e3 - 1) as nat;
            if j > 30 {
                vstd::arithmetic::power2::lemma_pow2_strictly_increases(30, j);
            }
            assert(pow2(j) * 10_000_000 >= 0x4000_0000 * 10_000_000);
        }
        assert(e3 >= -30);
    }
    let t: i32 = e3 - (e + e2);
    if t >= 0 {
        let u: u128 = power(t as u32);
        proof {
            if t < 30 {
                vstd::arithmetic::power2::lemma_pow2_strictly_increases(t as nat, 30);
            }
            assert(0 <= m3 * u <= 0x100_0000 * 0x4000_0000) by (nonlinear_arith)
                requires
                    0 <= m3 <= 0x100_0000,
                    0 <= u <= 0x4000_0000,
            ;
        }
        (m3 * u) as i64
    } else {
        let u: u128 = power((-t) as u32);
        let r: u128 = m3 / u;
        proof {
            assert(0 <= r <= m3) by (nonlinear_arith)
                requires
                    r == m3 / u,
                    u >= 1,
                    m3 >= 0,
            ;
        }
        r as i64
    }
}

/// Ticks per video frame: `10^7 / fps` where fps is `n / d` rounded to two
/// decimals and held in a single, then truncated. 30000/1001 gives 333667, not
/// 333666.
pub fn video_interval(frame_rate_n: i32, frame_rate_d: i32) -> (r: i64)
    ensures
        r == interval_of(frame_rate_n as int, frame_rate_d as int),
        0 <= r <= 0x40_0000_0000_0000,
{
    if frame_rate_n == 0 || frame_rate_d == 0 || (frame_rate_n < 0) != (frame_rate_d < 0) {
        return 0;
    }
    let n: u32 = if frame_rate_n < 0 {
        (-(frame_rate_n as i64)) as u32
    } else {
        frame_rate_n as u32
    };
    let d: u32 = if frame_rate_d < 0 {
        (-(frame_rate_d as i64)) as u32
    } else {
        frame_rate_d as u32
    };
    let c: u64 = rate_times_100(n, d);
    if c == 0 {
        return 0;
    }
    ticks_for(c)
}

/// Ticks per audio frame of `samples` per channel at `sample_rate`.
pub open spec fn audio_interval_of(sample_rate: int, samples: int) -> int {
    if sample_rate > 0 && samples > 0 {
        TICKS_PER_SECOND * samples / sample_rate
    } else {
        0
    }
}

// ---------------------------------------------------------------------------
// Clock
// ---------------------------------------------------------------------------

/// What a clock holds.
pub struct ClockState {
    /// The rate in force.
    pub rate: Option<(int, int)>,
    /// Wall time of the reference, in milliseconds.
    pub start: int,
    /// Stamped time since the reference, in ticks.
    pub clock_ts: int,
    /// The last stamp.
    pub last: Option<int>,
}

/// How many intervals to skip when the clock is `diff` ticks ahead (behind,
/// if negative): as few as bring it within one interval.
pub open spec fn skips(diff: int, interval: int) -> int {
    if interval > 0 && diff < 0 {
        (-diff - 1) / interval
    } else {
        0
    }
}

impl ClockState {
    /// The clock with its reference at `now`.
    pub open spec fn restarted(self, key: (int, int), now: int) -> ClockState {
        ClockState { rate: Some(key), start: now, clock_ts: 0, last: self.last }
    }

    /// The clock at this rate.
    pub open spec fn at_rate(self, key: (int, int), now: int) -> ClockState {
        if self.rate == Some(key) {
            self
        } else {
            self.restarted(key, now)
        }
    }

    /// Ticks that the stamped time is ahead of wall time.
    pub open spec fn ahead_of(self, now: int) -> int {
        self.clock_ts - (now - self.start) * 10_000
    }

    /// The next stamp.
    pub open spec fn stamp(self, key: (int, int), interval: int, now: int) -> int {
        let st = self.at_rate(key, now);
        match st.last {
            None => 0,
            Some(last) => {
                let k = skips(st.ahead_of(now) + interval, interval);
                last + (1 + k) * interval
            },
        }
    }

    /// The clock after the next stamp.
    pub open spec fn stamped(self, key: (int, int), interval: int, now: int) -> ClockState {
        let st = self.at_rate(key, now);
        let ts = self.stamp(key, interval, now);
        match st.last {
            None => ClockState { last: Some(ts), ..st.restarted(key, now) },
            Some(_) => {
                let k = skips(st.ahead_of(now) + interval, interval);
                ClockState { clock_ts: st.clock_ts + (1 + k) * interval, last: Some(ts), ..st }
            },
        }
    }

    /// The numbers stay within 64 bits.
    pub open spec fn fits(self) -> bool {
        &&& i64::MIN <= self.clock_ts <= i64::MAX
        &&& match self.last {
            Some(t) => i64::MIN <= t <= i64::MAX,
            None => true,
        }
    }
}

/// Stamps frames in 100 ns ticks and paces them.
#[derive(Debug)]
pub struct Clock {
    rate: Option<(i64, i64)>,
    start: i64,
    clock_ts: i64,
    last: Option<i64>,
}

impl View for Clock {
    type V = ClockState;

    closed spec fn view(&self) -> ClockState {
        ClockState {
            rate: match self.rate {
                Some(k) => Some((k.0 as int, k.1 as int)),
                None => None,
            },
            start: self.start as int,
            clock_ts: self.clock_ts as int,
            last: match self.last {
                Some(t) => Some(t as int),
                None => None,
            },
        }
    }
}

impl Default for Clock {
    fn default() -> (r: Self)
        ensures
            r@ == (ClockState { rate: None, start: 0, clock_ts: 0, last: None }),
    {
        Clock::new()
    }
}

proof fn lemma_skips(x: int, interval: int, k: int)
    requires
        interval > 0,
        k == (x - 1) / interval,
        x > 0,
    ensures
        0 <= k <= x,
        0 <= k * interval <= x,
{
    assert(0 <= k <= x && 0 <= k * interval <= x) by (nonlinear_arith)
        requires
            interval > 0,
            x > 0,
            k == (x - 1) / interval,
    ;
}

impl Clock {
    /// A clock that has not stamped anything yet.
    pub fn new() -> (r: Self)
        ensures
            r@ == (ClockState { rate: None, start: 0, clock_ts: 0, last: None }),
    {
        Clock { rate: None, start: 0, clock_ts: 0, last: None }
    }

    /// Timestamp for the next video frame at `n / d` frames per second, at
    /// wall time `now` in milliseconds. `None`, with the clock as it was, only
    /// where the stamp would not fit in 64 bits.
    pub fn video(&mut self, frame_rate_n: i32, frame_rate_d: i32, now: i64) -> (r: Option<i64>)
        ensures
            ({
                let key = (frame_rate_n as int, frame_rate_d as int);
                let interval = interval_of(frame_rate_n as int, frame_rate_d as int);
                let next = old(self)@.stamped(key, interval, now as int);
                if next.fits() {
                    &&& r is Some
                    &&& r->0 == old(self)@.stamp(key, interval, now as int)
                    &&& final(self)@ == next
                } else {
                    r is None && final(self)@ == old(self)@
                }
            }),
    {
        let interval: i64 = video_interval(frame_rate_n, frame_rate_d);
        self.next((frame_rate_n as i64, frame_rate_d as i64), interval, now)
    }

    /// Timestamp for the next audio frame of `samples` per channel at
    /// `sample_rate`, at wall time `now` in milliseconds. `None`, with the
    /// clock as it was, only where the stamp would not fit in 64 bits.
    pub fn audio(&mut self, sample_rate: i32, samples: i32, now: i64) -> (r: Option<i64>)
        ensures
            ({
                let key = (sample_rate as int, 0);
                let interval = audio_interval_of(sample_rate as int, samples as int);
                let next = old(self)@.stamped(key, interval, now as int);
                if next.fits() {
                    &&& r is Some
                    &&& r->0 == old(self)@.stamp(key, interval, now as int)
                    &&& final(self)@ == next
                } else {
                    r is None && final(self)@ == old(self)@
                }
            }),
    {
        let interval: i64 = if sample_rate > 0 && samples > 0 {
            proof {
                let x = TICKS_PER_SECOND * samples;
                assert(0 <= x / (sample_rate as int) <= x) by (nonlinear_arith)
                    requires
                        x >= 0,
                        sample_rate >= 1,
                ;
            }
            TICKS_PER_SECOND * samples as i64 / sample_rate as i64
        } else {
            0
        };
        self.next((sample_rate as i64, 0), interval, now)
    }

    /// How many ticks the last stamp is ahead of wall time `now`: the time to
    /// wait before the frame is sent.
    pub fn ahead(&self, now: i64) -> (r: i128)
        ensures
            r == self@.ahead_of(now as int),
    {
        self.clock_ts as i128 - (now as i128 - self.start as i128) * 10_000
    }

    /// How many nanoseconds to wait at wall time `now` for the last stamp:
    /// exactly the ticks that the clock is ahead.
    pub fn wait_nanos(&self, now: i64) -> (r: u128)
        ensures
            r == (if self@.ahead_of(now as int) > 0 {
                100 * self@.ahead_of(now as int)
            } else {
                0
            }),
    {
        let ahead: i128 = self.ahead(now);
        if ahead > 0 {
            100 * ahead as u128
        } else {
            0
        }
    }

    fn next(&mut self, key: (i64, i64), interval: i64, now: i64) -> (r: Option<i64>)
        requires
            0 <= interval <= 0x80_0000_0000_0000,
        ensures
            ({
                let k = (key.0 as int, key.1 as int);
                let next = old(self)@.stamped(k, interval as int, now as int);
                if next.fits() {
                    &&& r is Some
                    &&& r->0 == old(self)@.stamp(k, interval as int, now as int)
                    &&& final(self)@ == next
                } else {
                    r is None && final(self)@ == old(self)@
                }
            }),
    {
        let same: bool = match self.rate {
            Some(k) => k.0 == key.0 && k.1 == key.1,
            None => false,
        };
        let (start, clock_ts): (i64, i64) = if same {
            (self.start, self.clock_ts)
        } else {
            (now, 0)
        };
        match self.last {
            None => {
                self.rate = Some(key);
                self.start = now;
                self.clock_ts = 0;
                self.last = Some(0);
                Some(0)
            },
            Some(last) => {
                let diff: i128 = clock_ts as i128 - (now as i128 - start as i128) * 10_000
                    + interval as i128;
                let ghost st = self@.at_rate((key.0 as int, key.1 as int), now as int);
                assert(st.ahead_of(now as int) + interval == diff);
                let k: i128 = if interval > 0 && diff < 0 {
                    let x: i128 = -diff;
                    let k: i128 = (x - 1) / (interval as i128);
                    proof {
                        lemma_skips(x as int, interval as int, k as int);
                    }
                    k
                } else {
                    0
                };
                assert(k == skips(diff as int, interval as int));
                proof {
                    assert((1 + k) * interval == interval + k * interval) by (nonlinear_arith);
                    if !(interval > 0 && diff < 0) {
                        assert(k * interval == 0) by (nonlinear_arith)
                            requires
                                k == 0,
                        ;
                    }
                }
                let step: i128 = interval as i128 + k * interval as i128;
                let ts: i128 = last as i128 + step;
                let clock: i128 = clock_ts as i128 + step;
                if ts > i64::MAX as i128 || clock > i64::MAX as i128 {
                    return None;
                }
                self.rate = Some(key);
                self.start = start;
                self.clock_ts = clock as i64;
                self.last = Some(ts as i64);
                Some(ts as i64)
            },
        }
    }
}

/// Stamps never go back, and while a rate holds they are whole intervals
/// apart.
pub proof fn law_stamps_grow(st: ClockState, key: (int, int), interval: int, now: int)
    requires
        interval >= 0,
        st.last is Some,
    ensures
        st.stamp(key, interval, now) >= st.last->0 + interval,
        exists|k: int|
            k >= 1 && st.stamp(key, interval, now) == #[trigger] (st.last->0 + k * interval),
{
    let s = st.at_rate(key, now);
    let diff = s.ahead_of(now) + interval;
    let k = skips(diff, interval);
    assert(k >= 0) by {
        if interval > 0 && diff < 0 {
            lemma_skips(-diff, interval, k);
        }
    }
    assert((1 + k) * interval >= interval) by (nonlinear_arith)
        requires
            k >= 0,
            interval >= 0,
    ;
    assert(st.stamp(key, interval, now) == (st.last->0 + (1 + k) * interval));
}

/// A caller that has fallen behind is brought within one interval of wall
/// time: stamps are skipped, not sent in a burst.
pub proof fn law_catches_up(st: ClockState, key: (int, int), interval: int, now: int)
    requires
        interval > 0,
        st.last is Some,
    ensures
        st.stamped(key, interval, now).ahead_of(now) >= -interval,
        st.at_rate(key, now).ahead_of(now) + interval >= -interval ==> st.stamp(key, interval, now)
            == st.last->0 + interval,
{
    let s = st.at_rate(key, now);
    let diff = s.ahead_of(now) + interval;
    let k = skips(diff, interval);
    if diff < 0 {
        let x = -diff;
        assert(k * interval >= x - interval) by (nonlinear_arith)
            requires
                k == (x - 1) / interval,
                interval > 0,
                x > 0,
        ;
        if x <= interval {
            assert(k == 0) by (nonlinear_arith)
                requires
                    k == (x - 1) / interval,
                    0 < x <= interval,
            ;
        }
    }
    assert((1 + k) * interval == interval + k * interval) by (nonlinear_arith);
}

/// A clock after stamps at one rate, at these wall times.
pub open spec fn stamped_at(key: (int, int), interval: int, times: Seq<int>) -> ClockState
    decreases times.len(),
{
    if times.len() == 0 {
        ClockState { rate: None, start: 0, clock_ts: 0, last: None }
    } else {
        stamped_at(key, interval, times.drop_last()).stamped(key, interval, times.last())
    }
}

/// While the rate stays the same, the first stamp is 0, each later one is
/// greater and a whole number of intervals, and the stamps are the time that
/// the clock compares with wall time. So a caller who waits as many ticks as
/// the clock is ahead hands out no stamp before the time since the first one
/// has reached it: `elapsed` is that time in ticks when the wait begins, of
/// which the clock knows the whole milliseconds.
pub proof fn law_paced(key: (int, int), interval: int, times: Seq<int>, elapsed: int)
    requires
        interval > 0,
        times.len() > 0,
    ensures
        ({
            let st = stamped_at(key, interval, times);
            &&& st.rate == Some(key)
            &&& st.start == times[0]
            &&& st.last == Some(st.clock_ts)
            &&& st.clock_ts % interval == 0
            &&& st.clock_ts >= 0
            &&& times.len() == 1 ==> st.clock_ts == 0
            &&& times.len() > 1 ==> st.clock_ts > stamped_at(key, interval, times.drop_last()).clock_ts
            &&& elapsed >= (times.last() - times[0]) * 10_000 ==> st.last->0 <= elapsed + (if st.ahead_of(
                times.last(),
            ) > 0 {
                st.ahead_of(times.last())
            } else {
                0
            })
        }),
    decreases times.len(),
{
    let before = times.drop_last();
    let now = times.last();
    if times.len() == 1 {
        assert(before =~= Seq::empty());
        vstd::arithmetic::div_mod::lemma_small_mod(0, interval as nat);
    } else {
        law_paced(key, interval, before, elapsed);
        let st = stamped_at(key, interval, before);
        assert(before[0] == times[0]);
        law_stamps_grow(st, key, interval, now);
        let k = skips(st.ahead_of(now) + interval, interval);
        vstd::arithmetic::div_mod::lemma_mod_multiples_vanish(1 + k, st.clock_ts, interval);
        assert(interval * (1 + k) == (1 + k) * interval) by (nonlinear_arith);
    }
}

} // verus!
