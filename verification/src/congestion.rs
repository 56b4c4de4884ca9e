//! TCP-like congestion control: slow start below the threshold, additive
//! increase above it (one frame per window of acks, kept exact by a
//! fractional accumulator), multiplicative decrease on loss, and a Jacobson
//! round-trip-time estimator. All times are milliseconds of the caller's
//! clock.

use vstd::prelude::*;

verus! {

/// Floor of the retransmission timeout, in milliseconds.
pub const RTO_FLOOR_MS: u64 = 100;

/// Ceiling of the retransmission timeout, in milliseconds.
pub const RTO_CEIL_MS: u64 = 60000;

/// The smoothed estimate after one sample, with gain one eighth.
pub open spec fn smoothed_rtt(rtt: u64, sample: u64) -> u64 {
    if sample >= rtt {
        (rtt + (sample - rtt) / 8) as u64
    } else {
        (rtt - (rtt - sample) / 8) as u64
    }
}

/// Distance between two estimates.
pub open spec fn abs_diff(a: u64, b: u64) -> u64 {
    if a >= b {
        (a - b) as u64
    } else {
        (b - a) as u64
    }
}

/// The variation estimate after one sample, with gain one quarter.
pub open spec fn smoothed_var(rtt_var: u64, diff: u64) -> u64 {
    if diff >= rtt_var {
        (rtt_var + (diff - rtt_var) / 4) as u64
    } else {
        (rtt_var - (rtt_var - diff) / 4) as u64
    }
}

/// The retransmission timeout for given estimator state: the smoothed
/// round-trip time plus four times its variation, clamped to the floor and
/// the ceiling.
pub open spec fn rto_spec(rtt: u64, rtt_var: u64) -> u64 {
    let raw = rtt + 4 * rtt_var;
    if raw < RTO_FLOOR_MS {
        RTO_FLOOR_MS
    } else if raw > RTO_CEIL_MS {
        RTO_CEIL_MS
    } else {
        raw as u64
    }
}

/// The threshold after a loss: half the window that was lost from, but
/// never below two.
pub open spec fn loss_threshold(window_size: u32) -> u32 {
    if window_size / 2 > 2 {
        (window_size / 2) as u32
    } else {
        2
    }
}

/// The initial controller: window one, threshold sixteen, the estimator at
/// one hundred milliseconds with fifty of variation.
pub open spec fn initial_congestion() -> CongestionControl {
    CongestionControl {
        window_size: 1,
        threshold: 16,
        accum: 0,
        rtt: 100,
        rtt_var: 50,
        last_window_decrease: 0,
    }
}

/// The controller after one acknowledged frame: one more frame of window
/// in slow start, and one more per full window of acks afterwards.
pub open spec fn after_ack(c: CongestionControl) -> CongestionControl {
    if c.window_size < c.threshold {
        CongestionControl { window_size: (c.window_size + 1) as u32, ..c }
    } else if c.accum + 1 >= c.window_size {
        CongestionControl {
            window_size: if c.window_size < u32::MAX {
                (c.window_size + 1) as u32
            } else {
                u32::MAX
            },
            accum: 0,
            ..c
        }
    } else {
        CongestionControl { accum: (c.accum + 1) as u32, ..c }
    }
}

/// The controller after one round-trip sample.
pub open spec fn after_rtt(c: CongestionControl, sample_ms: u64) -> CongestionControl {
    CongestionControl {
        rtt: smoothed_rtt(c.rtt, sample_ms),
        rtt_var: smoothed_var(c.rtt_var, abs_diff(sample_ms, c.rtt)),
        ..c
    }
}

/// Congestion controller state.
pub struct CongestionControl {
    /// Frames that may leave the socket in one tick. Always at least one.
    pub window_size: u32,
    /// Slow start ends when the window reaches this.
    pub threshold: u32,
    /// Acks counted toward the next additive increase of the window.
    pub accum: u32,
    /// Smoothed round-trip time, milliseconds.
    pub rtt: u64,
    /// Round-trip-time variation, milliseconds.
    pub rtt_var: u64,
    /// Instant of the last loss event, milliseconds.
    pub last_window_decrease: u64,
}

impl CongestionControl {
    /// The window never drops below one frame, and the ack accumulator
    /// stays below one window.
    pub open spec fn wf(&self) -> bool {
        self.window_size >= 1 && self.accum < self.window_size
    }

    /// A window of one frame, a threshold of sixteen, and the estimator at
    /// one hundred milliseconds with fifty of variation.
    pub fn new() -> (r: Self)
        ensures
            r.window_size == 1,
            r.threshold == 16,
            r.accum == 0,
            r.rtt == 100,
            r.rtt_var == 50,
            r.last_window_decrease == 0,
            r == initial_congestion(),
            r.wf(),
    {
        CongestionControl {
            window_size: 1,
            threshold: 16,
            accum: 0,
            rtt: 100,
            rtt_var: 50,
            last_window_decrease: 0,
        }
    }

    /// One acknowledged frame: grow the window by one in slow start, and by
    /// one per full window of acks afterwards.
    pub fn on_ack(&mut self)
        requires
            old(self).wf(),
        ensures
            final(self).wf(),
            final(self).threshold == old(self).threshold,
            final(self).rtt == old(self).rtt,
            final(self).rtt_var == old(self).rtt_var,
            final(self).last_window_decrease == old(self).last_window_decrease,
            final(self).window_size >= old(self).window_size,
            old(self).window_size < old(self).threshold ==> final(self).window_size
                == old(self).window_size + 1 && final(self).accum == old(self).accum,
            old(self).window_size >= old(self).threshold && old(self).accum + 1
                == old(self).window_size && old(self).window_size < u32::MAX ==> final(
                self).window_size == old(self).window_size + 1 && final(self).accum == 0,
            old(self).window_size >= old(self).threshold && old(self).accum + 1 < old(
                self).window_size ==> final(self).window_size == old(self).window_size && final(
                self).accum == old(self).accum + 1,
            old(self).window_size >= old(self).threshold && old(self).accum + 1
                == old(self).window_size && old(self).window_size == u32::MAX ==> final(
                self).window_size == u32::MAX && final(self).accum == 0,
            *final(self) == after_ack(*old(self)),
    {
        if self.window_size < self.threshold {
            self.window_size = self.window_size + 1;
        } else {
            let a = self.accum + 1;
            if a >= self.window_size {
                if self.window_size < u32::MAX {
                    self.window_size = self.window_size + 1;
                }
                self.accum = 0;
            } else {
                self.accum = a;
            }
        }
    }

    /// A loss event: halve into the threshold (floored at two), drop the
    /// window to one frame, and record the instant.
    pub fn on_loss(&mut self, now_ms: u64)
        requires
            old(self).wf(),
        ensures
            final(self).wf(),
            final(self).window_size == 1,
            final(self).threshold == loss_threshold(old(self).window_size),
            final(self).accum == 0,
            final(self).rtt == old(self).rtt,
            final(self).rtt_var == old(self).rtt_var,
            final(self).last_window_decrease == now_ms,
    {
        let half = self.window_size / 2;
        self.threshold = if half > 2 {
            half
        } else {
            2
        };
        self.window_size = 1;
        self.accum = 0;
        self.last_window_decrease = now_ms;
    }

    /// One round-trip-time sample, in milliseconds: move the smoothed
    /// estimate an eighth of the way toward the sample and the variation a
    /// quarter of the way toward the new distance.
    pub fn update_rtt(&mut self, sample_ms: u64)
        requires
            old(self).wf(),
        ensures
            final(self).wf(),
            final(self).rtt == smoothed_rtt(old(self).rtt, sample_ms),
            final(self).rtt_var == smoothed_var(
                old(self).rtt_var,
                abs_diff(sample_ms, old(self).rtt),
            ),
            final(self).window_size == old(self).window_size,
            final(self).threshold == old(self).threshold,
            final(self).accum == old(self).accum,
            final(self).last_window_decrease == old(self).last_window_decrease,
            *final(self) == after_rtt(*old(self), sample_ms),
    {
        let diff = if sample_ms >= self.rtt {
            sample_ms - self.rtt
        } else {
            self.rtt - sample_ms
        };
        if sample_ms >= self.rtt {
            self.rtt = self.rtt + (sample_ms - self.rtt) / 8;
        } else {
            self.rtt = self.rtt - (self.rtt - sample_ms) / 8;
        }
        if diff >= self.rtt_var {
            self.rtt_var = self.rtt_var + (diff - self.rtt_var) / 4;
        } else {
            self.rtt_var = self.rtt_var - (self.rtt_var - diff) / 4;
        }
    }

    /// The retransmission timeout this state calls for.
    pub fn rto(&self) -> (r: u64)
        ensures
            r == rto_spec(self.rtt, self.rtt_var),
    {
        let var4 = self.rtt_var.checked_mul(4);
        let raw = match var4 {
            Some(v) => self.rtt.checked_add(v),
            None => None,
        };
        match raw {
            Some(x) => {
                if x < RTO_FLOOR_MS {
                    RTO_FLOOR_MS
                } else if x > RTO_CEIL_MS {
                    RTO_CEIL_MS
                } else {
                    x
                }
            },
            None => RTO_CEIL_MS,
        }
    }
}

} // verus!
