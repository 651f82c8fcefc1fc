//! The elapsed-time state machine and the playback rate modifier.
//!
//! Instants are plain nanosecond counts handed in by the caller from any
//! monotonic clock; the tracker stores accumulated raw (unscaled) elapsed
//! time, and the rate modifier scales it only when the duration is read.

use vstd::prelude::*;

verus! {

/// All stored instants and durations stay below this bound (about 36
/// years in nanoseconds), which keeps every scaling step inside `u64`.
pub open spec fn nano_cap() -> int {
    0x1000_0000_0000_0000
}

/// The playback rate: normal speed, or a slowdown or speedup whose factor
/// is 2, 4, 8 or 16.
#[derive(Clone, Copy, PartialEq, Eq, Structural, Debug)]
pub enum TimeModifier {
    Slowdown(u32),
    Normal,
    Speedup(u32),
}

impl TimeModifier {
    pub open spec fn wf(self) -> bool {
        match self {
            TimeModifier::Slowdown(f) => f == 2 || f == 4 || f == 8 || f == 16,
            TimeModifier::Normal => true,
            TimeModifier::Speedup(f) => f == 2 || f == 4 || f == 8 || f == 16,
        }
    }

    pub open spec fn spec_apply(self, duration: u64) -> int {
        match self {
            TimeModifier::Slowdown(f) => duration as int / f as int,
            TimeModifier::Normal => duration as int,
            TimeModifier::Speedup(f) => duration as int * f as int,
        }
    }

    /// Scales a raw duration for display: slowdowns divide, speedups
    /// multiply.
    pub fn apply(&self, duration: u64) -> (r: u64)
        requires
            self.wf(),
            duration < nano_cap(),
        ensures
            r == self.spec_apply(duration),
    {
        match self {
            TimeModifier::Slowdown(f) => duration / (*f as u64),
            TimeModifier::Normal => duration,
            TimeModifier::Speedup(f) => {
                proof {
                    assert(duration * (*f as u64) <= duration * 16) by (nonlinear_arith)
                        requires
                            *f == 2 || *f == 4 || *f == 8 || *f == 16,
                            0 <= duration,
                    ;
                }
                duration * (*f as u64)
            },
        }
    }

    pub fn reset(&mut self)
        ensures
            *final (self) == TimeModifier::Normal,
    {
        *self = TimeModifier::Normal;
    }

    /// One step slower: halves a speedup, enters a 2x slowdown from
    /// normal, doubles a slowdown up to 16x. Returns whether anything
    /// changed.
    pub fn decrease(&mut self) -> (r: bool)
        requires
            old(self).wf(),
        ensures
            final (self).wf(),
            *final (self) == (match *old(self) {
                TimeModifier::Slowdown(f) => if f < 16 {
                    TimeModifier::Slowdown((f * 2) as u32)
                } else {
                    TimeModifier::Slowdown(f)
                },
                TimeModifier::Normal => TimeModifier::Slowdown(2),
                TimeModifier::Speedup(f) => if f <= 2 {
                    TimeModifier::Normal
                } else {
                    TimeModifier::Speedup(f / 2)
                },
            }),
            r == !(*old(self) == TimeModifier::Slowdown(16u32)),
    {
        match *self {
            TimeModifier::Slowdown(f) => {
                if f < 16 {
                    *self = TimeModifier::Slowdown(f * 2);
                    true
                } else {
                    false
                }
            },
            TimeModifier::Normal => {
                *self = TimeModifier::Slowdown(2);
                true
            },
            TimeModifier::Speedup(f) => {
                if f <= 2 {
                    *self = TimeModifier::Normal;
                } else {
                    *self = TimeModifier::Speedup(f / 2);
                }
                true
            },
        }
    }

    /// One step faster: halves a slowdown, enters a 2x speedup from
    /// normal, doubles a speedup up to 16x. Returns whether anything
    /// changed.
    pub fn increase(&mut self) -> (r: bool)
        requires
            old(self).wf(),
        ensures
            final (self).wf(),
            *final (self) == (match *old(self) {
                TimeModifier::Slowdown(f) => if f <= 2 {
                    TimeModifier::Normal
                } else {
                    TimeModifier::Slowdown(f / 2)
                },
                TimeModifier::Normal => TimeModifier::Speedup(2),
                TimeModifier::Speedup(f) => if f < 16 {
                    TimeModifier::Speedup((f * 2) as u32)
                } else {
                    TimeModifier::Speedup(f)
                },
            }),
            r == !(*old(self) == TimeModifier::Speedup(16u32)),
    {
        match *self {
            TimeModifier::Slowdown(f) => {
                if f <= 2 {
                    *self = TimeModifier::Normal;
                } else {
                    *self = TimeModifier::Slowdown(f / 2);
                }
                true
            },
            TimeModifier::Normal => {
                *self = TimeModifier::Speedup(2);
                true
            },
            TimeModifier::Speedup(f) => {
                if f < 16 {
                    *self = TimeModifier::Speedup(f * 2);
                    true
                } else {
                    false
                }
            },
        }
    }
}

/// The elapsed-time tracker. While playing it keeps the raw time elapsed
/// before the last resume plus the instant of that resume; paused and
/// ended states keep a raw duration.
#[derive(Clone, Copy, PartialEq, Eq, Structural, Debug)]
pub enum Time {
    NotStarted,
    Playing { base: u64, resumed_at: u64 },
    Paused(u64),
    Ended(u64),
}

impl Time {
    pub open spec fn wf(self) -> bool {
        match self {
            Time::NotStarted => true,
            Time::Playing { base, resumed_at } => base < nano_cap() && resumed_at < nano_cap(),
            Time::Paused(d) => d < nano_cap(),
            Time::Ended(d) => d < nano_cap(),
        }
    }

    /// The raw (unscaled) elapsed time at instant `now`.
    pub open spec fn spec_raw(self, now: u64) -> int {
        match self {
            Time::NotStarted => 0,
            Time::Playing { base, resumed_at } => base + now - resumed_at,
            Time::Paused(d) => d as int,
            Time::Ended(d) => d as int,
        }
    }

    /// A well-behaved reading instant: in range, not before the last
    /// resume, and not so late that the raw elapsed time leaves the cap.
    pub open spec fn now_ok(self, now: u64) -> bool {
        &&& now < nano_cap()
        &&& (self is Playing ==> self->Playing_resumed_at <= now && self.spec_raw(now)
            < nano_cap())
    }

    pub fn reset(&mut self)
        ensures
            *final (self) == Time::NotStarted,
    {
        *self = Time::NotStarted;
    }

    /// Starts the clock; meaningful only on a fresh tracker.
    pub fn start(&mut self, now: u64)
        requires
            *old(self) is NotStarted,
            now < nano_cap(),
        ensures
            *final (self) == (Time::Playing { base: 0u64, resumed_at: now }),
    {
        *self = Time::Playing { base: 0, resumed_at: now };
    }

    /// Freezes the elapsed time; a no-op unless playing.
    pub fn pause(&mut self, now: u64)
        requires
            old(self).wf(),
            old(self).now_ok(now),
        ensures
            final (self).wf(),
            *final (self) == (if *old(self) is Playing {
                Time::Paused(old(self).spec_raw(now) as u64)
            } else {
                *old(self)
            }),
    {
        if let Time::Playing { base, resumed_at } = *self {
            *self = Time::Paused(base + (now - resumed_at));
        }
    }

    /// Resumes a paused clock; a no-op otherwise.
    pub fn resume(&mut self, now: u64)
        requires
            old(self).wf(),
            now < nano_cap(),
        ensures
            final (self).wf(),
            *final (self) == (if *old(self) is Paused {
                Time::Playing { base: old(self)->Paused_0, resumed_at: now }
            } else {
                *old(self)
            }),
    {
        if let Time::Paused(d) = *self {
            *self = Time::Playing { base: d, resumed_at: now };
        }
    }

    /// Captures the final duration: from playing it freezes the elapsed
    /// time, from a fresh tracker it records zero; terminal otherwise.
    pub fn end(&mut self, now: u64)
        requires
            old(self).wf(),
            old(self).now_ok(now),
        ensures
            final (self).wf(),
            *final (self) == (match *old(self) {
                Time::Playing { base, resumed_at } => Time::Ended(
                    old(self).spec_raw(now) as u64,
                ),
                Time::NotStarted => Time::Ended(0u64),
                other => other,
            }),
    {
        match *self {
            Time::Playing { base, resumed_at } => {
                *self = Time::Ended(base + (now - resumed_at));
            },
            Time::NotStarted => {
                *self = Time::Ended(0);
            },
            _ => {},
        }
    }

    /// The rate modifier stepped down one notch: the raw elapsed time
    /// doubles, so the duration reported through the new modifier is what
    /// it was through the old one.
    pub fn modifier_decreased(&mut self, now: u64)
        requires
            old(self).wf(),
            old(self).now_ok(now),
            2 * old(self).spec_raw(now) < nano_cap(),
        ensures
            final (self).wf(),
            *final (self) == (match *old(self) {
                Time::Playing { base, resumed_at } => Time::Playing {
                    base: (2 * old(self).spec_raw(now)) as u64,
                    resumed_at: now,
                },
                Time::Paused(d) => Time::Paused((2 * d) as u64),
                Time::Ended(d) => Time::Ended((2 * d) as u64),
                Time::NotStarted => Time::NotStarted,
            }),
    {
        match *self {
            Time::Playing { base, resumed_at } => {
                let raw = base + (now - resumed_at);
                *self = Time::Playing { base: 2 * raw, resumed_at: now };
            },
            Time::Paused(d) => {
                *self = Time::Paused(2 * d);
            },
            Time::Ended(d) => {
                *self = Time::Ended(2 * d);
            },
            Time::NotStarted => {},
        }
    }

    /// The rate modifier stepped up one notch: the raw elapsed time
    /// halves, preserving the reported duration.
    pub fn modifier_increased(&mut self, now: u64)
        requires
            old(self).wf(),
            old(self).now_ok(now),
        ensures
            final (self).wf(),
            *final (self) == (match *old(self) {
                Time::Playing { base, resumed_at } => Time::Playing {
                    base: (old(self).spec_raw(now) / 2) as u64,
                    resumed_at: now,
                },
                Time::Paused(d) => Time::Paused((d / 2) as u64),
                Time::Ended(d) => Time::Ended((d / 2) as u64),
                Time::NotStarted => Time::NotStarted,
            }),
    {
        match *self {
            Time::Playing { base, resumed_at } => {
                let raw = base + (now - resumed_at);
                *self = Time::Playing { base: raw / 2, resumed_at: now };
            },
            Time::Paused(d) => {
                *self = Time::Paused(d / 2);
            },
            Time::Ended(d) => {
                *self = Time::Ended(d / 2);
            },
            Time::NotStarted => {},
        }
    }

    /// The displayed duration at instant `now`: the raw elapsed time
    /// scaled by the modifier and, in replay mode, clamped to the
    /// replay's recorded total.
    pub fn duration(&self, now: u64, modifier: &TimeModifier, replay_cap: Option<u64>) -> (r:
        u64)
        requires
            self.wf(),
            self.now_ok(now),
            modifier.wf(),
        ensures
            ({
                let scaled = modifier.spec_apply(self.spec_raw(now) as u64);
                r == (match replay_cap {
                    Some(cap) => if scaled < cap {
                        scaled
                    } else {
                        cap as int
                    },
                    None => scaled,
                })
            }),
    {
        let raw = match *self {
            Time::NotStarted => 0,
            Time::Playing { base, resumed_at } => base + (now - resumed_at),
            Time::Paused(d) => d,
            Time::Ended(d) => d,
        };
        let scaled = modifier.apply(raw);
        match replay_cap {
            Some(cap) => if scaled < cap {
                scaled
            } else {
                cap
            },
            None => scaled,
        }
    }

    pub fn is_playing(&self) -> (r: bool)
        ensures
            r == (*self is Playing),
    {
        matches!(self, Time::Playing { .. })
    }
}

} // verus!
