//! The playback position as an explicit state machine.
//!
//! The position is wall-clock derived: while playing it is the saved
//! offset plus the time elapsed since the last start, so pausing and
//! resuming never jumps, and scrubbing rebases the offset so that the
//! position continues from the scrubbed-to instant.

use vstd::prelude::*;

verus! {

/// Stopped, paused at an instant, or playing since an instant.
#[derive(Clone, Copy, PartialEq, Eq, Structural, Debug)]
pub enum PlayerState {
    Stopped,
    Paused,
    Playing,
}

/// The playback clock: its state, the accumulated offset, the monotonic
/// clock reading (in milliseconds) captured at the last start, and the
/// most recently computed position.
#[derive(Clone, Copy, PartialEq, Eq, Structural, Debug)]
pub struct PlayerClock {
    pub state: PlayerState,
    pub offset: u64,
    pub started_at: u64,
    pub timestamp: u64,
}

/// When not playing, the displayed position is exactly the offset.
pub open spec fn clock_wf(c: PlayerClock) -> bool {
    !(c.state is Playing) ==> c.timestamp == c.offset
}

/// The position at clock reading `now`: offset plus elapsed time while
/// playing (saturated; a reading before the start counts as no elapsed
/// time), the offset otherwise.
pub open spec fn position_at(c: PlayerClock, now: u64) -> u64 {
    if c.state is Playing {
        if now <= c.started_at {
            c.offset
        } else if c.offset + (now - c.started_at) <= u64::MAX {
            (c.offset + (now - c.started_at)) as u64
        } else {
            u64::MAX
        }
    } else {
        c.offset
    }
}

impl PlayerClock {
    /// A stopped clock at position zero.
    pub fn new() -> (r: PlayerClock)
        ensures
            r.state is Stopped,
            r.offset == 0,
            r.started_at == 0,
            r.timestamp == 0,
            clock_wf(r),
    {
        PlayerClock { state: PlayerState::Stopped, offset: 0, started_at: 0, timestamp: 0 }
    }

    /// Refreshes the displayed position from the clock reading `now`.
    pub fn tick(&mut self, now: u64)
        ensures
            final(self).state == old(self).state,
            final(self).offset == old(self).offset,
            final(self).started_at == old(self).started_at,
            final(self).timestamp == position_at(*old(self), now),
            clock_wf(*old(self)) ==> clock_wf(*final(self)),
    {
        if matches!(self.state, PlayerState::Playing) {
            if now <= self.started_at {
                self.timestamp = self.offset;
            } else {
                let elapsed = now - self.started_at;
                if self.offset <= u64::MAX - elapsed {
                    self.timestamp = self.offset + elapsed;
                } else {
                    self.timestamp = u64::MAX;
                }
            }
        } else {
            self.timestamp = self.offset;
        }
    }

    /// Starts or resumes playback at clock reading `now`: the position
    /// continues from the current offset. A no-op while already playing.
    pub fn play(&mut self, now: u64)
        ensures
            old(self).state is Playing ==> *final(self) == *old(self),
            !(old(self).state is Playing) ==> *final(self) == (PlayerClock {
                state: PlayerState::Playing,
                offset: old(self).timestamp,
                started_at: now,
                timestamp: old(self).timestamp,
            }),
            clock_wf(*old(self)) ==> clock_wf(*final(self)),
    {
        if !matches!(self.state, PlayerState::Playing) {
            self.offset = self.timestamp;
            self.started_at = now;
            self.state = PlayerState::Playing;
        }
    }

    /// Pauses playback at clock reading `now`: the position at `now` is
    /// captured as the new offset. A no-op unless playing.
    pub fn pause(&mut self, now: u64)
        ensures
            !(old(self).state is Playing) ==> *final(self) == *old(self),
            old(self).state is Playing ==> *final(self) == (PlayerClock {
                state: PlayerState::Paused,
                offset: position_at(*old(self), now),
                started_at: old(self).started_at,
                timestamp: position_at(*old(self), now),
            }),
            clock_wf(*final(self)) || *final(self) == *old(self),
    {
        if matches!(self.state, PlayerState::Playing) {
            self.tick(now);
            self.offset = self.timestamp;
            self.state = PlayerState::Paused;
        }
    }

    /// Stops playback and returns the position to zero.
    pub fn reset(&mut self)
        ensures
            final(self).state is Stopped,
            final(self).offset == 0,
            final(self).started_at == 0,
            final(self).timestamp == 0,
            clock_wf(*final(self)),
    {
        self.state = PlayerState::Stopped;
        self.offset = 0;
        self.started_at = 0;
        self.timestamp = 0;
    }

    /// Scrubs to position `to` at clock reading `now`. While playing the
    /// offset is rebased to `now`, so the position keeps advancing from
    /// `to` without a jump; otherwise the clock simply sits at `to`.
    pub fn scrub(&mut self, to: u64, now: u64)
        ensures
            final(self).state == old(self).state,
            final(self).offset == to,
            final(self).timestamp == to,
            old(self).state is Playing ==> final(self).started_at == now,
            !(old(self).state is Playing) ==> final(self).started_at == old(self).started_at,
            position_at(*final(self), now) == to,
            clock_wf(*final(self)),
    {
        self.offset = to;
        self.timestamp = to;
        if matches!(self.state, PlayerState::Playing) {
            self.started_at = now;
        }
    }
}

} // verus!
