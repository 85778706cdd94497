//! Iteration schedules: for a fixed number of internal and external message
//! rounds, which of the two kinds run at each tick.

use vstd::prelude::*;

verus! {

/// How many internal (within one robot's graph) and external (between
/// robots) message-passing rounds a planning cycle holds.
#[derive(Debug, Clone, Copy, PartialEq, Eq, Structural)]
pub struct GbpScheduleParams {
    pub internal: u8,
    pub external: u8,
}

/// Which kinds of rounds run at one tick of a schedule.
#[derive(Debug, Clone, Copy, PartialEq, Eq, Structural)]
pub struct GbpScheduleAtIteration {
    pub internal: bool,
    pub external: bool,
}

/// Number of ticks that a schedule with these counts lasts.
pub open spec fn schedule_len(params: GbpScheduleParams) -> int {
    if params.internal >= params.external {
        params.internal as int
    } else {
        params.external as int
    }
}

/// The flags at tick `i` of the soonest-possible schedule: each kind runs at
/// the first ticks, as many times as it is asked for.
pub open spec fn soon_as_possible_at(params: GbpScheduleParams, i: int) -> GbpScheduleAtIteration {
    GbpScheduleAtIteration { internal: i < params.internal, external: i < params.external }
}

impl GbpScheduleParams {
    /// The larger of the two counts: the length of a schedule.
    pub fn max(&self) -> (r: u8)
        ensures
            r as int == schedule_len(*self),
    {
        if self.internal >= self.external {
            self.internal
        } else {
            self.external
        }
    }
}

/// The policy that runs each kind of round as early as possible.
pub struct SoonAsPossible;

impl SoonAsPossible {
    /// A fresh schedule for `config`, positioned at its first tick.
    pub fn schedule(config: GbpScheduleParams) -> (r: SoonAsPossibleIter)
        ensures
            r.wf(),
            r.params() == config,
            r.position() == 0,
    {
        SoonAsPossibleIter::new(config)
    }
}

/// A cursor over the soonest-possible schedule.
pub struct SoonAsPossibleIter {
    max: u8,
    config: GbpScheduleParams,
    internal: u8,
    external: u8,
    i: u8,
}

impl SoonAsPossibleIter {
    /// The counts the schedule was made with.
    pub closed spec fn params(&self) -> GbpScheduleParams {
        self.config
    }

    /// How many ticks have been handed out.
    pub closed spec fn position(&self) -> int {
        self.i as int
    }

    /// The cursor's counters agree with its position.
    pub closed spec fn wf(&self) -> bool {
        &&& self.max as int == schedule_len(self.config)
        &&& self.i <= self.max
        &&& self.internal as int == if self.i <= self.config.internal {
            self.i as int
        } else {
            self.config.internal as int
        }
        &&& self.external as int == if self.i <= self.config.external {
            self.i as int
        } else {
            self.config.external as int
        }
    }

    /// A fresh schedule for `config`, positioned at its first tick.
    pub fn new(config: GbpScheduleParams) -> (r: Self)
        ensures
            r.wf(),
            r.params() == config,
            r.position() == 0,
    {
        let max = config.max();
        Self { max, config, internal: 0, external: 0, i: 0 }
    }

    /// The flags of the next tick, or `None` once all
    /// `max(internal, external)` ticks have been handed out.
    pub fn next(&mut self) -> (r: Option<GbpScheduleAtIteration>)
        requires
            old(self).wf(),
        ensures
            final(self).wf(),
            final(self).params() == old(self).params(),
            old(self).position() < schedule_len(old(self).params()) ==> {
                &&& r == Some(soon_as_possible_at(old(self).params(), old(self).position()))
                &&& final(self).position() == old(self).position() + 1
            },
            old(self).position() >= schedule_len(old(self).params()) ==> {
                &&& r.is_none()
                &&& final(self).position() == old(self).position()
            },
    {
        if self.i < self.max {
            let mut ts = GbpScheduleAtIteration { internal: false, external: false };
            if self.internal < self.config.internal {
                ts.internal = true;
                self.internal = self.internal + 1;
            }
            if self.external < self.config.external {
                ts.external = true;
                self.external = self.external + 1;
            }
            self.i = self.i + 1;
            Some(ts)
        } else {
            None
        }
    }
}

} // verus!
