use vstd::prelude::*;

verus! {

/// How many world ticks may pass between two scans of the stored ticks.
pub const CHECK_TICK_THRESHOLD: u32 = 518_400_000;

/// The largest age a stored tick may have relative to the world tick.
pub const MAX_CHANGE_AGE: u32 = u32::MAX - (2 * CHECK_TICK_THRESHOLD - 1);

/// The distance from `from` forward to `to`, modulo 2^32.
pub open spec fn tick_distance(to: u32, from: u32) -> u32 {
    if to >= from {
        (to - from) as u32
    } else {
        (to - from + 0x1_0000_0000) as u32
    }
}

/// An age clamped to `MAX_CHANGE_AGE`.
pub open spec fn clamped_age(age: u32) -> u32 {
    if age < MAX_CHANGE_AGE {
        age
    } else {
        MAX_CHANGE_AGE
    }
}

/// Whether a value stamped at `stamp` is newer than the last run of a system
/// that runs now at `this_run`.
pub open spec fn newer_than(stamp: u32, last_run: u32, this_run: u32) -> bool {
    clamped_age(tick_distance(this_run, last_run)) > clamped_age(tick_distance(this_run, stamp))
}

/// A logical timestamp used for change detection.
#[derive(Clone, Copy, Debug, PartialEq, Eq, Hash)]
pub struct Tick {
    pub tick: u32,
}

impl Tick {
    pub fn new(tick: u32) -> (r: Tick)
        ensures
            r.tick == tick,
    {
        Tick { tick }
    }

    /// The tick that stands `MAX_CHANGE_AGE` after zero.
    pub fn max_age() -> (r: Tick)
        ensures
            r.tick == MAX_CHANGE_AGE,
    {
        Tick { tick: MAX_CHANGE_AGE }
    }

    pub fn get(self) -> (r: u32)
        ensures
            r == self.tick,
    {
        self.tick
    }

    pub fn set(&mut self, tick: u32)
        ensures
            final(self).tick == tick,
    {
        self.tick = tick;
    }

    /// Whether this tick lies after `last_run`, seen from `this_run`.
    pub fn is_newer_than(self, last_run: Tick, this_run: Tick) -> (r: bool)
        ensures
            r == newer_than(self.tick, last_run.tick, this_run.tick),
    {
        let since_insert = this_run.relative_to(self).tick;
        let since_insert = if since_insert < MAX_CHANGE_AGE {
            since_insert
        } else {
            MAX_CHANGE_AGE
        };
        let since_system = this_run.relative_to(last_run).tick;
        let since_system = if since_system < MAX_CHANGE_AGE {
            since_system
        } else {
            MAX_CHANGE_AGE
        };
        since_system > since_insert
    }

    /// The wrapping distance from `other` forward to `self`.
    pub fn relative_to(self, other: Tick) -> (r: Tick)
        ensures
            r.tick == tick_distance(self.tick, other.tick),
    {
        Tick { tick: self.tick.wrapping_sub(other.tick) }
    }

    /// Clamps this tick so that its age relative to `tick` does not exceed
    /// `MAX_CHANGE_AGE`; returns whether it had to be clamped.
    pub fn check_tick(&mut self, tick: Tick) -> (r: bool)
        ensures
            r == (tick_distance(tick.tick, old(self).tick) > MAX_CHANGE_AGE),
            r ==> final(self).tick == tick_distance(tick.tick, MAX_CHANGE_AGE),
            !r ==> *final(self) == *old(self),
            tick_distance(tick.tick, final(self).tick) <= MAX_CHANGE_AGE,
            forall|last_run: u32| #[trigger] newer_than(final(self).tick, last_run, tick.tick)
                == newer_than(old(self).tick, last_run, tick.tick),
    {
        let age = tick.relative_to(*self);
        if age.tick > MAX_CHANGE_AGE {
            *self = tick.relative_to(Tick::max_age());
            true
        } else {
            false
        }
    }
}

/// The pair of ticks stored beside each component value.
#[derive(Clone, Copy, Debug, PartialEq, Eq)]
pub struct ComponentTicks {
    pub added: Tick,
    pub changed: Tick,
}

impl ComponentTicks {
    pub fn new(change_tick: Tick) -> (r: ComponentTicks)
        ensures
            r.added == change_tick,
            r.changed == change_tick,
    {
        ComponentTicks { added: change_tick, changed: change_tick }
    }

    pub fn is_added(&self, last_run: Tick, this_run: Tick) -> (r: bool)
        ensures
            r == newer_than(self.added.tick, last_run.tick, this_run.tick),
    {
        self.added.is_newer_than(last_run, this_run)
    }

    pub fn is_changed(&self, last_run: Tick, this_run: Tick) -> (r: bool)
        ensures
            r == newer_than(self.changed.tick, last_run.tick, this_run.tick),
    {
        self.changed.is_newer_than(last_run, this_run)
    }

    pub fn last_changed_tick(&self) -> (r: Tick)
        ensures
            r == self.changed,
    {
        self.changed
    }

    pub fn added_tick(&self) -> (r: Tick)
        ensures
            r == self.added,
    {
        self.added
    }

    pub fn set_changed(&mut self, change_tick: Tick)
        ensures
            final(self).changed == change_tick,
            final(self).added == old(self).added,
    {
        self.changed = change_tick;
    }
}

} // verus!
