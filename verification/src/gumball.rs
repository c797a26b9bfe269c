//! A gumball machine in the state pattern: one struct per state, each
//! deciding what the machine's actions do to its quarter slot and inventory.
//! Turning the crank with a quarter in draws a lot: one customer in ten wins
//! a second gumball.

use vstd::prelude::*;
use rand::Rng;

verus! {

/// The machine's states.
#[derive(Debug, Clone, Copy, PartialEq, Eq, Structural)]
pub enum GumballMachineState {
    NoQuarter,
    HasQuarter,
    GumballSold,
    OutOfGumballs,
    Winner,
}

/// The machine: its gumball inventory and its state.
#[derive(Debug)]
pub struct GumballMachine {
    pub count: i32,
    pub state: GumballMachineState,
}

/// The inventory after releasing one ball: one fewer while any are left.
pub open spec fn spec_release(c: int) -> int {
    if c > 0 {
        c - 1
    } else {
        c
    }
}

/// The state the machine settles in after dispensing: ready for the next
/// quarter while balls remain, out of gumballs otherwise.
pub open spec fn spec_state_for(c: int) -> GumballMachineState {
    if c > 0 {
        GumballMachineState::NoQuarter
    } else {
        GumballMachineState::OutOfGumballs
    }
}

/// What dispensing does for each state: a sold ball releases one gumball, a
/// winning ball releases up to two, and every other state dispenses nothing.
pub open spec fn spec_dispense(s: GumballMachineState, c: int) -> (GumballMachineState, int) {
    match s {
        GumballMachineState::GumballSold => (spec_state_for(spec_release(c)), spec_release(c)),
        GumballMachineState::Winner => (
            spec_state_for(spec_release(spec_release(c))),
            spec_release(spec_release(c)),
        ),
        _ => (s, c),
    }
}

/// Relies on `rand::Rng::gen_range` on the thread-local generator: the
/// result lies in the inclusive range given, here one to ten.
#[verifier::external_body]
fn draw_one_in_ten() -> (r: u8)
    ensures
        1 <= r <= 10,
{
    let mut rng = rand::thread_rng();
    rng.gen_range(1..=10u8)
}

/// Behavior of the machine while waiting for a quarter.
#[derive(Debug, Clone, Copy)]
pub struct NoQuarterState;

/// Behavior of the machine holding a quarter.
#[derive(Debug, Clone, Copy)]
pub struct HasQuarterState;

/// Behavior of the machine right after a winning crank turn.
#[derive(Debug, Clone, Copy)]
pub struct WinnerState;

/// Behavior of the machine right after a paid crank turn.
#[derive(Debug, Clone, Copy)]
pub struct GumballSoldState;

/// Behavior of the machine with nothing left to sell.
#[derive(Debug, Clone, Copy)]
pub struct OutOfGumballsState;

impl NoQuarterState {
    pub fn new() -> (r: Self)
        ensures
            true,
    {
        NoQuarterState {  }
    }

    /// Accepts the quarter.
    pub fn insert_quarter(&self, m: &mut GumballMachine)
        ensures
            final(m).state == GumballMachineState::HasQuarter,
            final(m).count == old(m).count,
    {
        m.set_state(GumballMachineState::HasQuarter);
    }

    /// There is no quarter to eject.
    pub fn eject_quarter(&self, m: &mut GumballMachine)
        ensures
            *final(m) == *old(m),
    {
    }

    /// Turning the crank without a quarter does nothing.
    pub fn turn_crank(&self, m: &mut GumballMachine)
        ensures
            *final(m) == *old(m),
    {
    }

    /// Nothing to dispense without a quarter.
    pub fn dispense(&self, m: &mut GumballMachine)
        ensures
            *final(m) == *old(m),
    {
    }
}

impl HasQuarterState {
    pub fn new() -> (r: Self)
        ensures
            true,
    {
        HasQuarterState {  }
    }

    /// A second quarter is refused.
    pub fn insert_quarter(&self, m: &mut GumballMachine)
        ensures
            *final(m) == *old(m),
    {
    }

    /// Returns the quarter.
    pub fn eject_quarter(&self, m: &mut GumballMachine)
        ensures
            final(m).state == GumballMachineState::NoQuarter,
            final(m).count == old(m).count,
    {
        m.set_state(GumballMachineState::NoQuarter);
    }

    /// Turning the crank draws the lot: one in ten turns wins, the rest are
    /// plain sales. Whatever the draw, the inventory is untouched here.
    pub fn turn_crank(&self, m: &mut GumballMachine)
        ensures
            final(m).count == old(m).count,
            final(m).state == GumballMachineState::Winner || final(m).state
                == GumballMachineState::GumballSold,
    {
        let winner = draw_one_in_ten();
        if winner == 1 {
            m.set_state(GumballMachineState::Winner);
        } else {
            m.set_state(GumballMachineState::GumballSold);
        }
    }

    /// Nothing to dispense before the crank is turned.
    pub fn dispense(&self, m: &mut GumballMachine)
        ensures
            *final(m) == *old(m),
    {
    }
}

impl GumballSoldState {
    pub fn new() -> (r: Self)
        ensures
            true,
    {
        GumballSoldState {  }
    }

    /// No quarter is taken until the ball is out.
    pub fn insert_quarter(&self, m: &mut GumballMachine)
        ensures
            *final(m) == *old(m),
    {
    }

    /// The quarter is already spent.
    pub fn eject_quarter(&self, m: &mut GumballMachine)
        ensures
            *final(m) == *old(m),
    {
    }

    /// The crank is already turned.
    pub fn turn_crank(&self, m: &mut GumballMachine)
        ensures
            *final(m) == *old(m),
    {
    }

    /// Releases the sold gumball and settles the machine by what is left.
    pub fn dispense(&self, m: &mut GumballMachine)
        ensures
            final(m).count as int == spec_release(old(m).count as int),
            final(m).state == spec_state_for(final(m).count as int),
    {
        m.release_ball();
        if m.count > 0 {
            m.set_state(GumballMachineState::NoQuarter);
        } else {
            m.set_state(GumballMachineState::OutOfGumballs);
        }
    }
}

impl WinnerState {
    pub fn new() -> (r: Self)
        ensures
            true,
    {
        WinnerState {  }
    }

    /// No quarter is taken until the balls are out.
    pub fn insert_quarter(&self, m: &mut GumballMachine)
        ensures
            *final(m) == *old(m),
    {
    }

    /// The quarter is already spent.
    pub fn eject_quarter(&self, m: &mut GumballMachine)
        ensures
            *final(m) == *old(m),
    {
    }

    /// The crank is already turned.
    pub fn turn_crank(&self, m: &mut GumballMachine)
        ensures
            *final(m) == *old(m),
    {
    }

    /// Releases the won pair of gumballs, or what is left of them, and
    /// settles the machine by what remains.
    pub fn dispense(&self, m: &mut GumballMachine)
        ensures
            final(m).count as int == spec_release(spec_release(old(m).count as int)),
            final(m).state == spec_state_for(final(m).count as int),
    {
        m.release_ball();
        if m.count > 0 {
            m.release_ball();
        }
        if m.count > 0 {
            m.set_state(GumballMachineState::NoQuarter);
        } else {
            m.set_state(GumballMachineState::OutOfGumballs);
        }
    }
}

impl OutOfGumballsState {
    pub fn new() -> (r: Self)
        ensures
            true,
    {
        OutOfGumballsState {  }
    }

    /// An empty machine takes no quarter.
    pub fn insert_quarter(&self, m: &mut GumballMachine)
        ensures
            *final(m) == *old(m),
    {
    }

    /// An empty machine holds no quarter.
    pub fn eject_quarter(&self, m: &mut GumballMachine)
        ensures
            *final(m) == *old(m),
    {
    }

    /// An empty machine sells nothing.
    pub fn turn_crank(&self, m: &mut GumballMachine)
        ensures
            *final(m) == *old(m),
    {
    }

    /// An empty machine dispenses nothing.
    pub fn dispense(&self, m: &mut GumballMachine)
        ensures
            *final(m) == *old(m),
    {
    }
}

impl GumballMachine {
    /// A machine loaded with an initial inventory: ready for a quarter when
    /// it has anything to sell.
    pub fn new(count: i32) -> (r: Self)
        ensures
            r.count == count,
            r.state == if count > 0 {
                GumballMachineState::NoQuarter
            } else {
                GumballMachineState::OutOfGumballs
            },
    {
        if count > 0 {
            GumballMachine { count: count, state: GumballMachineState::NoQuarter }
        } else {
            GumballMachine { count: count, state: GumballMachineState::OutOfGumballs }
        }
    }

    /// Moves the machine to the given state.
    pub fn set_state(&mut self, s: GumballMachineState)
        ensures
            final(self).state == s,
            final(self).count == old(self).count,
    {
        self.state = s;
    }

    /// Lets one gumball out while any are left.
    pub fn release_ball(&mut self)
        ensures
            final(self).count as int == spec_release(old(self).count as int),
            final(self).state == old(self).state,
    {
        if self.count > 0 {
            self.count = self.count - 1;
        }
    }

    /// A quarter goes in: accepted only while the machine waits for one.
    pub fn insert_quarter(&mut self)
        ensures
            final(self).count == old(self).count,
            final(self).state == if old(self).state == GumballMachineState::NoQuarter {
                GumballMachineState::HasQuarter
            } else {
                old(self).state
            },
    {
        match self.state {
            GumballMachineState::NoQuarter => NoQuarterState::new().insert_quarter(self),
            GumballMachineState::HasQuarter => HasQuarterState::new().insert_quarter(self),
            GumballMachineState::GumballSold => GumballSoldState::new().insert_quarter(self),
            GumballMachineState::OutOfGumballs => OutOfGumballsState::new().insert_quarter(self),
            GumballMachineState::Winner => WinnerState::new().insert_quarter(self),
        }
    }

    /// The quarter comes back out: only one held in the slot can.
    pub fn eject_quarter(&mut self)
        ensures
            final(self).count == old(self).count,
            final(self).state == if old(self).state == GumballMachineState::HasQuarter {
                GumballMachineState::NoQuarter
            } else {
                old(self).state
            },
    {
        match self.state {
            GumballMachineState::NoQuarter => NoQuarterState::new().eject_quarter(self),
            GumballMachineState::HasQuarter => HasQuarterState::new().eject_quarter(self),
            GumballMachineState::GumballSold => GumballSoldState::new().eject_quarter(self),
            GumballMachineState::OutOfGumballs => OutOfGumballsState::new().eject_quarter(self),
            GumballMachineState::Winner => WinnerState::new().eject_quarter(self),
        }
    }

    /// Turns the crank and lets the machine dispense. With a quarter in, the
    /// drawn lot decides between a plain sale and a winning double; either
    /// way the machine then dispenses and settles by its remaining count.
    pub fn turn_crank(&mut self)
        ensures
            old(self).state == GumballMachineState::HasQuarter ==> ({
                let sold = spec_dispense(GumballMachineState::GumballSold, old(self).count as int);
                let won = spec_dispense(GumballMachineState::Winner, old(self).count as int);
                (final(self).state, final(self).count as int) == sold || (
                final(self).state,
                final(self).count as int,
                ) == won
            }),
            old(self).state != GumballMachineState::HasQuarter ==> (
            final(self).state,
            final(self).count as int,
            ) == spec_dispense(old(self).state, old(self).count as int),
    {
        match self.state {
            GumballMachineState::NoQuarter => NoQuarterState::new().turn_crank(self),
            GumballMachineState::HasQuarter => HasQuarterState::new().turn_crank(self),
            GumballMachineState::GumballSold => GumballSoldState::new().turn_crank(self),
            GumballMachineState::OutOfGumballs => OutOfGumballsState::new().turn_crank(self),
            GumballMachineState::Winner => WinnerState::new().turn_crank(self),
        }
        match self.state {
            GumballMachineState::NoQuarter => NoQuarterState::new().dispense(self),
            GumballMachineState::HasQuarter => HasQuarterState::new().dispense(self),
            GumballMachineState::GumballSold => GumballSoldState::new().dispense(self),
            GumballMachineState::OutOfGumballs => OutOfGumballsState::new().dispense(self),
            GumballMachineState::Winner => WinnerState::new().dispense(self),
        }
    }
}

} // verus!
