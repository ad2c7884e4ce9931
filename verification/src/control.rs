use vstd::prelude::*;

verus! {

/// What the controller is doing: heating up towards the goal temperature,
/// or holding it.
#[derive(Clone, Copy, Debug, PartialEq, Eq, Structural)]
pub enum State {
    Heating,
    Holding,
}

impl State {
    /// The text shown for the state.
    pub open spec fn label(self) -> Seq<char> {
        match self {
            State::Heating => "HEATING"@,
            State::Holding => "HOLDING"@,
        }
    }

    /// The state after one control step, given whether the temperature
    /// projected a few seconds ahead at the current power reaches the goal:
    /// heating switches to holding once it does, and holding stays holding.
    pub open spec fn next(self, projected_at_goal: bool) -> State {
        match self {
            State::Heating => if projected_at_goal {
                State::Holding
            } else {
                State::Heating
            },
            State::Holding => State::Holding,
        }
    }

    pub fn name(&self) -> (r: &'static str)
        ensures
            r@ == self.label(),
    {
        match self {
            State::Heating => "HEATING",
            State::Holding => "HOLDING",
        }
    }

    /// The state after one control step (see `next`).
    pub fn step(&self, projected_at_goal: bool) -> (r: State)
        ensures
            r == self.next(projected_at_goal),
    {
        match self {
            State::Heating => if projected_at_goal {
                State::Holding
            } else {
                State::Heating
            },
            State::Holding => State::Holding,
        }
    }
}

/// Once holding, the controller holds whatever the projections say.
pub proof fn lemma_holding_is_final(s: State, projected_at_goal: bool)
    requires
        s == State::Holding,
    ensures
        s.next(projected_at_goal) == State::Holding,
{
}

/// Heating switches to holding exactly when the projected temperature
/// reaches the goal, holding stays holding whatever the projection, and the
/// two states are shown with different labels, `HEATING` and `HOLDING`.
pub proof fn lemma_step_switches_at_goal(projected_at_goal: bool)
    ensures
        (State::Heating.next(projected_at_goal) == State::Holding) == projected_at_goal,
        State::Holding.next(projected_at_goal) == State::Holding,
        State::Heating.label() == "HEATING"@,
        State::Holding.label() == "HOLDING"@,
        State::Heating.label() != State::Holding.label(),
{
    reveal_strlit("HEATING");
    reveal_strlit("HOLDING");
    assert(State::Heating.label()[1] != State::Holding.label()[1]);
}

/// How the time since start-up is shown: whole seconds below a minute,
/// whole minutes from then on, each with its unit letter. The number is
/// truncated to 32 bits.
pub fn elapsed_readout(elapsed_secs: u64) -> (r: (&'static str, u32))
    ensures
        elapsed_secs < 60 ==> r.0@ == "S"@ && r.1 == elapsed_secs as u32,
        elapsed_secs >= 60 ==> r.0@ == "M"@ && r.1 == (elapsed_secs / 60) as u32,
{
    if elapsed_secs < 60 {
        ("S", elapsed_secs as u32)
    } else {
        ("M", (elapsed_secs / 60) as u32)
    }
}

} // verus!
