use vstd::prelude::*;

verus! {

/// Armed, or tripped for a reason.
#[derive(Debug, Clone, PartialEq)]
pub enum KillSwitchState {
    Armed,
    Tripped { reason: String },
}

/// Stays tripped until it is reset with a reason; it never heals by itself.
#[derive(Debug, Clone)]
pub struct KillSwitch {
    state: KillSwitchState,
}

impl View for KillSwitch {
    type V = KillSwitchState;

    closed spec fn view(&self) -> KillSwitchState {
        self.state
    }
}

impl Default for KillSwitch {
    fn default() -> (r: Self)
        ensures
            r@ is Armed,
    {
        KillSwitch { state: KillSwitchState::Armed }
    }
}

impl KillSwitch {
    /// An armed switch.
    pub fn new() -> (r: Self)
        ensures
            r@ is Armed,
    {
        KillSwitch { state: KillSwitchState::Armed }
    }

    /// Trips the switch. A tripped switch takes the new reason.
    pub fn trip(&mut self, reason: String)
        ensures
            final(self)@ == (KillSwitchState::Tripped { reason }),
    {
        self.state = KillSwitchState::Tripped { reason };
    }

    pub fn is_tripped(&self) -> (r: bool)
        ensures
            r == (self@ is Tripped),
    {
        match &self.state {
            KillSwitchState::Tripped { .. } => true,
            KillSwitchState::Armed => false,
        }
    }

    pub fn state(&self) -> (r: &KillSwitchState)
        ensures
            *r == self@,
    {
        &self.state
    }

    /// Arms the switch again. The reason is for the caller's audit trail; the
    /// switch keeps none of it.
    pub fn reset(&mut self, reset_reason: String)
        ensures
            final(self)@ is Armed,
    {
        let _ = reset_reason;
        self.state = KillSwitchState::Armed;
    }
}

} // verus!
