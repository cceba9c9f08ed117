use vstd::prelude::*;

verus! {

/// The errors of the harness. None of them is recovered from: each one ends
/// the measurement that raised it.
#[derive(Clone, Copy, Debug, PartialEq, Eq, Structural)]
pub enum HarnessError {
    /// The counter-control interface is absent, already claimed or not
    /// accessible.
    Privilege,
    /// A counter slot outside the valid range, or a malformed descriptor.
    Programming,
    /// A code region that leaves a required label undefined.
    Assembly,
    /// A counter that went backwards across one execution.
    CounterWrap,
}

impl HarnessError {
    /// A fixed, descriptive message for the error.
    pub fn message(&self) -> (r: &'static str)
        ensures
            r@ == message_of(*self)@,
    {
        match self {
            HarnessError::Privilege => "counter-control interface unavailable",
            HarnessError::Programming => "invalid counter descriptor",
            HarnessError::Assembly => "code region has an undefined label",
            HarnessError::CounterWrap => "counter went backwards during a sample",
        }
    }
}

/// The message that each error carries.
pub open spec fn message_of(e: HarnessError) -> &'static str {
    match e {
        HarnessError::Privilege => "counter-control interface unavailable",
        HarnessError::Programming => "invalid counter descriptor",
        HarnessError::Assembly => "code region has an undefined label",
        HarnessError::CounterWrap => "counter went backwards during a sample",
    }
}

} // verus!
