use vstd::prelude::*;

verus! {

/// One hardware-countable condition. The payload of each variant is the
/// unit mask that qualifies the condition.
#[derive(Clone, Copy, Debug, PartialEq, Eq, Structural)]
pub enum Event {
    /// Software prefetch instructions dispatched.
    LsPrefInstrDisp(u8),
    /// Retired branch instructions.
    ExRetBrn(u8),
    /// Retired mispredicted branch instructions.
    ExRetBrnMisp(u8),
    /// Redirects of the front-end by the decoder.
    BpDeReDirect(u8),
    /// Cycles in which the core is not halted.
    LsNotHaltedCyc(u8),
    /// Micro-ops dispatched from the decoder.
    DeDisOpsFromDecoder(u8),
}

/// The event-selector code of each event.
pub open spec fn selector_of(e: Event) -> u16 {
    match e {
        Event::LsPrefInstrDisp(_) => 0x4b,
        Event::ExRetBrn(_) => 0xc2,
        Event::ExRetBrnMisp(_) => 0xc3,
        Event::BpDeReDirect(_) => 0x91,
        Event::LsNotHaltedCyc(_) => 0x76,
        Event::DeDisOpsFromDecoder(_) => 0xaa,
    }
}

/// The unit mask carried by an event.
pub open spec fn unit_mask_of(e: Event) -> u8 {
    match e {
        Event::LsPrefInstrDisp(m) => m,
        Event::ExRetBrn(m) => m,
        Event::ExRetBrnMisp(m) => m,
        Event::BpDeReDirect(m) => m,
        Event::LsNotHaltedCyc(m) => m,
        Event::DeDisOpsFromDecoder(m) => m,
    }
}

impl Event {
    /// The event-selector code (twelve bits wide on this counter model).
    pub fn selector(&self) -> (r: u16)
        ensures
            r == selector_of(*self),
            r < 0x1000,
    {
        match self {
            Event::LsPrefInstrDisp(_) => 0x4b,
            Event::ExRetBrn(_) => 0xc2,
            Event::ExRetBrnMisp(_) => 0xc3,
            Event::BpDeReDirect(_) => 0x91,
            Event::LsNotHaltedCyc(_) => 0x76,
            Event::DeDisOpsFromDecoder(_) => 0xaa,
        }
    }

    /// The unit mask of the event.
    pub fn unit_mask(&self) -> (r: u8)
        ensures
            r == unit_mask_of(*self),
    {
        match self {
            Event::LsPrefInstrDisp(m) => *m,
            Event::ExRetBrn(m) => *m,
            Event::ExRetBrnMisp(m) => *m,
            Event::BpDeReDirect(m) => *m,
            Event::LsNotHaltedCyc(m) => *m,
            Event::DeDisOpsFromDecoder(m) => *m,
        }
    }

    /// The human-readable name of the event.
    pub fn name(&self) -> (r: &'static str)
        ensures
            r@ == name_of(*self)@,
    {
        match self {
            Event::LsPrefInstrDisp(_) => "LsPrefInstrDisp",
            Event::ExRetBrn(_) => "ExRetBrn",
            Event::ExRetBrnMisp(_) => "ExRetBrnMisp",
            Event::BpDeReDirect(_) => "BpDeReDirect",
            Event::LsNotHaltedCyc(_) => "LsNotHaltedCyc",
            Event::DeDisOpsFromDecoder(_) => "DeDisOpsFromDecoder",
        }
    }
}

/// The name under which each event is shown.
pub open spec fn name_of(e: Event) -> &'static str {
    match e {
        Event::LsPrefInstrDisp(_) => "LsPrefInstrDisp",
        Event::ExRetBrn(_) => "ExRetBrn",
        Event::ExRetBrnMisp(_) => "ExRetBrnMisp",
        Event::BpDeReDirect(_) => "BpDeReDirect",
        Event::LsNotHaltedCyc(_) => "LsNotHaltedCyc",
        Event::DeDisOpsFromDecoder(_) => "DeDisOpsFromDecoder",
    }
}

} // verus!
