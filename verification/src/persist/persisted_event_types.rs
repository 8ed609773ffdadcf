//! Event types of persisted sensor events, beside the MIDI-compatible family
//! and the context frame.

use vstd::prelude::*;

verus! {

/// Scalar sensor reading (value carried inline in the event payload).
pub const SCALAR_READING: u16 = 0x0100;

/// Bite-detector trigger.
pub const BITE_TRIGGER: u16 = 0x0101;

/// The numbers of the types of sensor events.
pub proof fn law_sensor_types()
    ensures
        SCALAR_READING == 256,
        BITE_TRIGGER == 257,
{
}

} // verus!
