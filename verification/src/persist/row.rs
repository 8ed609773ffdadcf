//! The persisted form of an event.

use vstd::prelude::*;

use crate::context::Context;
use crate::event::Event;

verus! {

/// A single persisted event row, combining the `Event` fields with the
/// inherited `Context` fields into one flat record.
///
/// This is the logical schema both for the Parquet row layout and for the
/// in-memory representation returned by queries.
#[derive(Debug, Clone, Copy, PartialEq, Eq)]
pub struct PersistedEvent {
    pub vessel_id: u32,
    pub event_type: u16,
    pub event_time: i64,
    pub source_id: u16,
    pub seq: u32,
    pub fix_time: i64,
    pub lat_e7: i32,
    pub lon_e7: i32,
    pub hacc_cm: u16,
    pub clock_quality: u8,
}

impl PersistedEvent {
    /// The row of an event under a context.
    pub open spec fn spec_from_event(event: Event, ctx: Context) -> PersistedEvent {
        PersistedEvent {
            vessel_id: ctx.vessel_id,
            event_type: event.event_type,
            event_time: event.event_time,
            source_id: event.source_id,
            seq: event.seq,
            fix_time: ctx.fix_time,
            lat_e7: ctx.lat_e7,
            lon_e7: ctx.lon_e7,
            hacc_cm: ctx.hacc_cm,
            clock_quality: ctx.clock_quality,
        }
    }

    /// Flatten a decoded `Event` together with its resolved `Context` into a
    /// persisted row.
    pub fn from_event(event: &Event, ctx: Context) -> (res: Self)
        ensures
            res == Self::spec_from_event(*event, ctx),
            res.vessel_id == ctx.vessel_id,
            res.event_type == event.event_type,
            res.event_time == event.event_time,
            res.source_id == event.source_id,
            res.seq == event.seq,
            res.fix_time == ctx.fix_time,
            res.lat_e7 == ctx.lat_e7,
            res.lon_e7 == ctx.lon_e7,
            res.hacc_cm == ctx.hacc_cm,
            res.clock_quality == ctx.clock_quality,
    {
        Self {
            vessel_id: ctx.vessel_id,
            event_type: event.event_type,
            event_time: event.event_time,
            source_id: event.source_id,
            seq: event.seq,
            fix_time: ctx.fix_time,
            lat_e7: ctx.lat_e7,
            lon_e7: ctx.lon_e7,
            hacc_cm: ctx.hacc_cm,
            clock_quality: ctx.clock_quality,
        }
    }
}

/// The row of an event has the type, the time, the source and the number of the event,
/// and the vessel, the fix, the position, its accuracy and the clock of the context, each
/// just as it is there.
pub proof fn law_row_carries_every_field(event: Event, ctx: Context)
    ensures
        ({
            let row = PersistedEvent::spec_from_event(event, ctx);
            &&& row.vessel_id == ctx.vessel_id
            &&& row.event_type == event.event_type
            &&& row.event_time == event.event_time
            &&& row.source_id == event.source_id
            &&& row.seq == event.seq
            &&& row.fix_time == ctx.fix_time
            &&& row.lat_e7 == ctx.lat_e7
            &&& row.lon_e7 == ctx.lon_e7
            &&& row.hacc_cm == ctx.hacc_cm
            &&& row.clock_quality == ctx.clock_quality
        }),
{
}

} // verus!
