//! The probe event envelope: the payload shape the HTTP adapter accepts
//! and the response shape it returns.
//!
//! The engine itself stores the envelope as an opaque value string; the
//! adapter serializes [`ProbeValue`] before calling `set` and rebuilds a
//! [`ProbeResponse`] after `get`.  Assembling those envelopes is pure and
//! lives here; JSON encoding is the embedding binary's concern.

#![allow(non_snake_case)]

use vstd::prelude::*;

verus! {

/// The code of a measure carried by a probe event.
#[derive(Debug, Clone, PartialEq, Eq)]
pub enum MeasureCode {
    SCSED,
    SCSEAA,
    SCSEPA,
    LER,
    PLSE,
    PDL,
}

/// One measurement inside a probe event.
#[derive(Debug, PartialEq, Eq)]
pub struct Message {
    pub measureName: String,
    pub measureCode: MeasureCode,
    pub measureUnit: String,
    pub measureValue: String,
    pub measureValueDescription: String,
    pub measureType: String,
    pub componentReading: String,
}

/// The body of `PUT /probe/{probe_id}/event/{event_id}`.
#[derive(Debug)]
pub struct ProbePayload {
    pub probeId: String,
    pub eventId: String,
    pub messageType: String,
    pub eventTransmissionTime: u128,
    pub messageData: Vec<Message>,
}

/// What the engine stores for a probe, minus the key fields.
#[derive(Debug)]
pub struct ProbeValue {
    pub eventId: String,
    pub messageType: String,
    pub messageData: Vec<Message>,
    pub eventReceivedTime: u128,
}

/// The body returned by both probe endpoints.
#[derive(Debug)]
pub struct ProbeResponse {
    pub probeId: String,
    pub eventId: String,
    pub messageType: String,
    pub eventTransmissionTime: u128,
    pub messageData: Vec<Message>,
    pub eventReceivedTime: u128,
}

/// The stored envelope for an incoming event: the event it answers, the
/// payload's message fields, and the receipt time stamped by the server.
pub fn make_probe_value(event_id: String, payload: ProbePayload, event_received_time: u128) -> (r:
    ProbeValue)
    ensures
        r.eventId == event_id,
        r.messageType == payload.messageType,
        r.messageData == payload.messageData,
        r.eventReceivedTime == event_received_time,
{
    ProbeValue {
        eventId: event_id,
        messageType: payload.messageType,
        messageData: payload.messageData,
        eventReceivedTime: event_received_time,
    }
}

/// The response envelope for a stored value: the probe it belongs to,
/// every field of the stored envelope, and the transmission time the
/// record was ordered by.
pub fn probe_response_from_value(
    probe_id: String,
    value: ProbeValue,
    event_transmission_time: u128,
) -> (r: ProbeResponse)
    ensures
        r.probeId == probe_id,
        r.eventId == value.eventId,
        r.messageType == value.messageType,
        r.eventTransmissionTime == event_transmission_time,
        r.messageData == value.messageData,
        r.eventReceivedTime == value.eventReceivedTime,
{
    ProbeResponse {
        probeId: probe_id,
        eventId: value.eventId,
        messageType: value.messageType,
        eventTransmissionTime: event_transmission_time,
        messageData: value.messageData,
        eventReceivedTime: value.eventReceivedTime,
    }
}

} // verus!
