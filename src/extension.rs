//! The extension role: passive until selected and given an ID, then answering the controller's
//! commands. The decisions are here; whoever drives the serial line and the pins performs them.

use vstd::prelude::*;

use crate::options::{ConfigOption, DataPoint, OptionsIter};
use crate::packet::{Packet, PacketData, ReceiverID};
use crate::VERSION;

verus! {

/// An extension board that has been given its ID.
pub struct Extension {
    /// The ID of the extension
    id: u8,
}

#[derive(Debug, PartialEq, Eq)]
pub enum ExtensionInitError<RE> {
    ReadyError(RE),
    ReadingSerial,
    WritingSerial,
}

/// What to do with a packet read while waiting for an ID.
#[derive(Debug, PartialEq, Eq)]
pub enum InitStep {
    /// Read the next packet
    Ignore,
    /// Send this packet, then read the next one
    Reply(Packet),
    /// Take this ID, acknowledge it, and start running
    Assigned(u8),
}

/// What to do with a packet read while running.
#[derive(Debug, PartialEq, Eq)]
pub enum RunStep {
    /// Read the next packet
    Ignore,
    /// Send this packet
    Reply(Packet),
    /// Hand this data point to the configuration callback, then send an acknowledgement
    Configure(DataPoint),
    /// Sample the metrics callback and send them with `metrics_response`
    Metrics,
    /// Send the configuration options with `options_response`
    ConfigureOptions,
    /// Lower the ready line and stop
    Restart,
}

/// The reply of an extension that is present but has no ID yet.
pub open spec fn uninitialised_reply(p: Packet) -> bool {
    &&& p.protocol_version == VERSION
    &&& p.receiver == ReceiverID::Controller
    &&& p.data == (PacketData::InitProbeResponse { status: false, id: None })
}

/// A packet of this version to the controller carrying `d`.
pub open spec fn reply_with(p: Packet, d: PacketData) -> bool {
    &&& p.protocol_version == VERSION
    &&& p.receiver == ReceiverID::Controller
    &&& p.data == d
}

/// Decides on a packet read before the extension has an ID: only packets to everyone, while
/// the select line is high, count. A probe is answered as present but not initialised; an
/// `Init` gives the ID.
pub fn init_step(selected: bool, packet: &Packet) -> (r: InitStep)
    ensures
        !(selected && packet.receiver == ReceiverID::Everyone) ==> r is Ignore,
        selected && packet.receiver == ReceiverID::Everyone ==> match packet.data {
            PacketData::InitProbe => r matches InitStep::Reply(p) && uninitialised_reply(p),
            PacketData::Init { id } => r == InitStep::Assigned(id),
            _ => r is Ignore,
        },
{
    if !selected || packet.receiver != ReceiverID::Everyone {
        return InitStep::Ignore;
    }
    match packet.data {
        PacketData::InitProbe => InitStep::Reply(
            Packet {
                protocol_version: VERSION,
                receiver: ReceiverID::Controller,
                data: PacketData::InitProbeResponse { status: false, id: None },
            },
        ),
        PacketData::Init { id } => InitStep::Assigned(id),
        _ => InitStep::Ignore,
    }
}

impl Extension {
    pub closed spec fn spec_id(&self) -> u8 {
        self.id
    }

    /// The extension that was given `id`.
    pub fn new(id: u8) -> (r: Extension)
        ensures
            r.spec_id() == id,
    {
        Extension { id }
    }

    /// The ID of the extension.
    pub fn id(&self) -> (r: u8)
        ensures
            r == self.spec_id(),
    {
        self.id
    }

    /// Whether a packet to `receiver` is meant for this extension: to everyone while selected,
    /// or to its own ID.
    pub open spec fn spec_accepts(&self, selected: bool, receiver: ReceiverID) -> bool {
        ||| selected && receiver == ReceiverID::Everyone
        ||| receiver == ReceiverID::ID(self.spec_id())
    }

    /// Decides on a packet read while running; each accepted packet gets at most one reply.
    pub fn run_step(&self, selected: bool, packet: Packet) -> (r: RunStep)
        ensures
            !self.spec_accepts(selected, packet.receiver) ==> r is Ignore,
            self.spec_accepts(selected, packet.receiver) ==> match packet.data {
                PacketData::InitProbe => r matches RunStep::Reply(p) && reply_with(
                    p,
                    PacketData::InitProbeResponse { status: true, id: Some(self.spec_id()) },
                ),
                PacketData::Restart => r is Restart,
                PacketData::Configure { option } => r == RunStep::Configure(option),
                PacketData::Metrics => r is Metrics,
                PacketData::ConfigureOptions => r is ConfigureOptions,
                _ => r matches RunStep::Reply(p) && reply_with(p, PacketData::Error {  }),
            },
    {
        let accepted = (selected && packet.receiver == ReceiverID::Everyone) || packet.receiver
            == ReceiverID::ID(self.id);
        if !accepted {
            return RunStep::Ignore;
        }
        match packet.data {
            PacketData::InitProbe => RunStep::Reply(
                Packet {
                    protocol_version: VERSION,
                    receiver: ReceiverID::Controller,
                    data: PacketData::InitProbeResponse { status: true, id: Some(self.id) },
                },
            ),
            PacketData::Restart => RunStep::Restart,
            PacketData::Configure { option } => RunStep::Configure(option),
            PacketData::Metrics => RunStep::Metrics,
            PacketData::ConfigureOptions => RunStep::ConfigureOptions,
            _ => RunStep::Reply(
                Packet {
                    protocol_version: VERSION,
                    receiver: ReceiverID::Controller,
                    data: PacketData::Error {  },
                },
            ),
        }
    }

    /// The acknowledgement of a configuration or an assignment.
    pub fn ack_reply(&self) -> (r: Packet)
        ensures
            reply_with(r, PacketData::Acknowledge),
    {
        Packet::ack(ReceiverID::Controller)
    }

    /// The reply to a metrics request, carrying the sampled data points.
    pub fn metrics_response(&self, metrics: Vec<DataPoint>) -> (r: Packet)
        ensures
            reply_with(r, PacketData::MetricsResponse { metrics: OptionsIter::Fixed { data: metrics, index: 0 } }),
    {
        Packet {
            protocol_version: VERSION,
            receiver: ReceiverID::Controller,
            data: PacketData::MetricsResponse { metrics: OptionsIter::from(metrics) },
        }
    }

    /// The reply to a request for the configuration options, carrying the board's options.
    pub fn options_response(&self, options: Vec<ConfigOption>) -> (r: Packet)
        ensures
            reply_with(r, PacketData::ConfigureOptionsResponse { options: OptionsIter::Fixed { data: options, index: 0 } }),
    {
        Packet {
            protocol_version: VERSION,
            receiver: ReceiverID::Controller,
            data: PacketData::ConfigureOptionsResponse { options: OptionsIter::from(options) },
        }
    }
}

} // verus!
