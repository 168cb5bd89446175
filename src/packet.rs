//! The 256-byte frame: version, receiver, 253 bytes of payload, checksum byte.

use vstd::prelude::*;

use crate::options::{
    data_point_parse, lemma_list_parse_prefix, lemma_options_round_trip, list_parse,
    options_parse, ConfigOption, DataPoint, OptionsIter, Value, ValueType,
};
use crate::sendable::{splice, tail_from, Sendable};
use crate::VERSION;

verus! {

/// The receiver of a packet.
#[derive(Debug, PartialEq, Eq, Structural, Clone, Copy)]
pub enum ReceiverID {
    /// The controller
    Controller,
    /// Every extension looks at the packet; the one meant is picked by its select line
    Everyone,
    /// Only the extension with this ID reacts to the packet
    ID(u8),
}

/// The byte that names a receiver.
pub open spec fn receiver_byte(r: ReceiverID) -> u8 {
    match r {
        ReceiverID::Controller => 0x00,
        ReceiverID::Everyone => 0xff,
        ReceiverID::ID(id) => id,
    }
}

/// The receiver a byte names.
pub open spec fn receiver_of(b: u8) -> ReceiverID {
    if b == 0x00 {
        ReceiverID::Controller
    } else if b == 0xff {
        ReceiverID::Everyone
    } else {
        ReceiverID::ID(b)
    }
}

/// An ID names an extension only between 1 and 254.
pub open spec fn receiver_in_domain(r: ReceiverID) -> bool {
    r matches ReceiverID::ID(id) ==> 1 <= id <= 254
}

impl From<u8> for ReceiverID {
    fn from(raw: u8) -> Self {
        if raw == 0x00 {
            ReceiverID::Controller
        } else if raw == 0xff {
            ReceiverID::Everyone
        } else {
            ReceiverID::ID(raw)
        }
    }
}

impl vstd::std_specs::convert::FromSpecImpl<u8> for ReceiverID {
    open spec fn obeys_from_spec() -> bool {
        true
    }

    open spec fn from_spec(raw: u8) -> Self {
        receiver_of(raw)
    }
}

impl From<ReceiverID> for u8 {
    fn from(id: ReceiverID) -> Self {
        match id {
            ReceiverID::Controller => 0x00,
            ReceiverID::Everyone => 0xff,
            ReceiverID::ID(id) => id,
        }
    }
}

impl vstd::std_specs::convert::FromSpecImpl<ReceiverID> for u8 {
    open spec fn obeys_from_spec() -> bool {
        true
    }

    open spec fn from_spec(id: ReceiverID) -> Self {
        receiver_byte(id)
    }
}

/// Naming a receiver by its byte and reading the byte back gives the receiver; reading a byte
/// and naming the receiver gives the byte.
pub proof fn lemma_receiver_round_trip(r: ReceiverID, b: u8)
    ensures
        receiver_in_domain(r) ==> receiver_of(receiver_byte(r)) == r,
        receiver_byte(receiver_of(b)) == b,
        receiver_in_domain(receiver_of(b)),
{
}

/// The data a packet carries.
#[derive(Debug, PartialEq, Eq)]
pub enum PacketData {
    InitProbe,
    InitProbeResponse { status: bool, id: Option<u8> },
    Init { id: u8 },
    Acknowledge,
    Error {},
    Restart,
    Configure { option: DataPoint },
    Metrics,
    MetricsResponse { metrics: OptionsIter<DataPoint> },
    ConfigureOptions,
    ConfigureOptionsResponse { options: OptionsIter<ConfigOption> },
}

/// What a packet's data stands for: lists as their items.
pub enum Payload {
    InitProbe,
    InitProbeResponse { status: bool, id: Option<u8> },
    Init { id: u8 },
    Acknowledge,
    Error,
    Restart,
    Configure { name: Seq<u8>, value: Value },
    Metrics,
    MetricsResponse { metrics: Seq<(Seq<u8>, Value)> },
    ConfigureOptions,
    ConfigureOptionsResponse { options: Seq<(Seq<u8>, ValueType)> },
}

/// The error raised while parsing received packet data.
#[derive(Debug, PartialEq, Eq, Structural, Clone, Copy)]
pub enum PacketDataParseError {
    /// The first byte is not a known data ID
    UnknownID(u8),
    /// The bytes after a known ID do not read as that data
    Malformed,
}

/// The error raised when packet data does not fit its frame.
#[derive(Debug, PartialEq, Eq, Structural, Clone, Copy)]
pub enum PacketSerializeError {
    /// A name or list cannot be encoded, or the data is longer than the 253 payload bytes
    Overflow,
}

/// `s` followed by zero bytes up to `n` bytes.
pub open spec fn padded(s: Seq<u8>, n: nat) -> Seq<u8> {
    s + Seq::new((n - s.len()) as nat, |i: int| 0u8)
}

impl PacketData {
    pub open spec fn view(&self) -> Payload {
        match self {
            PacketData::InitProbe => Payload::InitProbe,
            PacketData::InitProbeResponse { status, id } => Payload::InitProbeResponse {
                status: *status,
                id: *id,
            },
            PacketData::Init { id } => Payload::Init { id: *id },
            PacketData::Acknowledge => Payload::Acknowledge,
            PacketData::Error {  } => Payload::Error,
            PacketData::Restart => Payload::Restart,
            PacketData::Configure { option } => Payload::Configure {
                name: option.name@,
                value: option.value,
            },
            PacketData::Metrics => Payload::Metrics,
            PacketData::MetricsResponse { metrics } => Payload::MetricsResponse {
                metrics: metrics.listed(),
            },
            PacketData::ConfigureOptions => Payload::ConfigureOptions,
            PacketData::ConfigureOptionsResponse { options } => Payload::ConfigureOptionsResponse {
                options: options.listed(),
            },
        }
    }

    /// The bytes of the data before padding: its ID, then what the variant carries.
    pub open spec fn wire(&self) -> Seq<u8> {
        match self {
            PacketData::InitProbe => seq![0u8],
            PacketData::InitProbeResponse { status, id } => seq![
                1u8,
                if *status { 1u8 } else { 0u8 },
                match id {
                    Some(i) => *i,
                    None => 0u8,
                },
            ],
            PacketData::Init { id } => seq![2u8, *id],
            PacketData::Acknowledge => seq![3u8],
            PacketData::Error {  } => seq![4u8],
            PacketData::Restart => seq![5u8],
            PacketData::Configure { option } => seq![6u8] + DataPoint::spec_encoding(option@),
            PacketData::Metrics => seq![7u8],
            PacketData::MetricsResponse { metrics } => seq![8u8] + metrics.wire(),
            PacketData::ConfigureOptions => seq![9u8],
            PacketData::ConfigureOptionsResponse { options } => seq![10u8] + options.wire(),
        }
    }

    /// Whether every name and list in the data can be encoded.
    pub open spec fn writable(&self) -> bool {
        match self {
            PacketData::Configure { option } => DataPoint::spec_in_domain(option@),
            PacketData::MetricsResponse { metrics } => metrics.writable(),
            PacketData::ConfigureOptionsResponse { options } => options.writable(),
            _ => true,
        }
    }

    /// Data that reads back as itself: writable, fitting the payload, received lists exactly
    /// their items, and a status that agrees with the presence of an ID.
    pub open spec fn in_domain(&self) -> bool {
        &&& self.writable()
        &&& self.wire().len() <= 253
        &&& match self {
            PacketData::InitProbeResponse { status, id } => *status == id.is_some(),
            PacketData::MetricsResponse { metrics } => metrics.in_domain(),
            PacketData::ConfigureOptionsResponse { options } => options.in_domain(),
            _ => true,
        }
    }
}

/// The items of a list read from the front of `s`.
pub open spec fn listed_items<T: Sendable>(s: Seq<u8>) -> Option<Seq<T::V>> {
    match options_parse::<T>(s) {
        Ok((b, k, _)) => match list_parse::<T>(b, k) {
            Ok((vs, _)) => Some(vs),
            Err(_) => None,
        },
        Err(_) => None,
    }
}

/// Reading packet data from the 253 payload bytes `s`.
pub open spec fn payload_parse(s: Seq<u8>) -> Result<Payload, PacketDataParseError> {
    let id = s[0];
    if id == 0 {
        Ok(Payload::InitProbe)
    } else if id == 1 {
        let status = s[1] != 0;
        Ok(Payload::InitProbeResponse { status, id: if status { Some(s[2]) } else { None } })
    } else if id == 2 {
        Ok(Payload::Init { id: s[1] })
    } else if id == 3 {
        Ok(Payload::Acknowledge)
    } else if id == 4 {
        Ok(Payload::Error)
    } else if id == 5 {
        Ok(Payload::Restart)
    } else if id == 6 {
        match data_point_parse(tail_from(s, 1)) {
            Ok(((name, value), _)) => Ok(Payload::Configure { name, value }),
            Err(_) => Err(PacketDataParseError::Malformed),
        }
    } else if id == 7 {
        Ok(Payload::Metrics)
    } else if id == 8 {
        match listed_items::<DataPoint>(tail_from(s, 1)) {
            Some(metrics) => Ok(Payload::MetricsResponse { metrics }),
            None => Err(PacketDataParseError::Malformed),
        }
    } else if id == 9 {
        Ok(Payload::ConfigureOptions)
    } else if id == 10 {
        match listed_items::<ConfigOption>(tail_from(s, 1)) {
            Some(options) => Ok(Payload::ConfigureOptionsResponse { options }),
            None => Err(PacketDataParseError::Malformed),
        }
    } else {
        Err(PacketDataParseError::UnknownID(id))
    }
}

/// A vector of `n` zero bytes.
fn zeros(n: usize) -> (r: Vec<u8>)
    ensures
        r@ == Seq::new(n as nat, |i: int| 0u8),
{
    let mut r: Vec<u8> = Vec::with_capacity(n);
    let mut i: usize = 0;
    while i < n
        invariant
            i <= n,
            r@ == Seq::new(i as nat, |j: int| 0u8),
        decreases n - i,
    {
        r.push(0);
        i = i + 1;
        assert(r@ =~= Seq::new(i as nat, |j: int| 0u8));
    }
    r
}

/// The 253 bytes of `v` as an array.
fn payload_array(v: &Vec<u8>) -> (r: [u8; 253])
    requires
        v@.len() == 253,
    ensures
        r@ == v@,
{
    let mut r = [0u8; 253];
    let mut i: usize = 0;
    while i < 253
        invariant
            i <= 253,
            v@.len() == 253,
            forall|j: int| 0 <= j < i ==> r@[j] == v@[j],
        decreases 253 - i,
    {
        r[i] = v[i];
        i = i + 1;
    }
    assert(r@ =~= v@);
    r
}

impl PacketData {
    /// Parses the data from the 253 payload bytes of a received packet.
    pub fn parse(prot_version: u8, value: &[u8; 253]) -> (r: Result<PacketData, PacketDataParseError>)
        ensures
            match payload_parse(value@) {
                Ok(p) => r matches Ok(d) && d@ == p,
                Err(e) => r == Err::<PacketData, PacketDataParseError>(e),
            },
    {
        let id = value[0];
        if id == 0 {
            Ok(PacketData::InitProbe)
        } else if id == 1 {
            let status = value[1] != 0;
            let id = if status {
                Some(value[2])
            } else {
                None
            };
            Ok(PacketData::InitProbeResponse { status, id })
        } else if id == 2 {
            Ok(PacketData::Init { id: value[1] })
        } else if id == 3 {
            Ok(PacketData::Acknowledge)
        } else if id == 4 {
            Ok(PacketData::Error {  })
        } else if id == 5 {
            Ok(PacketData::Restart)
        } else if id == 6 {
            match DataPoint::deserialize(value.as_slice(), 1) {
                Ok((option, _)) => Ok(PacketData::Configure { option }),
                Err(_) => Err(PacketDataParseError::Malformed),
            }
        } else if id == 7 {
            Ok(PacketData::Metrics)
        } else if id == 8 {
            match OptionsIter::<DataPoint>::deserialize(value.as_slice(), 1) {
                Ok((metrics, _)) => {
                    proof {
                        let s = tail_from(value@, 1);
                        if let Ok((b, k, n)) = options_parse::<DataPoint>(s) {
                            let body = tail_from(s, 1);
                            lemma_list_parse_prefix::<DataPoint>(body, k, Seq::empty());
                            assert(body.subrange(0, n - 1) + Seq::<u8>::empty() =~= b);
                        }
                    }
                    Ok(PacketData::MetricsResponse { metrics })
                },
                Err(_) => Err(PacketDataParseError::Malformed),
            }
        } else if id == 9 {
            Ok(PacketData::ConfigureOptions)
        } else if id == 10 {
            match OptionsIter::<ConfigOption>::deserialize(value.as_slice(), 1) {
                Ok((options, _)) => {
                    proof {
                        let s = tail_from(value@, 1);
                        if let Ok((b, k, n)) = options_parse::<ConfigOption>(s) {
                            let body = tail_from(s, 1);
                            lemma_list_parse_prefix::<ConfigOption>(body, k, Seq::empty());
                            assert(body.subrange(0, n - 1) + Seq::<u8>::empty() =~= b);
                        }
                    }
                    Ok(PacketData::ConfigureOptionsResponse { options })
                },
                Err(_) => Err(PacketDataParseError::Malformed),
            }
        } else {
            Err(PacketDataParseError::UnknownID(id))
        }
    }

    /// The 253 payload bytes for transmission: the data, then zeros.
    pub fn serialize(&self) -> (r: Result<[u8; 253], PacketSerializeError>)
        ensures
            r is Ok <==> (self.writable() && self.wire().len() <= 253),
            r matches Ok(a) ==> a@ == padded(self.wire(), 253),
    {
        let mut buf = zeros(253);
        let ghost blank = buf@;
        let id: u8 = match self {
            PacketData::InitProbe => 0,
            PacketData::InitProbeResponse { .. } => 1,
            PacketData::Init { .. } => 2,
            PacketData::Acknowledge => 3,
            PacketData::Error {  } => 4,
            PacketData::Restart => 5,
            PacketData::Configure { .. } => 6,
            PacketData::Metrics => 7,
            PacketData::MetricsResponse { .. } => 8,
            PacketData::ConfigureOptions => 9,
            PacketData::ConfigureOptionsResponse { .. } => 10,
        };
        buf.set(0, id);
        let ghost first = buf@;
        match self {
            PacketData::InitProbeResponse { status, id } => {
                buf.set(1, if *status { 1 } else { 0 });
                buf.set(
                    2,
                    match id {
                        Some(i) => *i,
                        None => 0,
                    },
                );
            },
            PacketData::Init { id } => {
                buf.set(1, *id);
            },
            PacketData::Configure { option } => {
                if option.serialize(&mut buf, 1).is_err() {
                    return Err(PacketSerializeError::Overflow);
                }
                assert(buf@ =~= splice(first, 1, DataPoint::spec_encoding(option@)));
            },
            PacketData::MetricsResponse { metrics } => {
                if metrics.serialize(&mut buf, 1).is_err() {
                    return Err(PacketSerializeError::Overflow);
                }
            },
            PacketData::ConfigureOptionsResponse { options } => {
                if options.serialize(&mut buf, 1).is_err() {
                    return Err(PacketSerializeError::Overflow);
                }
            },
            _ => {},
        }
        assert(buf@ =~= padded(self.wire(), 253));
        Ok(payload_array(&buf))
    }
}

/// Reading back the padded bytes of data that is in its domain gives the same data.
pub proof fn lemma_payload_round_trip(d: PacketData)
    requires
        d.in_domain(),
    ensures
        payload_parse(padded(d.wire(), 253)) == Ok::<Payload, PacketDataParseError>(d@),
{
    let s = padded(d.wire(), 253);
    let zs = Seq::new((253 - d.wire().len()) as nat, |i: int| 0u8);
    assert(s[0] == d.wire()[0]);
    match d {
        PacketData::InitProbeResponse { status, id } => {
            assert(s[1] == d.wire()[1]);
            assert(s[2] == d.wire()[2]);
        },
        PacketData::Init { id } => {
            assert(s[1] == d.wire()[1]);
        },
        PacketData::Configure { option } => {
            assert(tail_from(s, 1) =~= DataPoint::spec_encoding(option@) + zs);
            DataPoint::lemma_round_trip(option@, zs);
        },
        PacketData::MetricsResponse { metrics } => {
            assert(tail_from(s, 1) =~= metrics.wire() + zs);
            lemma_options_round_trip::<DataPoint>(metrics, zs);
        },
        PacketData::ConfigureOptionsResponse { options } => {
            assert(tail_from(s, 1) =~= options.wire() + zs);
            lemma_options_round_trip::<ConfigOption>(options, zs);
        },
        _ => {},
    }
}

#[derive(Debug, PartialEq, Eq, Structural, Clone, Copy)]
pub enum PacketDeserializeError {
    Deserialize(PacketDataParseError),
    /// The checksum byte does not match the frame
    Checksum,
}

/// The whole packet.
#[derive(Debug, PartialEq, Eq)]
pub struct Packet {
    pub protocol_version: u8,
    pub receiver: ReceiverID,
    pub data: PacketData,
}

/// The checksum byte of a frame. No checksum algorithm is fixed yet, so the byte is reserved
/// and always zero.
pub open spec fn frame_checksum() -> u8 {
    0
}

/// Reading a packet from its 256 bytes: version, receiver and data.
pub open spec fn packet_parse(s: Seq<u8>) -> Result<(u8, ReceiverID, Payload), PacketDeserializeError> {
    if s[255] != frame_checksum() {
        Err(PacketDeserializeError::Checksum)
    } else {
        match payload_parse(s.subrange(2, 255)) {
            Ok(d) => Ok((s[0], receiver_of(s[1]), d)),
            Err(e) => Err(PacketDeserializeError::Deserialize(e)),
        }
    }
}

impl Packet {
    pub open spec fn view(&self) -> (u8, ReceiverID, Payload) {
        (self.protocol_version, self.receiver, self.data@)
    }

    /// The 256 bytes the packet is sent as.
    pub open spec fn wire(&self) -> Seq<u8> {
        seq![VERSION, receiver_byte(self.receiver)] + padded(self.data.wire(), 253) + seq![
            frame_checksum(),
        ]
    }

    /// A packet of this version, to a receiver that can be named, with data in its domain.
    pub open spec fn in_domain(&self) -> bool {
        &&& self.protocol_version == VERSION
        &&& receiver_in_domain(self.receiver)
        &&& self.data.in_domain()
    }

    /// An init probe to every extension.
    pub fn init_probe() -> (r: Packet)
        ensures
            r.protocol_version == VERSION,
            r.receiver == ReceiverID::Everyone,
            r.data is InitProbe,
    {
        Packet { protocol_version: VERSION, receiver: ReceiverID::Everyone, data: PacketData::InitProbe }
    }

    /// An acknowledgement to the given receiver.
    pub fn ack(recv: ReceiverID) -> (r: Packet)
        ensures
            r.protocol_version == VERSION,
            r.receiver == recv,
            r.data is Acknowledge,
    {
        Packet { protocol_version: VERSION, receiver: recv, data: PacketData::Acknowledge }
    }

    /// Reads a packet from a received frame.
    pub fn deserialize(buffer: &[u8; 256]) -> (r: Result<Packet, PacketDeserializeError>)
        ensures
            match packet_parse(buffer@) {
                Ok(v) => r matches Ok(p) && p@ == v,
                Err(e) => r == Err::<Packet, PacketDeserializeError>(e),
            },
    {
        let protocol_version = buffer[0];
        let raw_receiver_id = buffer[1];
        if buffer[255] != 0 {
            return Err(PacketDeserializeError::Checksum);
        }
        let mut raw_data = [0u8; 253];
        let mut i: usize = 0;
        while i < 253
            invariant
                i <= 253,
                forall|j: int| 0 <= j < i ==> raw_data@[j] == buffer@[j + 2],
            decreases 253 - i,
        {
            raw_data[i] = buffer[i + 2];
            i = i + 1;
        }
        assert(raw_data@ =~= buffer@.subrange(2, 255));
        let receiver = ReceiverID::from(raw_receiver_id);
        match PacketData::parse(protocol_version, &raw_data) {
            Ok(data) => Ok(Packet { protocol_version, receiver, data }),
            Err(e) => Err(PacketDeserializeError::Deserialize(e)),
        }
    }

    /// The frame for transmission, with this library's version.
    pub fn serialize(&self) -> (r: Result<[u8; 256], PacketSerializeError>)
        ensures
            r is Ok <==> (self.data.writable() && self.data.wire().len() <= 253),
            r matches Ok(a) ==> a@ == self.wire(),
    {
        let payload = match self.data.serialize() {
            Ok(p) => p,
            Err(e) => {
                return Err(e);
            },
        };
        let mut buffer = [0u8; 256];
        buffer[0] = VERSION;
        buffer[1] = u8::from(self.receiver);
        let mut i: usize = 0;
        while i < 253
            invariant
                i <= 253,
                buffer@[0] == VERSION,
                buffer@[1] == receiver_byte(self.receiver),
                buffer@[255] == 0,
                forall|j: int| 0 <= j < i ==> buffer@[j + 2] == payload@[j],
            decreases 253 - i,
        {
            buffer[i + 2] = payload[i];
            i = i + 1;
        }
        assert(buffer@ =~= self.wire());
        Ok(buffer)
    }

    /// The receiver of the packet.
    pub fn receiver(&self) -> (r: &ReceiverID)
        ensures
            *r == self.receiver,
    {
        &self.receiver
    }

    /// The data of the packet.
    pub fn data(&self) -> (r: &PacketData)
        ensures
            *r == self.data,
    {
        &self.data
    }
}

/// Reading back the frame of a packet in its domain gives the packet.
pub proof fn lemma_packet_round_trip(p: Packet)
    requires
        p.in_domain(),
    ensures
        packet_parse(p.wire()) == Ok::<(u8, ReceiverID, Payload), PacketDeserializeError>(p@),
{
    let s = p.wire();
    assert(s.subrange(2, 255) =~= padded(p.data.wire(), 253));
    lemma_payload_round_trip(p.data);
}

} // verus!
