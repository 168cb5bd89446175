use rack_runtime::options::{ConfigOption, DataPoint, OptionsIter, Value, ValueType};
use rack_runtime::packet::{
    Packet, PacketData, PacketDataParseError, PacketDeserializeError, PacketSerializeError,
    ReceiverID,
};

fn payload(prefix: &[u8]) -> [u8; 253] {
    let mut raw = prefix.to_vec();
    raw.resize_with(253, || 0);
    raw.try_into().unwrap()
}

#[test]
fn packet_data_init_probe() {
    let data = payload(&[0]);

    let result = PacketData::parse(0, &data).expect("Should work");

    assert_eq!(PacketData::InitProbe, result);
}

#[test]
fn packet_data_init_probe_response_false() {
    let data = payload(&[1, 0, 13]);

    let result = PacketData::parse(0, &data).expect("Should work");

    assert_eq!(PacketData::InitProbeResponse { status: false, id: None }, result);
}

#[test]
fn packet_data_init_probe_response_true() {
    let data = payload(&[1, 1, 13]);

    let result = PacketData::parse(0, &data).expect("Should work");

    assert_eq!(PacketData::InitProbeResponse { status: true, id: Some(13) }, result);
}

#[test]
fn packet_data_init() {
    let data = payload(&[2, 123]);

    let result = PacketData::parse(0, &data).expect("Should be parseable");

    assert_eq!(PacketData::Init { id: 123 }, result);
}

#[test]
fn packet_data_acknowledge() {
    let data = payload(&[3]);

    let result = PacketData::parse(0, &data).expect("Should work");

    assert_eq!(PacketData::Acknowledge, result);
}

#[test]
fn packet_metrics_response() {}

#[test]
fn unknown_data_id() {
    assert_eq!(PacketData::parse(0, &payload(&[11])), Err(PacketDataParseError::UnknownID(11)));
    assert_eq!(PacketData::parse(0, &payload(&[200])), Err(PacketDataParseError::UnknownID(200)));
}

#[test]
fn malformed_configure() {
    assert_eq!(PacketData::parse(0, &payload(&[6, 1, b'a', 7, 0])), Err(PacketDataParseError::Malformed));
}

#[test]
fn receiver_bytes() {
    assert_eq!(ReceiverID::from(0x00), ReceiverID::Controller);
    assert_eq!(ReceiverID::from(0xff), ReceiverID::Everyone);
    assert_eq!(ReceiverID::from(13), ReceiverID::ID(13));
    assert_eq!(u8::from(ReceiverID::Controller), 0x00);
    assert_eq!(u8::from(ReceiverID::Everyone), 0xff);
    assert_eq!(u8::from(ReceiverID::ID(13)), 13);
}

#[test]
fn init_probe_frame_is_bit_exact() {
    let frame = Packet::init_probe().serialize().expect("fits");
    let mut expected = [0u8; 256];
    expected[1] = 0xff;
    assert_eq!(frame, expected);
}

#[test]
fn checksum_byte_is_checked() {
    let mut frame = Packet::ack(ReceiverID::Controller).serialize().expect("fits");
    frame[255] = 1;
    assert_eq!(Packet::deserialize(&frame), Err(PacketDeserializeError::Checksum));
}

#[test]
fn unknown_id_frame() {
    let mut frame = [0u8; 256];
    frame[2] = 42;
    assert_eq!(
        Packet::deserialize(&frame),
        Err(PacketDeserializeError::Deserialize(PacketDataParseError::UnknownID(42)))
    );
}

#[test]
fn oversized_payload_is_refused() {
    let metrics: Vec<DataPoint> = (0..30)
        .map(|_| DataPoint { name: b"temperature".to_vec(), value: Value::Pwm { percent: 1 } })
        .collect();
    let p = Packet {
        protocol_version: 0,
        receiver: ReceiverID::Controller,
        data: PacketData::MetricsResponse { metrics: OptionsIter::from(metrics) },
    };
    assert_eq!(p.serialize(), Err(PacketSerializeError::Overflow));
}

#[test]
fn packet_round_trip_every_variant() {
    let datas = vec![
        PacketData::InitProbe,
        PacketData::InitProbeResponse { status: true, id: Some(13) },
        PacketData::InitProbeResponse { status: false, id: None },
        PacketData::Init { id: 7 },
        PacketData::Acknowledge,
        PacketData::Error {},
        PacketData::Restart,
        PacketData::Configure { option: DataPoint { name: b"testing".to_vec(), value: Value::Switch { state: true } } },
        PacketData::Metrics,
        PacketData::MetricsResponse {
            metrics: OptionsIter::from(vec![DataPoint { name: b"t".to_vec(), value: Value::Pwm { percent: 10 } }]),
        },
        PacketData::ConfigureOptions,
        PacketData::ConfigureOptionsResponse {
            options: OptionsIter::from(vec![ConfigOption { name: b"o".to_vec(), ty: ValueType::Pwm }]),
        },
    ];
    for data in datas {
        let p = Packet { protocol_version: 0, receiver: ReceiverID::ID(13), data };
        let frame = p.serialize().expect("fits");
        let back = Packet::deserialize(&frame).expect("reads");
        assert_eq!(back.protocol_version, 0);
        assert_eq!(*back.receiver(), ReceiverID::ID(13));
        assert_eq!(back.serialize().expect("fits"), frame);
    }
}

#[test]
fn configure_name_that_is_not_utf8() {
    assert_eq!(PacketData::parse(0, &payload(&[6, 1, 0xFF, 0, 1])), Err(PacketDataParseError::Malformed));
}
