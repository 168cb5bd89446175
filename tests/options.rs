use rack_runtime::options::{
    ConfigOption, DataPoint, DataPointDeserializeError, OptionsIter, OptionsIterDeserializeError,
    OptionsIterSerializeError, Value, ValueDeserializeError, ValueType,
};
use rack_runtime::sendable::Sendable;

fn two_options() -> OptionsIter<ConfigOption> {
    OptionsIter::from(vec![
        ConfigOption { name: b"testing1".to_vec(), ty: ValueType::Pwm },
        ConfigOption { name: b"testing2".to_vec(), ty: ValueType::Switch },
    ])
}

#[test]
fn optioniter_serialize_deserialize() {
    let mut fixed_iter = two_options();

    let mut buffer = vec![0u8; 256];

    fixed_iter.serialize(&mut buffer, 0).expect("Should work");

    let (mut deserialized, _) =
        OptionsIter::<ConfigOption>::deserialize(buffer.as_slice(), 0).expect("Should work");

    assert_eq!(fixed_iter.length(), deserialized.length());
    let mut all_equal = true;
    while let (Some(first), Some(second)) = (fixed_iter.next(), deserialized.next()) {
        all_equal = all_equal && first == second;
    }
    assert!(all_equal);
}

#[test]
fn optioniter_serialize_deserialize_serialize() {
    let fixed_iter = two_options();

    let mut buffer = vec![0u8; 256];

    fixed_iter.serialize(&mut buffer, 0).expect("Should work");

    let (deserialized, _) =
        OptionsIter::<ConfigOption>::deserialize(buffer.as_slice(), 0).expect("Should work");

    assert_eq!(fixed_iter.length(), deserialized.length());

    let mut buffer2 = vec![0u8; 256];
    deserialized.serialize(&mut buffer2, 0).expect("Should work");

    assert_eq!(buffer, buffer2);
}

#[test]
fn value_bytes() {
    assert_eq!(Value::Switch { state: true }.serialize(), [0, 1]);
    assert_eq!(Value::Switch { state: false }.serialize(), [0, 0]);
    assert_eq!(Value::Pwm { percent: 10 }.serialize(), [1, 10]);
}

#[test]
fn value_unknown_type() {
    assert_eq!(Value::deserialize(&[7, 1]), Err(ValueDeserializeError::UnknownType(7)));
}

#[test]
fn value_round_trip() {
    for v in [Value::Switch { state: true }, Value::Switch { state: false }, Value::Pwm { percent: 0 }, Value::Pwm { percent: 255 }] {
        assert_eq!(Value::deserialize(&v.serialize()), Ok(v));
    }
}

#[test]
fn data_point_round_trip() {
    let p = DataPoint { name: b"testing".to_vec(), value: Value::Pwm { percent: 10 } };
    let mut buffer = vec![0u8; 20];
    let end = p.serialize(&mut buffer, 0).expect("fits");
    assert_eq!(end, 10);
    assert_eq!(&buffer[..10], &[7, b't', b'e', b's', b't', b'i', b'n', b'g', 1, 10][..]);
    let (back, n) = DataPoint::deserialize(buffer.as_slice(), 0).expect("reads");
    assert_eq!(n, 10);
    assert_eq!(back, p);
}

#[test]
fn data_point_errors() {
    let r = DataPoint::deserialize(&[1, b'a', 9, 0][..], 0);
    assert_eq!(r, Err(DataPointDeserializeError::ValueError(ValueDeserializeError::UnknownType(9))));
    let r = DataPoint::deserialize(&[1, b'a', 0][..], 0);
    assert_eq!(r, Err(DataPointDeserializeError::Other));
}

#[test]
fn config_option_round_trip() {
    let o = ConfigOption { name: b"fan".to_vec(), ty: ValueType::Pwm };
    let mut buffer = vec![0u8; 8];
    assert_eq!(o.serialize(&mut buffer, 2), Ok(7));
    let (back, n) = ConfigOption::deserialize(buffer.as_slice(), 2).expect("reads");
    assert_eq!((back, n), (o, 7));
    assert_eq!(ConfigOption::deserialize(&[1, b'a', 2][..], 0), Err(()));
}

#[test]
fn options_list_round_trip_keeps_items() {
    let metrics = vec![
        DataPoint { name: b"a".to_vec(), value: Value::Switch { state: true } },
        DataPoint { name: b"bb".to_vec(), value: Value::Pwm { percent: 3 } },
    ];
    let list = OptionsIter::from(metrics);
    let mut buffer = vec![0u8; 32];
    let end = list.serialize(&mut buffer, 0).expect("fits");
    let (mut back, n) = OptionsIter::<DataPoint>::deserialize(buffer.as_slice(), 0).expect("reads");
    assert_eq!(n, end);
    assert_eq!(back.length(), 2);
    assert_eq!(back.next(), Some(DataPoint { name: b"a".to_vec(), value: Value::Switch { state: true } }));
    assert_eq!(back.next(), Some(DataPoint { name: b"bb".to_vec(), value: Value::Pwm { percent: 3 } }));
    assert_eq!(back.next(), None);
}

#[test]
fn options_list_errors() {
    let list = two_options();
    let mut empty: Vec<u8> = vec![];
    assert_eq!(list.serialize(&mut empty, 0), Err(OptionsIterSerializeError::EmptyBuffer));
    let mut small = vec![0u8; 5];
    assert_eq!(list.serialize(&mut small, 0), Err(OptionsIterSerializeError::InnerError(())));
    let r = OptionsIter::<ConfigOption>::deserialize(&[][..], 0);
    assert_eq!(r, Err(OptionsIterDeserializeError::EmptyBuffer));
    let r = OptionsIter::<ConfigOption>::deserialize(&[1, 1, b'a', 5][..], 0);
    assert_eq!(r, Err(OptionsIterDeserializeError::InnerError(())));
}

#[test]
fn empty_options_list() {
    let list: OptionsIter<ConfigOption> = OptionsIter::from(vec![]);
    let mut buffer = vec![0u8; 4];
    assert_eq!(list.serialize(&mut buffer, 0), Ok(1));
    let (back, n) = OptionsIter::<ConfigOption>::deserialize(buffer.as_slice(), 0).expect("reads");
    assert_eq!(n, 1);
    assert_eq!(back.length(), 0);
}

#[test]
fn length_counts_items_left() {
    let mut fixed = two_options();
    let mut buffer = vec![0u8; 256];
    fixed.serialize(&mut buffer, 0).unwrap();
    let (mut received, _) = OptionsIter::<ConfigOption>::deserialize(buffer.as_slice(), 0).unwrap();
    for left in [2usize, 1, 0] {
        assert_eq!(fixed.length(), left);
        assert_eq!(received.length(), left);
        fixed.next();
        received.next();
    }
    assert_eq!(fixed.length(), 0);
}
