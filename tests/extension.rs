use rack_runtime::controller::{slot_entry, Controller, CtrlExtension, EnumerationError};
use rack_runtime::extension::{init_step, Extension, InitStep, RunStep};
use rack_runtime::options::{ConfigOption, DataPoint, OptionsIter, Value, ValueType};
use rack_runtime::packet::{Packet, PacketData, ReceiverID};
use rack_runtime::serial::MockSerial;
use rack_runtime::VERSION;

fn frame(prefix: &[u8]) -> [u8; 256] {
    let mut raw = prefix.to_vec();
    raw.resize_with(256, || 0);
    raw.try_into().unwrap()
}

fn to_everyone(data: PacketData) -> [u8; 256] {
    Packet { protocol_version: VERSION, receiver: ReceiverID::Everyone, data }.serialize().unwrap()
}

fn to_id(id: u8, data: PacketData) -> [u8; 256] {
    Packet { protocol_version: VERSION, receiver: ReceiverID::ID(id), data }.serialize().unwrap()
}

fn to_controller(data: PacketData) -> [u8; 256] {
    Packet { protocol_version: VERSION, receiver: ReceiverID::Controller, data }.serialize().unwrap()
}

/// Runs the init phase over the scripted line; `selection` gives the select line at each read.
fn drive_init(serial: &mut MockSerial<256>, selection: &[bool]) -> Option<u8> {
    let mut reads = 0;
    loop {
        let raw = serial.receive()?;
        let packet = Packet::deserialize(&raw).ok()?;
        let selected = selection[reads.min(selection.len() - 1)];
        reads += 1;
        match init_step(selected, &packet) {
            InitStep::Ignore => continue,
            InitStep::Reply(p) => assert!(serial.send(&p.serialize().unwrap())),
            InitStep::Assigned(id) => {
                assert!(serial.send(&Packet::ack(ReceiverID::Controller).serialize().unwrap()));
                return Some(id);
            }
        }
    }
}

/// Runs the command loop until a restart or the end of the script; returns whether it restarted.
fn drive_run(
    ext: &Extension,
    serial: &mut MockSerial<256>,
    metrics: &dyn Fn() -> Vec<DataPoint>,
    configured: &mut Vec<DataPoint>,
    options: &dyn Fn() -> Vec<ConfigOption>,
) -> bool {
    while let Some(raw) = serial.receive() {
        let packet = Packet::deserialize(&raw).unwrap();
        match ext.run_step(false, packet) {
            RunStep::Ignore => {}
            RunStep::Reply(p) => assert!(serial.send(&p.serialize().unwrap())),
            RunStep::Configure(option) => {
                configured.push(option);
                assert!(serial.send(&ext.ack_reply().serialize().unwrap()));
            }
            RunStep::Metrics => {
                assert!(serial.send(&ext.metrics_response(metrics()).serialize().unwrap()))
            }
            RunStep::ConfigureOptions => {
                assert!(serial.send(&ext.options_response(options()).serialize().unwrap()))
            }
            RunStep::Restart => return true,
        }
    }
    false
}

#[test]
fn init_extension_selected() {
    let mut serial = MockSerial::<256>::new();
    serial.read(to_everyone(PacketData::Init { id: 13 }));
    serial.write(to_controller(PacketData::Acknowledge));

    let id = drive_init(&mut serial, &[true]).expect("Should work");

    assert_eq!(13, id);
    assert!(serial.assert_outstanding());
}

#[test]
fn init_extension_unselected_selected() {
    let mut serial = MockSerial::<256>::new();
    serial.read(to_everyone(PacketData::Init { id: 12 }));
    serial.read(to_everyone(PacketData::Init { id: 13 }));
    serial.write(to_controller(PacketData::Acknowledge));

    let id = drive_init(&mut serial, &[false, true]).expect("Should work");

    assert_eq!(13, id);
    assert!(serial.assert_outstanding());
}

#[test]
fn run_restart() {
    let extension = Extension::new(13);
    let mut serial = MockSerial::<256>::new();
    serial.read(to_id(13, PacketData::Restart));

    assert!(drive_run(&extension, &mut serial, &|| vec![], &mut vec![], &|| vec![]));
    assert!(serial.assert_outstanding());
}

#[test]
fn run_configure() {
    let extension = Extension::new(13);
    let mut serial = MockSerial::<256>::new();
    serial.read(to_id(
        13,
        PacketData::Configure {
            option: DataPoint { name: b"testing".to_vec(), value: Value::Switch { state: true } },
        },
    ));
    serial.write(to_controller(PacketData::Acknowledge));
    serial.read(to_id(13, PacketData::Restart));

    let mut configured = vec![];
    assert!(drive_run(&extension, &mut serial, &|| vec![], &mut configured, &|| vec![]));
    assert!(serial.assert_outstanding());
    assert_eq!(configured, vec![DataPoint { name: b"testing".to_vec(), value: Value::Switch { state: true } }]);
}

#[test]
fn run_configure_options() {
    let extension = Extension::new(13);
    let mut serial = MockSerial::<256>::new();
    serial.read(to_id(13, PacketData::ConfigureOptions));
    serial.write(to_controller(PacketData::ConfigureOptionsResponse {
        options: OptionsIter::from(vec![ConfigOption { name: b"testing".to_vec(), ty: ValueType::Switch }]),
    }));
    serial.read(to_id(13, PacketData::Restart));

    let options = || vec![ConfigOption { name: b"testing".to_vec(), ty: ValueType::Switch }];
    assert!(drive_run(&extension, &mut serial, &|| vec![], &mut vec![], &options));
    assert!(serial.assert_outstanding());
}

#[test]
fn run_metrics() {
    let extension = Extension::new(13);
    let mut serial = MockSerial::<256>::new();
    serial.read(to_id(13, PacketData::Metrics));
    serial.write(to_controller(PacketData::MetricsResponse {
        metrics: OptionsIter::from(vec![DataPoint { name: b"testing".to_vec(), value: Value::Pwm { percent: 10 } }]),
    }));
    serial.read(to_id(13, PacketData::Restart));

    let metrics = || vec![DataPoint { name: b"testing".to_vec(), value: Value::Pwm { percent: 10 } }];
    assert!(drive_run(&extension, &mut serial, &metrics, &mut vec![], &|| vec![]));
    assert!(serial.assert_outstanding());
}

#[test]
fn init_probe_handshake_frames() {
    let probe = frame(&[0x00, 0xFF, 0x00]);
    let packet = Packet::deserialize(&probe).unwrap();
    match init_step(true, &packet) {
        InitStep::Reply(p) => assert_eq!(p.serialize().unwrap(), frame(&[0x00, 0x00, 0x01, 0x00, 0x00])),
        _ => panic!("a probe is answered"),
    }
}

#[test]
fn assignment_frames() {
    let init = Packet::deserialize(&frame(&[0x00, 0xFF, 0x02, 0x0D])).unwrap();
    assert_eq!(init_step(true, &init), InitStep::Assigned(13));
    let ext = Extension::new(13);
    assert_eq!(ext.ack_reply().serialize().unwrap(), frame(&[0x00, 0x00, 0x03]));
    let probe = Packet::deserialize(&frame(&[0x00, 0xFF, 0x00])).unwrap();
    match ext.run_step(true, probe) {
        RunStep::Reply(p) => assert_eq!(p.serialize().unwrap(), frame(&[0x00, 0x00, 0x01, 0x01, 0x0D])),
        _ => panic!("a probe is answered"),
    }
}

#[test]
fn configure_frames() {
    let raw = frame(&[0x00, 0x0D, 0x06, 0x07, b't', b'e', b's', b't', b'i', b'n', b'g', 0x00, 0x01]);
    let ext = Extension::new(13);
    let step = ext.run_step(false, Packet::deserialize(&raw).unwrap());
    assert_eq!(
        step,
        RunStep::Configure(DataPoint { name: b"testing".to_vec(), value: Value::Switch { state: true } })
    );
}

#[test]
fn metrics_frames() {
    let raw = frame(&[0x00, 0x0D, 0x07]);
    let ext = Extension::new(13);
    assert_eq!(ext.run_step(false, Packet::deserialize(&raw).unwrap()), RunStep::Metrics);
    let reply = ext.metrics_response(vec![DataPoint { name: b"testing".to_vec(), value: Value::Pwm { percent: 10 } }]);
    assert_eq!(
        reply.serialize().unwrap(),
        frame(&[0x00, 0x00, 0x08, 0x01, 0x07, b't', b'e', b's', b't', b'i', b'n', b'g', 0x01, 0x0A])
    );
}

#[test]
fn configure_options_frames() {
    let raw = frame(&[0x00, 0x0D, 0x09]);
    let ext = Extension::new(13);
    assert_eq!(ext.run_step(false, Packet::deserialize(&raw).unwrap()), RunStep::ConfigureOptions);
    let reply = ext.options_response(vec![ConfigOption { name: b"testing".to_vec(), ty: ValueType::Switch }]);
    assert_eq!(
        reply.serialize().unwrap(),
        frame(&[0x00, 0x00, 0x0A, 0x01, 0x07, b't', b'e', b's', b't', b'i', b'n', b'g', 0x00])
    );
}

#[test]
fn restart_frames() {
    let ext = Extension::new(13);
    assert_eq!(ext.run_step(false, Packet::deserialize(&frame(&[0x00, 0x0D, 0x05])).unwrap()), RunStep::Restart);
}

#[test]
fn packets_for_others_are_ignored() {
    let ext = Extension::new(13);
    assert_eq!(ext.run_step(false, Packet::deserialize(&frame(&[0x00, 0x0C, 0x05])).unwrap()), RunStep::Ignore);
    assert_eq!(ext.run_step(false, Packet::deserialize(&frame(&[0x00, 0xFF, 0x05])).unwrap()), RunStep::Ignore);
    assert_eq!(init_step(false, &Packet::deserialize(&frame(&[0x00, 0xFF, 0x02, 0x0D])).unwrap()), InitStep::Ignore);
}

#[test]
fn unexpected_commands_get_an_error_reply() {
    let ext = Extension::new(13);
    match ext.run_step(false, Packet::deserialize(&frame(&[0x00, 0x0D, 0x03])).unwrap()) {
        RunStep::Reply(p) => assert_eq!(p.serialize().unwrap(), frame(&[0x00, 0x00, 0x04])),
        _ => panic!("answered with an error"),
    }
}

#[test]
fn controller_records_slots() {
    let mut ctrl = Controller::new();
    assert_eq!(ctrl.record(None), Ok(()));
    assert_eq!(ctrl.record(Some(&PacketData::InitProbeResponse { status: true, id: Some(13) })), Ok(()));
    assert_eq!(ctrl.record(Some(&PacketData::InitProbeResponse { status: false, id: None })), Ok(()));
    assert_eq!(ctrl.record(Some(&PacketData::Acknowledge)), Err(EnumerationError::UnexpectedResponse));
    assert_eq!(
        *ctrl.extensions(),
        vec![
            CtrlExtension { id: 0, initialized: false },
            CtrlExtension { id: 13, initialized: true },
            CtrlExtension { id: 2, initialized: false },
        ]
    );
    assert_eq!(slot_entry(5, Some(&PacketData::InitProbeResponse { status: false, id: Some(9) })), Ok(CtrlExtension { id: 5, initialized: false }));
    assert!(Controller::probe().data == PacketData::InitProbe);
}
