use rack_runtime::serial::MockSerial;

#[test]
fn mock_serial_script() {
    let mut s = MockSerial::<4>::new();
    assert!(s.assert_outstanding());
    s.read([1, 2, 3, 4]);
    s.write([5, 6, 7, 8]);
    assert!(!s.assert_outstanding());
    assert_eq!(s.receive(), Some([1, 2, 3, 4]));
    assert_eq!(s.receive(), None);
    assert!(!s.send(&[5, 6, 7, 9]));
    assert!(s.send(&[5, 6, 7, 8]));
    assert!(!s.send(&[5, 6, 7, 8]));
    assert!(s.assert_outstanding());
}

use rack_runtime::executor::Runtime;
use rack_runtime::serial::{SerialNotifier, TxAction, TxMachine, TxPoll};

#[test]
fn transmission_steps() {
    let mut tx = TxMachine::new();
    assert_eq!(tx.action(), TxAction::Start);
    assert_eq!(tx.advance(false), TxPoll::Pending { wake_now: true });
    assert_eq!(tx.action(), TxAction::Start);
    assert_eq!(tx.advance(true), TxPoll::Pending { wake_now: false });
    assert_eq!(tx.action(), TxAction::CheckComplete);
    assert_eq!(tx.advance(false), TxPoll::Pending { wake_now: true });
    assert_eq!(tx.advance(true), TxPoll::Ready);
    assert_eq!(tx.action(), TxAction::Nothing);
    assert_eq!(tx.advance(false), TxPoll::Ready);
}

#[test]
fn notifier_wakes_its_task() {
    let mut rt = Runtime::new(2);
    assert_eq!(rt.poll_next(0), Some(0));
    assert_eq!(rt.poll_next(0), Some(1));
    let mut n: SerialNotifier<usize> = SerialNotifier::new();
    assert_eq!(n.transfer_complete(), None);
    assert!(n.is_complete());
    n.start_transfer();
    assert!(!n.is_complete());
    n.set_waker(1);
    if let Some(task) = n.transfer_complete() {
        rt.wake(task);
    }
    assert!(n.is_complete() && rt.is_woken(1) && !rt.is_woken(0));
}
