use rack_runtime::executor::Runtime;
use rack_runtime::timer::{
    Scale10Ms, Scale1Ms, SlotStorage, TimerHandle, TimerWheel, Timescale, WheelAddError,
};

/// A runtime with one task whose wake bit is down, as after its first poll.
fn quiet_runtime() -> Runtime {
    let mut rt = Runtime::new(1);
    assert_eq!(rt.poll_next(0), Some(0));
    rt
}

#[test]
fn scale_1ms() {
    assert_eq!(1, Scale1Ms::scale_ms(1));
    assert_eq!(2, Scale1Ms::scale_ms(2));
    assert_eq!(3, Scale1Ms::scale_ms(3));
}

#[test]
fn scale_10ms() {
    assert_eq!(0, Scale10Ms::scale_ms(0));
    assert_eq!(1, Scale10Ms::scale_ms(1));
    assert_eq!(1, Scale10Ms::scale_ms(9));
    assert_eq!(1, Scale10Ms::scale_ms(10));
    assert_eq!(2, Scale10Ms::scale_ms(11));
}

#[test]
fn storage_add_waker() {
    let mut storage = SlotStorage::<2>::new();

    assert_eq!(Ok(0), storage.add_waker(0));
}

#[test]
fn storage_add_wakers_full() {
    let mut storage = SlotStorage::<2>::new();

    assert_eq!(Ok(0), storage.add_waker(0));
    assert_eq!(Ok(1), storage.add_waker(0));
    assert_eq!(Err(()), storage.add_waker(0));
}

#[test]
fn storage_take_waker() {
    let mut storage = SlotStorage::<2>::new();

    assert_eq!(Ok(0), storage.add_waker(0));

    assert!(storage.take_slot(0).is_some());

    assert_eq!(Ok(1), storage.add_waker(0));
}

#[test]
fn add_0ms_timer1() {
    let mut timer = TimerWheel::<Scale1Ms>::new();
    let mut rt = quiet_runtime();

    let handle_res = timer.add_ms(0, 0, &mut rt).unwrap();
    assert!(matches!(handle_res, TimerHandle::Fired));

    assert!(rt.is_woken(0));
}

#[test]
fn add_1ms_timer1() {
    let mut timer = TimerWheel::<Scale1Ms>::new();
    let mut rt = quiet_runtime();

    let handle_res = timer.add_ms(1, 0, &mut rt).unwrap();
    assert!(matches!(handle_res, TimerHandle::Registered { .. }));
    assert!(!rt.is_woken(0));
}

#[test]
fn timer1_add_tick() {
    let mut timer = TimerWheel::<Scale1Ms>::new();
    let mut rt = quiet_runtime();

    let handle_res = timer.add_ms(1, 0, &mut rt).unwrap();
    assert!(matches!(handle_res, TimerHandle::Registered { .. }));
    assert!(!rt.is_woken(0));

    timer.tick(&mut rt);

    assert!(rt.is_woken(0));
}

#[test]
fn sleep_future_1ms() {
    let mut timer = TimerWheel::<Scale1Ms>::new();
    let mut rt = quiet_runtime();

    let mut sleep_fut = timer.sleep_ms(2);

    assert_eq!(sleep_fut.poll(&mut timer, &mut rt, 0), None);
    assert!(!rt.is_woken(0));

    timer.tick(&mut rt);

    assert_eq!(sleep_fut.poll(&mut timer, &mut rt, 0), None);
    assert!(!rt.is_woken(0));

    timer.tick(&mut rt);

    assert_eq!(sleep_fut.poll(&mut timer, &mut rt, 0), Some(Ok(())));
    assert!(rt.is_woken(0));
}

#[test]
fn sleep_future_10ms() {
    let mut timer = TimerWheel::<Scale10Ms>::new();
    let mut rt = quiet_runtime();

    let mut sleep_fut = timer.sleep_ms(250);

    for _ in 0..24 {
        assert_eq!(sleep_fut.poll(&mut timer, &mut rt, 0), None);
        assert!(!rt.is_woken(0));

        timer.tick(&mut rt);
    }

    assert_eq!(sleep_fut.poll(&mut timer, &mut rt, 0), None);
    assert!(!rt.is_woken(0));

    timer.tick(&mut rt);

    assert_eq!(sleep_fut.poll(&mut timer, &mut rt, 0), Some(Ok(())));
    assert!(rt.is_woken(0));
}

#[test]
fn out_of_range_and_full() {
    let mut timer = TimerWheel::<Scale1Ms>::new();
    let mut rt = quiet_runtime();
    assert_eq!(timer.add_ms(33, 0, &mut rt), Err(WheelAddError::OutOfRange));
    // a timer 5 ticks ahead may be placed 5 to 32 ticks ahead: 28 buckets
    for _ in 0..28 {
        assert!(timer.add_ms(5, 0, &mut rt).is_ok());
    }
    // slots are left, but every bucket within one turn of the wheel is taken
    assert_eq!(timer.add_ms(5, 0, &mut rt), Err(WheelAddError::Full));
}

#[test]
fn whole_turn_timer_fires_on_the_32nd_tick() {
    let mut timer = TimerWheel::<Scale1Ms>::new();
    let mut rt = quiet_runtime();
    let handle = timer.add_ms(32, 0, &mut rt).unwrap();
    assert!(matches!(handle, TimerHandle::Registered { .. }));
    for _ in 0..31 {
        timer.tick(&mut rt);
        assert!(!rt.is_woken(0));
    }
    timer.tick(&mut rt);
    assert!(rt.is_woken(0) && timer.is_fired(&handle));
}

#[test]
fn collision_never_fires_early() {
    let mut timer = TimerWheel::<Scale1Ms>::new();
    let mut rt = quiet_runtime();
    assert!(timer.add_ms(31, 0, &mut rt).is_ok());
    assert!(timer.add_ms(31, 0, &mut rt).is_ok());
    assert_eq!(timer.add_ms(31, 0, &mut rt), Err(WheelAddError::Full));
}

#[test]
fn add_ms_scales_milliseconds() {
    let mut timer = TimerWheel::<Scale10Ms>::new();
    let mut rt = quiet_runtime();
    let handle = timer.add_ms(25, 0, &mut rt).unwrap();
    timer.tick(&mut rt);
    timer.tick(&mut rt);
    assert!(!timer.is_fired(&handle));
    timer.tick(&mut rt);
    assert!(timer.is_fired(&handle) && rt.is_woken(0));
    assert_eq!(timer.add_ms(321, 0, &mut rt), Err(WheelAddError::OutOfRange));
    assert!(timer.add_ms(320, 0, &mut rt).is_ok());
}

#[test]
fn exact_tick_for_every_distance() {
    for t in 1..=32usize {
        let mut timer = TimerWheel::<Scale1Ms>::new();
        let mut rt = quiet_runtime();
        let handle = timer.add_ms(t, 0, &mut rt).unwrap();
        for _ in 1..t {
            timer.tick(&mut rt);
            assert!(!rt.is_woken(0));
            assert!(!timer.is_fired(&handle));
        }
        timer.tick(&mut rt);
        assert!(rt.is_woken(0));
        assert!(timer.is_fired(&handle));
    }
}

#[test]
fn collision_is_late_by_the_skipped_buckets() {
    let mut timer = TimerWheel::<Scale1Ms>::new();
    let mut rt = Runtime::new(2);
    assert_eq!(rt.poll_next(0), Some(0));
    assert_eq!(rt.poll_next(0), Some(1));
    let first = timer.add_ms(3, 0, &mut rt).unwrap();
    let second = timer.add_ms(3, 1, &mut rt).unwrap();
    for _ in 0..3 {
        timer.tick(&mut rt);
    }
    assert!(timer.is_fired(&first) && !timer.is_fired(&second));
    timer.tick(&mut rt);
    assert!(timer.is_fired(&second) && rt.is_woken(1));
}

#[test]
fn released_timer_never_fires() {
    let mut timer = TimerWheel::<Scale1Ms>::new();
    let mut rt = quiet_runtime();
    let handle = timer.add_ms(2, 0, &mut rt).unwrap();
    timer.release(handle);
    timer.tick(&mut rt);
    timer.tick(&mut rt);
    assert!(!rt.is_woken(0));
}
