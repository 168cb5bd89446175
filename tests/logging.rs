use rack_runtime::allocator::LinkedListAllocator;
use rack_runtime::logging::{message_frame, startup_frame, Message, SerialLoggerFrontend};
use rack_runtime::queue::queue;

#[test]
fn span_ids_count_from_one() {
    let q = queue::<Message, 256>(LinkedListAllocator::<256>::new(0, 256 * 8)).unwrap();
    let mut front = SerialLoggerFrontend::new(q);
    assert_eq!(front.new_span(), 1);
    assert_eq!(front.new_span(), 2);
    front.log(Message::Enter(1)).unwrap();
    front.log(Message::Event).unwrap();
    let mut q = front.into_queue();
    assert_eq!(q.try_dequeue(), Ok(Message::NewSpan(1)));
    assert_eq!(q.try_dequeue(), Ok(Message::NewSpan(2)));
    assert_eq!(q.try_dequeue(), Ok(Message::Enter(1)));
    assert_eq!(q.try_dequeue(), Ok(Message::Event));
}

#[test]
fn frames_carry_their_label() {
    let f = startup_frame();
    assert_eq!(&f[..16], b"Starting Logging");
    assert!(f[16..].iter().all(|b| *b == 0));
    let f = message_frame(&Message::Exit(3));
    assert_eq!(&f[..5], b"Exit ");
    assert!(f[5..].iter().all(|b| *b == 0));
    assert_eq!(&message_frame(&Message::NewSpan(1))[..9], b"New-Span ");
}
