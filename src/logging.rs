//! The logging sink: a front end that numbers spans and queues one message per structured
//! event, and the frames a background task sends for each queued message.

use vstd::prelude::*;

use crate::queue::{EnqueueError, Queue};
use vstd::string::StringSliceAdditionalSpecFns;

verus! {

/// A logged event; spans are named by their ID.
#[derive(Debug, PartialEq, Eq, Structural, Clone, Copy)]
pub enum Message {
    NewSpan(u64),
    Enter(u64),
    Exit(u64),
    Record(u64),
    Event,
}

/// The front end of the logger: it hands out span IDs, counting up from 1, and queues a
/// message for each event it sees.
pub struct SerialLoggerFrontend<const B: usize> {
    id: u32,
    tx: Queue<Message, B>,
}

impl<const B: usize> SerialLoggerFrontend<B> {
    /// The ID the next span gets (0 stands for 1: the counter wrapped).
    pub closed spec fn next_id(&self) -> u32 {
        self.id
    }

    /// The queue the front end fills.
    pub closed spec fn spec_queue(&self) -> Queue<Message, B> {
        self.tx
    }

    /// The messages queued and not yet taken, oldest first.
    pub open spec fn queued(&self) -> Seq<Message> {
        self.spec_queue().items()
    }

    pub open spec fn wf(&self) -> bool {
        self.spec_queue().wf()
    }

    /// A front end over the queue `tx`, whose first span gets ID 1.
    pub fn new(tx: Queue<Message, B>) -> (r: SerialLoggerFrontend<B>)
        requires
            tx.wf(),
        ensures
            r.next_id() == 1,
            r.spec_queue() == tx,
    {
        SerialLoggerFrontend { id: 1, tx }
    }

    /// Queues `msg`. It is dropped exactly when the queue needs a new segment and has no
    /// block for it.
    pub fn log(&mut self, msg: Message) -> (r: Result<(), EnqueueError>)
        requires
            old(self).wf(),
        ensures
            final(self).wf(),
            final(self).next_id() == old(self).next_id(),
            r is Err <==> old(self).spec_queue().tail_full() && old(self).spec_queue().spare_blocks() == 0,
            r is Ok ==> final(self).queued() == old(self).queued().push(msg),
            r is Err ==> final(self).queued() == old(self).queued(),
    {
        match self.tx.try_enqueue(msg) {
            Ok(()) => Ok(()),
            Err((_, e)) => Err(e),
        }
    }

    /// Opens a span: takes the next ID, counting up from 1 and skipping 0 when the counter
    /// wraps, and queues its announcement as `log` does.
    pub fn new_span(&mut self) -> (r: u64)
        requires
            old(self).wf(),
        ensures
            final(self).wf(),
            r >= 1,
            r == if old(self).next_id() == 0 {
                1
            } else {
                old(self).next_id() as u64
            },
            final(self).next_id() == if r == u32::MAX {
                1
            } else {
                r + 1
            },
            if old(self).spec_queue().tail_full() && old(self).spec_queue().spare_blocks() == 0 {
                final(self).queued() == old(self).queued()
            } else {
                final(self).queued() == old(self).queued().push(Message::NewSpan(r))
            },
    {
        let raw_id: u32 = if self.id == 0 {
            1
        } else {
            self.id
        };
        self.id = if raw_id == u32::MAX {
            1
        } else {
            raw_id + 1
        };
        let n_id = raw_id as u64;
        let _ = self.log(Message::NewSpan(n_id));
        n_id
    }

    /// The queue the front end fills.
    pub fn into_queue(self) -> (r: Queue<Message, B>)
        ensures
            r == self.spec_queue(),
    {
        self.tx
    }
}

/// The text that opens the frame of a message.
pub open spec fn message_label(msg: Message) -> Seq<char> {
    match msg {
        Message::NewSpan(_) => "New-Span "@,
        Message::Enter(_) => "Enter "@,
        Message::Exit(_) => "Exit "@,
        Message::Record(_) => "Record "@,
        Message::Event => "Event "@,
    }
}

/// A 256-byte frame holding `text` and then zeros.
pub fn text_frame(text: &str) -> (r: [u8; 256])
    requires
        text@.len() <= 256,
        text.is_ascii(),
    ensures
        forall|i: int| 0 <= i < text@.len() ==> r@[i] == text@[i] as u8,
        forall|i: int| text@.len() <= i < 256 ==> r@[i] == 0,
{
    let mut frame = [0u8; 256];
    let bytes = text.as_bytes();
    proof {
        vstd::string::is_ascii_spec_bytes(text);
    }
    let mut i: usize = 0;
    while i < bytes.len()
        invariant
            bytes@ == text.spec_bytes(),
            text.is_ascii() ==> text.spec_bytes() =~= Seq::new(text@.len(), |j: int| text@[j] as u8),
            text.is_ascii(),
            bytes@.len() <= 256,
            i <= bytes@.len(),
            forall|j: int| 0 <= j < i ==> frame@[j] == text@[j] as u8,
            forall|j: int| i <= j < 256 ==> frame@[j] == 0,
        decreases bytes@.len() - i,
    {
        frame[i] = bytes[i];
        i = i + 1;
    }
    frame
}

/// The frame sent when logging starts.
pub fn startup_frame() -> (r: [u8; 256])
    ensures
        forall|i: int| 0 <= i < 16 ==> r@[i] == "Starting Logging"@[i] as u8,
        forall|i: int| 16 <= i < 256 ==> r@[i] == 0,
{
    proof {
        reveal_strlit("Starting Logging");
    }
    text_frame("Starting Logging")
}

/// The frame sent for a message: its label, then zeros.
pub fn message_frame(msg: &Message) -> (r: [u8; 256])
    ensures
        forall|i: int| 0 <= i < message_label(*msg).len() ==> r@[i] == message_label(*msg)[i] as u8,
        forall|i: int| message_label(*msg).len() <= i < 256 ==> r@[i] == 0,
{
    let text = match msg {
        Message::NewSpan(_) => "New-Span ",
        Message::Enter(_) => "Enter ",
        Message::Exit(_) => "Exit ",
        Message::Record(_) => "Record ",
        Message::Event => "Event ",
    };
    proof {
        reveal_strlit("New-Span ");
        reveal_strlit("Enter ");
        reveal_strlit("Exit ");
        reveal_strlit("Record ");
        reveal_strlit("Event ");
    }
    text_frame(text)
}

} // verus!
