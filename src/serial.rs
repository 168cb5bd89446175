//! Frame-sized serial transfers: the notifier an interrupt handler signals when a DMA transfer
//! completes, the steps of a transmission, and a scripted line for exercising the protocol
//! roles.

use vstd::prelude::*;


verus! {

pub struct MockSerial<const N: usize> {
    expected_reads: Vec<[u8; N]>,
    expected_writes: Vec<[u8; N]>,
}

impl<const N: usize> MockSerial<N> {
    /// The frames still to be read, in order.
    pub closed spec fn reads(&self) -> Seq<Seq<u8>> {
        self.expected_reads@.map_values(|f: [u8; N]| f@)
    }

    /// The frames still expected to be written, in order.
    pub closed spec fn writes(&self) -> Seq<Seq<u8>> {
        self.expected_writes@.map_values(|f: [u8; N]| f@)
    }

    pub fn new() -> (r: MockSerial<N>)
        ensures
            r.reads() == Seq::<Seq<u8>>::empty(),
            r.writes() == Seq::<Seq<u8>>::empty(),
    {
        let r = MockSerial { expected_reads: Vec::new(), expected_writes: Vec::new() };
        assert(r.reads() =~= Seq::<Seq<u8>>::empty());
        assert(r.writes() =~= Seq::<Seq<u8>>::empty());
        r
    }

    /// Scripts a frame for the line to deliver.
    pub fn read(&mut self, data: [u8; N])
        ensures
            final(self).reads() == old(self).reads().push(data@),
            final(self).writes() == old(self).writes(),
    {
        self.expected_reads.push(data);
        assert(self.reads() =~= old(self).reads().push(data@));
    }

    /// Scripts a frame the line expects to be sent.
    pub fn write(&mut self, data: [u8; N])
        ensures
            final(self).writes() == old(self).writes().push(data@),
            final(self).reads() == old(self).reads(),
    {
        self.expected_writes.push(data);
        assert(self.writes() =~= old(self).writes().push(data@));
    }

    /// Delivers the next scripted frame, if any.
    pub fn receive(&mut self) -> (r: Option<[u8; N]>)
        ensures
            old(self).reads().len() == 0 ==> r is None && final(self).reads() == old(self).reads(),
            old(self).reads().len() > 0 ==> (r matches Some(f) && f@ == old(self).reads()[0])
                && final(self).reads() == old(self).reads().drop_first(),
            final(self).writes() == old(self).writes(),
    {
        if self.expected_reads.len() == 0 {
            return None;
        }
        let f = self.expected_reads.remove(0);
        assert(self.reads() =~= old(self).reads().drop_first());
        Some(f)
    }

    /// Takes a sent frame: true when it is the next expected one, which is then crossed off.
    pub fn send(&mut self, buffer: &[u8; N]) -> (r: bool)
        ensures
            r == (old(self).writes().len() > 0 && old(self).writes()[0] == buffer@),
            r ==> final(self).writes() == old(self).writes().drop_first(),
            !r ==> final(self).writes() == old(self).writes(),
            final(self).reads() == old(self).reads(),
    {
        if self.expected_writes.len() == 0 {
            return false;
        }
        let mut i: usize = 0;
        while i < N
            invariant
                self.expected_writes@.len() > 0,
                i <= N,
                forall|j: int| 0 <= j < i ==> self.expected_writes@[0]@[j] == buffer@[j],
            decreases N - i,
        {
            if self.expected_writes[0][i] != buffer[i] {
                assert(self.writes()[0][i as int] != buffer@[i as int]);
                return false;
            }
            i = i + 1;
        }
        assert(self.writes()[0] =~= buffer@);
        self.expected_writes.remove(0);
        assert(self.writes() =~= old(self).writes().drop_first());
        true
    }

    /// Whether every scripted frame was read and every expected one written.
    pub fn assert_outstanding(&self) -> (r: bool)
        ensures
            r == (self.reads().len() == 0 && self.writes().len() == 0),
    {
        self.expected_reads.len() == 0 && self.expected_writes.len() == 0
    }
}

/// Where a transmission stands: its buffer not yet handed to the DMA engine, in flight, or
/// sent and back with the application.
#[derive(Debug, PartialEq, Eq, Structural, Clone, Copy)]
pub enum TxState {
    Initial,
    SendAndWaiting,
    Done,
}

/// What a poll of a transmission asks of the hardware.
#[derive(Debug, PartialEq, Eq, Structural, Clone, Copy)]
pub enum TxAction {
    /// Hand the buffer to the DMA engine and report whether it was taken
    Start,
    /// Ask whether the transfer completed and gave the buffer back
    CheckComplete,
    /// Nothing: the transmission is over
    Nothing,
}

/// The outcome of a poll of a transmission.
#[derive(Debug, PartialEq, Eq, Structural, Clone, Copy)]
pub enum TxPoll {
    /// Not done; with `wake_now`, the task wakes itself so it is polled again next pass
    Pending { wake_now: bool },
    Ready,
}

/// The steps of one transmission of a frame.
pub struct TxMachine {
    state: TxState,
}

impl TxMachine {
    pub closed spec fn spec_state(&self) -> TxState {
        self.state
    }

    /// A transmission whose buffer is still with the application.
    pub fn new() -> (r: TxMachine)
        ensures
            r.spec_state() == TxState::Initial,
    {
        TxMachine { state: TxState::Initial }
    }

    /// What the next poll must ask of the hardware.
    pub fn action(&self) -> (r: TxAction)
        ensures
            r == match self.spec_state() {
                TxState::Initial => TxAction::Start,
                TxState::SendAndWaiting => TxAction::CheckComplete,
                TxState::Done => TxAction::Nothing,
            },
    {
        match self.state {
            TxState::Initial => TxAction::Start,
            TxState::SendAndWaiting => TxAction::CheckComplete,
            TxState::Done => TxAction::Nothing,
        }
    }

    /// Takes the hardware's answer to `action`: whether the buffer was taken (on `Start`) or
    /// came back (on `CheckComplete`). A refused start stays initial and wakes the task again at
    /// once; a started transfer waits for its interrupt; a returned buffer ends the
    /// transmission.
    pub fn advance(&mut self, hardware_ok: bool) -> (r: TxPoll)
        ensures
            match old(self).spec_state() {
                TxState::Initial => if hardware_ok {
                    final(self).spec_state() == TxState::SendAndWaiting && r == (TxPoll::Pending {
                        wake_now: false,
                    })
                } else {
                    final(self).spec_state() == TxState::Initial && r == (TxPoll::Pending {
                        wake_now: true,
                    })
                },
                TxState::SendAndWaiting => if hardware_ok {
                    final(self).spec_state() == TxState::Done && r == TxPoll::Ready
                } else {
                    final(self).spec_state() == TxState::SendAndWaiting && r == (TxPoll::Pending {
                        wake_now: true,
                    })
                },
                TxState::Done => final(self).spec_state() == TxState::Done && r == TxPoll::Ready,
            },
    {
        match self.state {
            TxState::Initial => if hardware_ok {
                self.state = TxState::SendAndWaiting;
                TxPoll::Pending { wake_now: false }
            } else {
                TxPoll::Pending { wake_now: true }
            },
            TxState::SendAndWaiting => if hardware_ok {
                self.state = TxState::Done;
                TxPoll::Ready
            } else {
                TxPoll::Pending { wake_now: true }
            },
            TxState::Done => TxPoll::Ready,
        }
    }
}

/// The meeting point of a DMA channel's interrupt and the task waiting on it: the waker of
/// that task (`W`: a task index, or any waker) and a flag raised when the transfer completes.
pub struct SerialNotifier<W> {
    waker: Option<W>,
    complete: bool,
}

impl<W> SerialNotifier<W> {
    pub closed spec fn spec_waker(&self) -> Option<W> {
        self.waker
    }

    pub closed spec fn spec_complete(&self) -> bool {
        self.complete
    }

    pub fn new() -> (r: SerialNotifier<W>)
        ensures
            r.spec_waker() is None,
            !r.spec_complete(),
    {
        SerialNotifier { waker: None, complete: false }
    }

    /// Stores the waker of the task that waits for the transfer.
    pub fn set_waker(&mut self, waker: W)
        ensures
            final(self).spec_waker() == Some(waker),
            final(self).spec_complete() == old(self).spec_complete(),
    {
        self.waker = Some(waker);
    }

    /// Lowers the flag as a transfer starts.
    pub fn start_transfer(&mut self)
        ensures
            final(self).spec_waker() == old(self).spec_waker(),
            !final(self).spec_complete(),
    {
        self.complete = false;
    }

    /// Whether the last transfer completed.
    pub fn is_complete(&self) -> (r: bool)
        ensures
            r == self.spec_complete(),
    {
        self.complete
    }

    /// Called from the transfer-complete interrupt: raises the flag and hands out the stored
    /// waker, which the caller wakes.
    pub fn transfer_complete(&mut self) -> (r: Option<W>)
        ensures
            final(self).spec_complete(),
            r == old(self).spec_waker(),
            final(self).spec_waker() is None,
    {
        self.complete = true;
        self.waker.take()
    }
}

} // verus!
