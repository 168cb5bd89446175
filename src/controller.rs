//! The controller role: enumerate every slot of the rack, probing each ready extension once and
//! recording the ID it reports. The bus work happens outside; the records are kept here.

use vstd::prelude::*;

use crate::packet::{Packet, PacketData};

verus! {

/// What the controller knows of one slot.
#[derive(Debug, PartialEq, Eq, Structural, Clone, Copy)]
pub struct CtrlExtension {
    pub id: u8,
    pub initialized: bool,
}

/// Tells whether the extension in a slot is ready.
pub trait ReadyCheck {
    /// The ready state of the extension in slot `idx`
    fn check(&self, idx: usize) -> bool;
}

/// Routes the shared bus to one slot.
pub trait Select {
    /// Selects the extension in slot `index`
    fn select(&mut self, index: usize);
}

#[derive(Debug, PartialEq, Eq, Structural, Clone, Copy)]
pub enum EnumerationError {
    /// A probed extension answered with something other than a probe response
    UnexpectedResponse,
}

/// The record of slot `index`: an extension that is not ready, or that reports no ID, is kept
/// under the slot index as not initialised; one that reports an ID with its status set is kept
/// under that ID.
pub open spec fn spec_slot_entry(index: u8, response: Option<PacketData>) -> Result<CtrlExtension, EnumerationError> {
    match response {
        None => Ok(CtrlExtension { id: index, initialized: false }),
        Some(PacketData::InitProbeResponse { status, id }) => if status && id is Some {
            Ok(CtrlExtension { id: id->Some_0, initialized: true })
        } else {
            Ok(CtrlExtension { id: index, initialized: false })
        },
        Some(_) => Err(EnumerationError::UnexpectedResponse),
    }
}

/// The record of slot `index`, from the reply to its probe (`None` when the slot was not ready).
pub fn slot_entry(index: u8, response: Option<&PacketData>) -> (r: Result<CtrlExtension, EnumerationError>)
    ensures
        r == spec_slot_entry(
            index,
            match response {
                Some(d) => Some(*d),
                None => None,
            },
        ),
{
    match response {
        None => Ok(CtrlExtension { id: index, initialized: false }),
        Some(PacketData::InitProbeResponse { status, id }) => match id {
            Some(i) => if *status {
                Ok(CtrlExtension { id: *i, initialized: true })
            } else {
                Ok(CtrlExtension { id: index, initialized: false })
            },
            None => Ok(CtrlExtension { id: index, initialized: false }),
        },
        Some(_) => Err(EnumerationError::UnexpectedResponse),
    }
}

/// The controller of a rack, with one record per slot in slot order.
pub struct Controller {
    extensions: Vec<CtrlExtension>,
}

impl Controller {
    pub closed spec fn spec_extensions(&self) -> Seq<CtrlExtension> {
        self.extensions@
    }

    /// A controller that has enumerated no slot yet.
    pub fn new() -> (r: Controller)
        ensures
            r.spec_extensions() == Seq::<CtrlExtension>::empty(),
    {
        Controller { extensions: Vec::new() }
    }

    /// The packet that probes the selected slot.
    pub fn probe() -> (r: Packet)
        ensures
            r.receiver == crate::packet::ReceiverID::Everyone,
            r.data is InitProbe,
            r.protocol_version == crate::VERSION,
    {
        Packet::init_probe()
    }

    /// Records the next slot, whose index is the number of slots recorded so far; `response` is
    /// the reply to its probe, or `None` when the slot was not ready. Nothing is recorded on an
    /// unexpected reply.
    pub fn record(&mut self, response: Option<&PacketData>) -> (r: Result<(), EnumerationError>)
        requires
            old(self).spec_extensions().len() < 256,
        ensures
            match spec_slot_entry(
                old(self).spec_extensions().len() as u8,
                match response {
                    Some(d) => Some(*d),
                    None => None,
                },
            ) {
                Ok(e) => r is Ok && final(self).spec_extensions() == old(self).spec_extensions().push(e),
                Err(e) => r == Err::<(), EnumerationError>(e) && final(self).spec_extensions()
                    == old(self).spec_extensions(),
            },
    {
        let index = self.extensions.len() as u8;
        match slot_entry(index, response) {
            Ok(e) => {
                self.extensions.push(e);
                Ok(())
            },
            Err(e) => Err(e),
        }
    }

    /// The records so far, in slot order.
    pub fn extensions(&self) -> (r: &Vec<CtrlExtension>)
        ensures
            r@ == self.spec_extensions(),
    {
        &self.extensions
    }
}

} // verus!
