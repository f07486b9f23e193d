//! Connection handler logic: turns what the decoder reports into the
//! actions the connection's driver must take — forward a completed payload
//! to the hub, warn the peer of a malformed frame, or shut the connection
//! down.  The driver owns the socket; this state machine owns the decisions.

use vstd::prelude::*;

use crate::decoder::{DecodeOutcome, Decoder, DecoderModel, ReadEvent};

verus! {

/// What the driver must do after one read event was consumed.
pub struct HandlerStep {
    /// A completed payload to hand to the hub over the relay channel.
    pub forward: Option<Vec<u8>>,
    /// Write a diagnostic notice back to the peer: its frame declared one
    /// length and delivered another.
    pub notify_mismatch: bool,
    /// Release the socket and the relay channel: the peer closed the stream
    /// or sent the zero-length close sentinel.
    pub terminate: bool,
}

/// One connection's handler: its decoder and whether it is still serving.
pub struct Handler {
    pub decoder: Decoder,
    pub active: bool,
}

impl Handler {
    /// A handler ready to serve a fresh connection.
    pub fn new() -> (h: Handler)
        ensures
            h.active,
            h.decoder@ == DecoderModel::fresh(),
            h.decoder@.wf(),
    {
        Handler { decoder: Decoder::new(), active: true }
    }

    /// Consumes one read event.  A completed non-sentinel message is handed
    /// out for forwarding — only ever with its payload at exactly the
    /// declared size; the zero-length sentinel and the end of the stream
    /// terminate the handler; a mismatched frame asks for a notice to the
    /// peer and is dropped.
    pub fn on_read_event(&mut self, event: &ReadEvent) -> (step: HandlerStep)
        requires
            old(self).active,
            old(self).decoder@.wf(),
        ensures
            final(self).decoder@.wf(),
            step.notify_mismatch == (old(self).decoder@.on_event_outcome(*event)
                is Mismatch),
            step.terminate == ((*event is Closed) || (old(self).decoder@.on_event_outcome(*event)
                is ConnectionClosing) || (old(self).decoder@.on_event_outcome(*event) is Ready
                && old(self).decoder@.on_event(*event).size == 0)),
            final(self).active == !step.terminate,
            (old(self).decoder@.on_event_outcome(*event) is Ready
                && old(self).decoder@.on_event(*event).size > 0) ==> (step.forward matches Some(p)
                && p@ == old(self).decoder@.on_event(*event).payload
                && p@.len() == old(self).decoder@.on_event(*event).size),
            !(old(self).decoder@.on_event_outcome(*event) is Ready
                && old(self).decoder@.on_event(*event).size > 0) ==> step.forward is None,
            final(self).decoder@ == (if old(self).decoder@.on_event_outcome(*event) is Ready {
                DecoderModel::fresh()
            } else {
                old(self).decoder@.on_event(*event)
            }),
            !(final(self).decoder@.phase is Complete),
    {
        let out = self.decoder.feed(event);
        match out {
            DecodeOutcome::Pending => {
                let terminate = matches!(event, ReadEvent::Closed);
                self.active = !terminate;
                HandlerStep { forward: None, notify_mismatch: false, terminate }
            },
            DecodeOutcome::Ready => {
                let m = self.decoder.take_message();
                if m.expected_size == 0 {
                    self.active = false;
                    HandlerStep { forward: None, notify_mismatch: false, terminate: true }
                } else {
                    let terminate = matches!(event, ReadEvent::Closed);
                    self.active = !terminate;
                    HandlerStep { forward: Some(m.buffer), notify_mismatch: false, terminate }
                }
            },
            DecodeOutcome::Mismatch => {
                let terminate = matches!(event, ReadEvent::Closed);
                self.active = !terminate;
                HandlerStep { forward: None, notify_mismatch: true, terminate }
            },
            DecodeOutcome::ConnectionClosing => {
                self.active = false;
                HandlerStep { forward: None, notify_mismatch: false, terminate: true }
            },
        }
    }
}

} // verus!
