//! Per-connection frame decoder: a state machine that consumes raw bytes in
//! arbitrary fragments and reconstructs discrete length-prefixed messages.

use vstd::prelude::*;

use crate::codec::le_value;

verus! {

/// Where a message stands in its life: the transitions are monotonic,
/// `AwaitingHeader` to `AwaitingPayload` to `Complete`, and never revert.
#[derive(Clone, Copy, Debug, PartialEq, Eq, Structural)]
pub enum Phase {
    AwaitingHeader,
    AwaitingPayload,
    Complete,
}

/// One unit of communication: the length declared by the header, the payload
/// bytes received so far, and the phase reached.
pub struct Message {
    pub expected_size: u64,
    pub buffer: Vec<u8>,
    pub phase: Phase,
}

/// What one attempt to read the peer's stream produced: some bytes, nothing
/// for the moment (a would-block read), or end of stream.
pub enum ReadEvent {
    Data(Vec<u8>),
    NoData,
    Closed,
}

/// What the decoder reports after consuming a read event.
#[derive(Clone, Copy, Debug, PartialEq, Eq, Structural)]
pub enum DecodeOutcome {
    /// The frame is not complete yet; nothing to hand on.
    Pending,
    /// A message reached `Complete` and waits to be taken.
    Ready,
    /// The declared length disagrees with the bytes the stream delivered:
    /// the malformed frame was dropped and the decoder starts afresh.
    Mismatch,
    /// The stream ended while a header was still being assembled.
    ConnectionClosing,
}

/// The decoder's mathematical state: the header bytes gathered so far, the
/// declared payload length, the payload gathered so far, and the phase.
#[verifier::ext_equal]
pub ghost struct DecoderModel {
    pub header: Seq<u8>,
    pub size: nat,
    pub payload: Seq<u8>,
    pub phase: Phase,
}

impl DecoderModel {
    /// The state of a decoder that has consumed nothing of its frame.
    pub open spec fn fresh() -> DecoderModel {
        DecoderModel { header: Seq::empty(), size: 0, payload: Seq::empty(), phase: Phase::AwaitingHeader }
    }

    /// Internal consistency: the header never exceeds 8 bytes, the payload
    /// never exceeds the declared size, and a frame is `Complete` exactly
    /// when the payload has reached that size.
    pub open spec fn wf(self) -> bool {
        match self.phase {
            Phase::AwaitingHeader => self.header.len() < 8 && self.payload.len() == 0
                && self.size == 0,
            Phase::AwaitingPayload => self.header.len() == 8 && self.size == le_value(self.header)
                && self.size > 0 && self.payload.len() < self.size,
            Phase::Complete => self.payload.len() == self.size,
        }
    }

    /// Folds a chunk of payload bytes into a state that already has its
    /// header: short of the declared size the frame stays open, exactly at
    /// it the frame completes, and beyond it the frame is dropped.
    pub open spec fn accept_payload(self, chunk: Seq<u8>) -> DecoderModel {
        let buf = self.payload + chunk;
        if buf.len() < self.size {
            DecoderModel { header: self.header, size: self.size, payload: buf, phase: Phase::AwaitingPayload }
        } else if buf.len() == self.size {
            DecoderModel { header: self.header, size: self.size, payload: buf, phase: Phase::Complete }
        } else {
            DecoderModel::fresh()
        }
    }

    pub open spec fn accept_payload_outcome(self, chunk: Seq<u8>) -> DecodeOutcome {
        let buf = self.payload + chunk;
        if buf.len() < self.size {
            DecodeOutcome::Pending
        } else if buf.len() == self.size {
            DecodeOutcome::Ready
        } else {
            DecodeOutcome::Mismatch
        }
    }

    /// The state after consuming one chunk of stream bytes.  A complete
    /// frame absorbs nothing further; header bytes accumulate until all 8
    /// are there; a zero header completes at once as the close sentinel,
    /// whatever bytes follow; any remainder counts as payload.
    pub open spec fn on_data(self, chunk: Seq<u8>) -> DecoderModel {
        if self.phase is Complete {
            self
        } else if self.phase is AwaitingHeader {
            let all = self.header + chunk;
            if all.len() < 8 {
                DecoderModel { header: all, size: 0, payload: Seq::empty(), phase: Phase::AwaitingHeader }
            } else {
                let hdr = all.take(8);
                let size = le_value(hdr);
                if size == 0 {
                    DecoderModel { header: hdr, size: 0, payload: Seq::empty(), phase: Phase::Complete }
                } else {
                    let started = DecoderModel {
                        header: hdr,
                        size: size,
                        payload: Seq::empty(),
                        phase: Phase::AwaitingPayload,
                    };
                    started.accept_payload(all.skip(8))
                }
            }
        } else {
            self.accept_payload(chunk)
        }
    }

    pub open spec fn on_data_outcome(self, chunk: Seq<u8>) -> DecodeOutcome {
        if self.phase is Complete {
            DecodeOutcome::Ready
        } else if self.phase is AwaitingHeader {
            let all = self.header + chunk;
            if all.len() < 8 {
                DecodeOutcome::Pending
            } else {
                let hdr = all.take(8);
                let size = le_value(hdr);
                if size == 0 {
                    DecodeOutcome::Ready
                } else {
                    let started = DecoderModel {
                        header: hdr,
                        size: size,
                        payload: Seq::empty(),
                        phase: Phase::AwaitingPayload,
                    };
                    started.accept_payload_outcome(all.skip(8))
                }
            }
        } else {
            self.accept_payload_outcome(chunk)
        }
    }

    /// The state after the stream ends.  At a frame boundary the end of the
    /// stream collapses into the zero-length close sentinel; mid-payload the
    /// declared length can no longer be met, so the frame is dropped.
    pub open spec fn on_closed(self) -> DecoderModel {
        if self.phase is Complete {
            self
        } else if self.phase is AwaitingHeader {
            if self.header.len() == 0 {
                DecoderModel { header: Seq::empty(), size: 0, payload: Seq::empty(), phase: Phase::Complete }
            } else {
                self
            }
        } else {
            DecoderModel::fresh()
        }
    }

    pub open spec fn on_closed_outcome(self) -> DecodeOutcome {
        if self.phase is Complete {
            DecodeOutcome::Ready
        } else if self.phase is AwaitingHeader {
            if self.header.len() == 0 {
                DecodeOutcome::Ready
            } else {
                DecodeOutcome::ConnectionClosing
            }
        } else {
            DecodeOutcome::Mismatch
        }
    }

    /// The state after one read event of any kind.
    pub open spec fn on_event(self, ev: ReadEvent) -> DecoderModel {
        match ev {
            ReadEvent::Data(chunk) => self.on_data(chunk@),
            ReadEvent::NoData => self,
            ReadEvent::Closed => self.on_closed(),
        }
    }

    pub open spec fn on_event_outcome(self, ev: ReadEvent) -> DecodeOutcome {
        match ev {
            ReadEvent::Data(chunk) => self.on_data_outcome(chunk@),
            ReadEvent::NoData => if self.phase is Complete {
                DecodeOutcome::Ready
            } else {
                DecodeOutcome::Pending
            },
            ReadEvent::Closed => self.on_closed_outcome(),
        }
    }
}

/// The bytes of a sequence of read chunks, joined in arrival order.
pub open spec fn concat_chunks(chunks: Seq<Seq<u8>>) -> Seq<u8>
    decreases chunks.len(),
{
    if chunks.len() == 0 {
        Seq::empty()
    } else {
        chunks.first() + concat_chunks(chunks.drop_first())
    }
}

/// The state reached from `s` after consuming each chunk in turn.
pub open spec fn feed_all(s: DecoderModel, chunks: Seq<Seq<u8>>) -> DecoderModel
    decreases chunks.len(),
{
    if chunks.len() == 0 {
        s
    } else {
        feed_all(s.on_data(chunks.first()), chunks.drop_first())
    }
}

/// The decoder state as a function of nothing but the bytes consumed since
/// the frame began: however those bytes were fragmented, this is where a
/// fresh decoder stands after them.
pub open spec fn state_of(fed: Seq<u8>) -> DecoderModel {
    if fed.len() < 8 {
        DecoderModel { header: fed, size: 0, payload: Seq::empty(), phase: Phase::AwaitingHeader }
    } else {
        let hdr = fed.take(8);
        let size = le_value(hdr);
        if size == 0 {
            DecoderModel { header: hdr, size: 0, payload: Seq::empty(), phase: Phase::Complete }
        } else if fed.len() - 8 < size {
            DecoderModel { header: hdr, size: size, payload: fed.skip(8), phase: Phase::AwaitingPayload }
        } else {
            DecoderModel { header: hdr, size: size, payload: fed.skip(8), phase: Phase::Complete }
        }
    }
}

/// The bytes stay within one frame: they do not run past the declared
/// payload length.  (Past a zero header nothing more is read, so any
/// trailing bytes there are immaterial.)
pub open spec fn fits_frame(fed: Seq<u8>) -> bool {
    ||| fed.len() <= 8
    ||| le_value(fed.take(8)) == 0
    ||| fed.len() - 8 <= le_value(fed.take(8))
}

pub proof fn lemma_fits_prefix(s: Seq<u8>, t: Seq<u8>)
    requires
        fits_frame(s + t),
    ensures
        fits_frame(s),
{
    if s.len() > 8 {
        assert((s + t).take(8) =~= s.take(8));
    }
}

/// Consuming `chunk` from the state the bytes `fed` produced lands in the
/// state the bytes `fed + chunk` produce: one step of chunking invariance.
pub proof fn lemma_state_of_extend(fed: Seq<u8>, chunk: Seq<u8>)
    requires
        fits_frame(fed + chunk),
    ensures
        state_of(fed).on_data(chunk) == state_of(fed + chunk),
{
    let all = fed + chunk;
    lemma_fits_prefix(fed, chunk);
    if fed.len() < 8 {
        let s = state_of(fed);
        if all.len() < 8 {
            assert(s.on_data(chunk) =~= state_of(all));
        } else {
            let hdr = all.take(8);
            let size = le_value(hdr);
            if size == 0 {
                assert(s.on_data(chunk) =~= state_of(all));
            } else {
                assert(Seq::<u8>::empty() + all.skip(8) =~= all.skip(8));
                assert(s.on_data(chunk) =~= state_of(all));
            }
        }
    } else {
        let hdr = fed.take(8);
        assert(all.take(8) =~= hdr);
        let size = le_value(hdr);
        if size == 0 {
            assert(state_of(fed).on_data(chunk) =~= state_of(all));
        } else if fed.len() - 8 < size {
            assert(fed.skip(8) + chunk =~= all.skip(8));
            assert(state_of(fed).on_data(chunk) =~= state_of(all));
        } else {
            assert(fed.len() - 8 == size);
            assert(all.len() - 8 <= size);
            assert(chunk.len() == 0);
            assert(all =~= fed);
            assert(state_of(fed).on_data(chunk) == state_of(all));
        }
    }
}

/// Consuming a run of chunks from the state the bytes `fed` produced lands
/// in the state that `fed` followed by all their bytes produces.
pub proof fn lemma_feed_all_from(fed: Seq<u8>, chunks: Seq<Seq<u8>>)
    requires
        fits_frame(fed + concat_chunks(chunks)),
    ensures
        feed_all(state_of(fed), chunks) == state_of(fed + concat_chunks(chunks)),
    decreases chunks.len(),
{
    if chunks.len() == 0 {
        assert(fed + concat_chunks(chunks) =~= fed);
    } else {
        let c = chunks.first();
        let rest = chunks.drop_first();
        assert(fed + concat_chunks(chunks) =~= (fed + c) + concat_chunks(rest));
        lemma_fits_prefix(fed + c, concat_chunks(rest));
        lemma_state_of_extend(fed, c);
        lemma_feed_all_from(fed + c, rest);
    }
}

/// Header fragmentation invariance: however the 8 header bytes are split
/// over successive reads, the decoder ends where one atomic read of those
/// bytes would end, with the declared size their little-endian value.
pub proof fn lemma_header_fragmentation_invariance(chunks: Seq<Seq<u8>>)
    requires
        concat_chunks(chunks).len() == 8,
    ensures
        feed_all(DecoderModel::fresh(), chunks) == DecoderModel::fresh().on_data(
            concat_chunks(chunks),
        ),
        feed_all(DecoderModel::fresh(), chunks).size == le_value(concat_chunks(chunks)),
{
    let whole = concat_chunks(chunks);
    assert(state_of(Seq::<u8>::empty()) =~= DecoderModel::fresh());
    assert(Seq::<u8>::empty() + whole =~= whole);
    lemma_feed_all_from(Seq::<u8>::empty(), chunks);
    lemma_state_of_extend(Seq::<u8>::empty(), whole);
    assert(whole.take(8) =~= whole);
}

/// Payload fragmentation invariance: however a payload of the declared size
/// is chunked over successive reads, the frame completes with its buffer the
/// concatenation of the chunks, exactly as one atomic read would leave it.
pub proof fn lemma_payload_fragmentation_invariance(header: Seq<u8>, chunks: Seq<Seq<u8>>)
    requires
        header.len() == 8,
        le_value(header) > 0,
        concat_chunks(chunks).len() == le_value(header),
    ensures
        feed_all(DecoderModel::fresh().on_data(header), chunks).phase is Complete,
        feed_all(DecoderModel::fresh().on_data(header), chunks).payload == concat_chunks(chunks),
        feed_all(DecoderModel::fresh().on_data(header), chunks)
            == DecoderModel::fresh().on_data(header + concat_chunks(chunks)),
{
    let whole = header + concat_chunks(chunks);
    assert(state_of(Seq::<u8>::empty()) =~= DecoderModel::fresh());
    assert(Seq::<u8>::empty() + header =~= header);
    assert(header.take(8) =~= header);
    lemma_state_of_extend(Seq::<u8>::empty(), header);
    assert(whole.take(8) =~= header);
    lemma_feed_all_from(header, chunks);
    assert(whole.skip(8) =~= concat_chunks(chunks));
    assert(Seq::<u8>::empty() + whole =~= whole);
    lemma_state_of_extend(Seq::<u8>::empty(), whole);
}

/// Zero-length sentinel: a zero header yields a complete message with an
/// empty buffer at once, whatever bytes follow it on the stream.
pub proof fn lemma_zero_sentinel(header: Seq<u8>, more: Seq<u8>)
    requires
        header.len() == 8,
        le_value(header) == 0,
    ensures
        DecoderModel::fresh().on_data(header + more).phase is Complete,
        DecoderModel::fresh().on_data(header + more).payload == Seq::<u8>::empty(),
        DecoderModel::fresh().on_data(header + more).size == 0,
{
    let all = Seq::<u8>::empty() + (header + more);
    assert(all.take(8) =~= header);
}

/// A complete frame absorbs nothing further: any later read event leaves the
/// state unchanged and merely reports the frame ready again.
pub proof fn lemma_complete_absorbs(s: DecoderModel, ev: ReadEvent)
    requires
        s.phase is Complete,
    ensures
        s.on_event(ev) == s,
        s.on_event_outcome(ev) == DecodeOutcome::Ready,
{
}

/// Mismatch detection: while payload bytes are still owed, the end of the
/// stream is reported as a mismatch — never as a ready message — and the
/// short frame is dropped rather than handed on.
pub proof fn lemma_truncated_stream_mismatch(s: DecoderModel)
    requires
        s.wf(),
        s.phase is AwaitingPayload,
    ensures
        s.payload.len() < s.size,
        s.on_closed_outcome() == DecodeOutcome::Mismatch,
        s.on_closed() == DecoderModel::fresh(),
{
}

/// Mismatch detection over the raw bytes: a declared length followed by too
/// few payload bytes ends in a mismatch when the stream closes.
pub proof fn lemma_truncated_bytes_mismatch(fed: Seq<u8>)
    requires
        fed.len() >= 8,
        le_value(fed.take(8)) > 0,
        fed.len() - 8 < le_value(fed.take(8)),
    ensures
        state_of(fed).on_closed_outcome() == DecodeOutcome::Mismatch,
        !(state_of(fed).on_closed_outcome() is Ready),
{
}

/// The per-connection decoder: the header bytes gathered so far and the
/// message being assembled.
pub struct Decoder {
    pub header: Vec<u8>,
    pub msg: Message,
}

impl View for Decoder {
    type V = DecoderModel;

    open spec fn view(&self) -> DecoderModel {
        DecoderModel {
            header: self.header@,
            size: self.msg.expected_size as nat,
            payload: self.msg.buffer@,
            phase: self.msg.phase,
        }
    }
}

impl Decoder {
    /// A decoder ready for the first byte of a frame.
    pub fn new() -> (d: Decoder)
        ensures
            d@ == DecoderModel::fresh(),
            d@.wf(),
    {
        let d = Decoder {
            header: Vec::new(),
            msg: Message { expected_size: 0, buffer: Vec::new(), phase: Phase::AwaitingHeader },
        };
        proof {
            assert(d@ =~= DecoderModel::fresh());
        }
        d
    }

    fn reset(&mut self)
        ensures
            final(self)@ == DecoderModel::fresh(),
    {
        self.header.clear();
        self.msg.buffer.clear();
        self.msg.expected_size = 0;
        self.msg.phase = Phase::AwaitingHeader;
        proof {
            assert(self@ =~= DecoderModel::fresh());
        }
    }

    /// Consumes one read event and reports what it produced.  The new state
    /// and the outcome are exactly those of the abstract transition, so
    /// everything proved of the model holds of this decoder.
    pub fn feed(&mut self, event: &ReadEvent) -> (out: DecodeOutcome)
        requires
            old(self)@.wf(),
        ensures
            final(self)@.wf(),
            final(self)@ == old(self)@.on_event(*event),
            out == old(self)@.on_event_outcome(*event),
    {
        match event {
            ReadEvent::NoData => {
                if self.msg.phase == Phase::Complete {
                    DecodeOutcome::Ready
                } else {
                    DecodeOutcome::Pending
                }
            },
            ReadEvent::Closed => {
                if self.msg.phase == Phase::Complete {
                    DecodeOutcome::Ready
                } else if self.msg.phase == Phase::AwaitingHeader {
                    if self.header.len() == 0 {
                        self.msg.phase = Phase::Complete;
                        proof {
                            assert(self@ =~= old(self)@.on_closed());
                        }
                        DecodeOutcome::Ready
                    } else {
                        DecodeOutcome::ConnectionClosing
                    }
                } else {
                    self.reset();
                    proof {
                        assert(self@ =~= old(self)@.on_closed());
                    }
                    DecodeOutcome::Mismatch
                }
            },
            ReadEvent::Data(chunk) => self.feed_data(chunk),
        }
    }

    fn feed_data(&mut self, chunk: &Vec<u8>) -> (out: DecodeOutcome)
        requires
            old(self)@.wf(),
        ensures
            final(self)@.wf(),
            final(self)@ == old(self)@.on_data(chunk@),
            out == old(self)@.on_data_outcome(chunk@),
    {
        let ghost s0 = self@;
        if self.msg.phase == Phase::Complete {
            return DecodeOutcome::Ready;
        }
        let mut j: usize = 0;
        if self.msg.phase == Phase::AwaitingHeader {
            let ghost all = s0.header + chunk@;
            proof {
                assert(s0.header + chunk@.take(0) =~= s0.header);
            }
            while self.header.len() < 8 && j < chunk.len()
                invariant
                    s0.wf(),
                    s0.phase is AwaitingHeader,
                    j <= chunk@.len(),
                    self.header@.len() <= 8,
                    self.header@ == s0.header + chunk@.take(j as int),
                    self.header@.len() == s0.header.len() + j,
                    self.msg == old(self).msg,
                decreases chunk@.len() - j,
            {
                let b = chunk[j];
                self.header.push(b);
                j = j + 1;
                proof {
                    assert(s0.header + chunk@.take(j - 1).push(b) =~= s0.header + chunk@.take(
                        j as int,
                    ));
                }
            }
            if self.header.len() < 8 {
                // The chunk ran out before the header was whole: keep what
                // arrived and wait for the next read.
                proof {
                    assert(chunk@.take(j as int) =~= chunk@);
                    assert(all.len() < 8);
                    assert(self@ =~= s0.on_data(chunk@));
                }
                return DecodeOutcome::Pending;
            }
            proof {
                assert(self.header@ =~= all.take(8));
            }
            let size = crate::codec::le_u64_of(self.header.as_slice());
            self.msg.expected_size = size;
            if size == 0 {
                // The zero-length close sentinel completes at once; whatever
                // follows it in this chunk is discarded.
                self.msg.phase = Phase::Complete;
                proof {
                    assert(self@ =~= s0.on_data(chunk@));
                }
                return DecodeOutcome::Ready;
            }
            self.msg.phase = Phase::AwaitingPayload;
            proof {
                assert(chunk@.skip(j as int) =~= all.skip(8));
            }
        }
        // Payload phase: move bytes into the buffer, stopping at the
        // declared size.
        let ghost base = self.msg.buffer@;
        let ghost j0 = j as int;
        let ghost size = self.msg.expected_size as nat;
        let ghost rest = chunk@.skip(j0);
        let ghost hdr0 = self.header@;
        proof {
            assert(base + chunk@.subrange(j0, j0) =~= base);
            if base.len() == 0 {
                assert(base =~= Seq::<u8>::empty());
            }
            if j0 == 0 {
                assert(rest =~= chunk@);
            }
        }
        while j < chunk.len() && (self.msg.buffer.len() as u64) < self.msg.expected_size
            invariant
                0 <= j0 <= j <= chunk@.len(),
                size == self.msg.expected_size as nat,
                size > 0,
                base.len() < size,
                self.msg.buffer@ == base + chunk@.subrange(j0, j as int),
                self.msg.buffer@.len() <= size,
                self.msg.phase is AwaitingPayload,
                self.header@ == hdr0,
                size == le_value(self.header@),
            decreases chunk@.len() - j,
        {
            let b = chunk[j];
            self.msg.buffer.push(b);
            j = j + 1;
            proof {
                assert(base + chunk@.subrange(j0, j - 1).push(b) =~= base + chunk@.subrange(
                    j0,
                    j as int,
                ));
            }
        }
        proof {
            assert(base + rest =~= base + chunk@.subrange(j0, chunk@.len() as int));
        }
        if self.msg.buffer.len() as u64 == self.msg.expected_size {
            if j < chunk.len() {
                // More bytes arrived in this read than the header declared:
                // a protocol violation, so the frame is dropped.
                proof {
                    assert((base + rest).len() > size);
                }
                self.reset();
                proof {
                    assert(self@ =~= s0.on_data(chunk@));
                }
                return DecodeOutcome::Mismatch;
            }
            self.msg.phase = Phase::Complete;
            proof {
                assert(self.msg.buffer@ =~= base + rest);
                assert(self@ =~= s0.on_data(chunk@));
            }
            return DecodeOutcome::Ready;
        }
        proof {
            assert(self.msg.buffer@ =~= base + rest);
            assert(self@ =~= s0.on_data(chunk@));
        }
        DecodeOutcome::Pending
    }

    /// Hands out the completed message and starts a fresh frame.  A message
    /// leaves the decoder only here, so it leaves only with its payload at
    /// exactly the declared size.
    pub fn take_message(&mut self) -> (m: Message)
        requires
            old(self)@.wf(),
            old(self)@.phase is Complete,
        ensures
            final(self)@ == DecoderModel::fresh(),
            final(self)@.wf(),
            m.phase is Complete,
            m.expected_size as nat == old(self)@.size,
            m.buffer@ == old(self)@.payload,
            m.buffer@.len() == m.expected_size as nat,
    {
        let mut buf: Vec<u8> = Vec::new();
        core::mem::swap(&mut buf, &mut self.msg.buffer);
        let size = self.msg.expected_size;
        self.header.clear();
        self.msg.expected_size = 0;
        self.msg.phase = Phase::AwaitingHeader;
        proof {
            assert(self@ =~= DecoderModel::fresh());
        }
        Message { expected_size: size, buffer: buf, phase: Phase::Complete }
    }
}

} // verus!
