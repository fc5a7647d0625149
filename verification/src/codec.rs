//! Per-connection frame codec state.
//!
//! The byte layout of a frame is owed to the external codec and is treated as
//! opaque here: the codec turns the record's payload bytes into the bytes that
//! go on the wire, one frame per session.  This module wraps that codec
//! together with a ghost model of its state: whether the encoder has started
//! its first frame, whether a frame is open, and which payload bytes the open
//! frame has seen so far.

use vstd::prelude::*;

verus! {

#[verifier::external_type_specification]
#[verifier::external_body]
pub struct ExEncoder(defmt::Encoder);

pub assume_specification[ defmt::Encoder::new ]() -> defmt::Encoder;

/// Bytes the codec emits when a frame is started: a single zero separator
/// before the encoder's very first frame, nothing on later frames.
pub open spec fn start_mark(started: bool) -> Seq<u8> {
    if started {
        Seq::<u8>::empty()
    } else {
        seq![0u8]
    }
}

/// Bytes the codec emits for a payload written into an open frame, as a
/// function of the payload bytes already written into that frame and of the
/// new payload.
pub uninterp spec fn write_chunk(prior: Seq<u8>, data: Seq<u8>) -> Seq<u8>;

/// Bytes the codec emits when a frame is closed, as a function of the payload
/// bytes the frame has seen.
pub uninterp spec fn end_mark(frame: Seq<u8>) -> Seq<u8>;

/// One connection's codec, paired with the ghost model of its state.
pub struct Codec {
    enc: defmt::Encoder,
    started: Ghost<bool>,
    in_frame: Ghost<bool>,
    frame: Ghost<Seq<u8>>,
}

impl Codec {
    /// Whether the encoder has started its first frame.
    pub closed spec fn started(&self) -> bool {
        self.started@
    }

    /// Whether a frame is currently open.
    pub closed spec fn in_frame(&self) -> bool {
        self.in_frame@
    }

    /// The payload bytes written into the open frame so far.
    pub closed spec fn frame(&self) -> Seq<u8> {
        self.frame@
    }

    pub fn new() -> (c: Codec)
        ensures
            !c.started(),
            !c.in_frame(),
            c.frame() == Seq::<u8>::empty(),
    {
        Codec {
            enc: defmt::Encoder::new(),
            started: Ghost(false),
            in_frame: Ghost(false),
            frame: Ghost(Seq::<u8>::empty()),
        }
    }

    /// Relies on defmt::Encoder::start_frame in the default rzcobs framing:
    /// it emits one 0x00 frame separator the first time this encoder starts a
    /// frame and nothing on later frames.  The `requires` keep every codec in
    /// the documented start/write/end discipline, under which a frame always
    /// begins with zeroed run-length state (a new encoder starts zeroed and
    /// `end_frame` re-zeroes it), so the bytes later emitted into the frame
    /// are a function of the frame's own payload alone.
    #[verifier::external_body]
    pub fn start_frame(&mut self) -> (out: Vec<u8>)
        requires
            !old(self).in_frame(),
        ensures
            final(self).started(),
            final(self).in_frame(),
            final(self).frame() == Seq::<u8>::empty(),
            out@ == start_mark(old(self).started()),
    {
        let mut out: Vec<u8> = Vec::new();
        self.enc.start_frame(|b: &[u8]| out.extend_from_slice(b));
        out
    }

    /// Relies on defmt::Encoder::write in the default rzcobs framing: inside a
    /// frame, the bytes it emits are a function of the payload bytes already
    /// written into the frame and of the new payload alone.
    #[verifier::external_body]
    pub fn write(&mut self, data: &[u8]) -> (out: Vec<u8>)
        requires
            old(self).in_frame(),
        ensures
            final(self).started() == old(self).started(),
            final(self).in_frame(),
            final(self).frame() == old(self).frame() + data@,
            out@ == write_chunk(old(self).frame(), data@),
    {
        let mut out: Vec<u8> = Vec::new();
        self.enc.write(data, |b: &[u8]| out.extend_from_slice(b));
        out
    }

    /// Relies on defmt::Encoder::end_frame in the default rzcobs framing: the
    /// trailer it emits is a function of the payload bytes the frame has seen
    /// alone, and it resets the run-length state so the encoder is ready for a
    /// fresh frame.
    #[verifier::external_body]
    pub fn end_frame(&mut self) -> (out: Vec<u8>)
        requires
            old(self).in_frame(),
        ensures
            final(self).started() == old(self).started(),
            !final(self).in_frame(),
            final(self).frame() == Seq::<u8>::empty(),
            out@ == end_mark(old(self).frame()),
    {
        let mut out: Vec<u8> = Vec::new();
        self.enc.end_frame(|b: &[u8]| out.extend_from_slice(b));
        out
    }
}

} // verus!
