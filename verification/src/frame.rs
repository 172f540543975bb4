//! The framing of a response and its reassembly from received chunks.
//!
//! A response starts with a tag byte, followed by the length of the payload
//! as a little-endian 16-bit number, followed by the payload.

use crate::error::SsrpError;
use vstd::prelude::*;

verus! {

/// Tag byte that opens every response (`SVR_RESP`).
pub const RESPONSE_TAG: u8 = 0x05;

/// Number of bytes in front of the payload: the tag and the length field.
pub const HEADER_LEN: usize = 3;

/// Size of the scratch buffer that one receive call fills.
pub const RECEIVE_BUFFER_LEN: usize = 512;

/// How far the bytes received so far are from a whole response.
#[derive(Clone, Copy, Debug, PartialEq, Eq, Structural)]
pub enum FrameStatus {
    /// More bytes are needed.
    Incomplete,
    /// The header and at least the announced payload are there.
    Complete,
    /// The first byte is not the response tag.
    BadTag,
}

/// The payload length that the header announces: the bytes at offsets 1 and
/// 2, least significant first.
pub open spec fn announced_payload_len(bytes: Seq<u8>) -> int
    recommends
        bytes.len() >= HEADER_LEN,
{
    bytes[1] as int + 256 * (bytes[2] as int)
}

/// The length of the whole response that the header announces.
pub open spec fn announced_frame_len(bytes: Seq<u8>) -> int
    recommends
        bytes.len() >= HEADER_LEN,
{
    HEADER_LEN + announced_payload_len(bytes)
}

/// The status of the bytes received so far. The tag is judged as soon as one
/// byte is there, the length as soon as three are.
pub open spec fn frame_status(bytes: Seq<u8>) -> FrameStatus {
    if bytes.len() >= 1 && bytes[0] != RESPONSE_TAG {
        FrameStatus::BadTag
    } else if bytes.len() < HEADER_LEN || bytes.len() < announced_frame_len(bytes) {
        FrameStatus::Incomplete
    } else {
        FrameStatus::Complete
    }
}

/// What the receive loop does next.
#[derive(Clone, Copy, Debug, PartialEq, Eq, Structural)]
pub enum ReadStep {
    /// Receive another chunk and hand it over.
    ReceiveMore,
    /// Stop: the response is complete.
    Finished,
}

/// What the receive loop does on bytes of the given status.
pub open spec fn step_for(status: FrameStatus) -> Result<ReadStep, SsrpError> {
    match status {
        FrameStatus::Incomplete => Ok(ReadStep::ReceiveMore),
        FrameStatus::Complete => Ok(ReadStep::Finished),
        FrameStatus::BadTag => Err(SsrpError::InvalidResponseHeader),
    }
}

/// The bytes that the receive loop holds when it stops, having started with
/// `received` and with `chunks` to come: it takes one chunk after another for
/// as long as the response is incomplete and chunks are left.
pub open spec fn reassembled(received: Seq<u8>, chunks: Seq<Seq<u8>>) -> Seq<u8>
    decreases chunks.len(),
{
    if chunks.len() == 0 || !(frame_status(received) is Incomplete) {
        received
    } else {
        reassembled(received + chunks[0], chunks.skip(1))
    }
}

/// Accumulates the chunks of one response. The tag is checked once, when the
/// first byte arrives, and the length field is read once, when the third does.
pub struct ResponseReader {
    buffer: Vec<u8>,
    tag_checked: bool,
    frame_len: Option<usize>,
}

impl ResponseReader {
    /// The bytes received so far.
    pub closed spec fn bytes(self) -> Seq<u8> {
        self.buffer@
    }

    /// What the reader remembers of the header agrees with the bytes: the
    /// tag counts as checked exactly when a first byte is there and is the
    /// response tag, and the frame length is known exactly from the third
    /// byte of such a response on.
    pub closed spec fn wf(self) -> bool {
        &&& self.tag_checked <==> self.buffer@.len() >= 1 && self.buffer@[0] == RESPONSE_TAG
        &&& self.frame_len == if self.tag_checked && self.buffer@.len() >= HEADER_LEN {
            Some(announced_frame_len(self.buffer@) as usize)
        } else {
            None
        }
    }

    /// A reader that has received nothing.
    pub fn new() -> (reader: ResponseReader)
        ensures
            reader.wf(),
            reader.bytes() == Seq::<u8>::empty(),
    {
        ResponseReader { buffer: Vec::new(), tag_checked: false, frame_len: None }
    }

    /// What to do next, given what has been received so far.
    pub fn next_step(&self) -> (step: Result<ReadStep, SsrpError>)
        requires
            self.wf(),
        ensures
            step == step_for(frame_status(self.bytes())),
    {
        if self.buffer.len() >= 1 && !self.tag_checked {
            return Err(SsrpError::InvalidResponseHeader);
        }
        match self.frame_len {
            Some(total) => {
                if self.buffer.len() >= total {
                    Ok(ReadStep::Finished)
                } else {
                    Ok(ReadStep::ReceiveMore)
                }
            },
            None => Ok(ReadStep::ReceiveMore),
        }
    }

    /// Takes the chunk that one receive call delivered, which may be empty,
    /// and says what to do next. The tag is checked when the first byte
    /// arrives and the length field is read when the third does; neither is
    /// looked at again.
    pub fn receive(&mut self, chunk: &[u8]) -> (step: Result<ReadStep, SsrpError>)
        requires
            old(self).wf(),
        ensures
            final(self).wf(),
            final(self).bytes() == old(self).bytes() + chunk@,
            step == step_for(frame_status(final(self).bytes())),
    {
        self.buffer.extend_from_slice(chunk);
        assert(self.buffer@ =~= old(self).buffer@ + chunk@);
        if !self.tag_checked && self.buffer.len() >= 1 {
            if self.buffer[0] != RESPONSE_TAG {
                return Err(SsrpError::InvalidResponseHeader);
            }
            self.tag_checked = true;
        }
        if self.tag_checked && self.frame_len.is_none() && self.buffer.len() >= HEADER_LEN {
            let low: usize = self.buffer[1] as usize;
            let high: usize = self.buffer[2] as usize;
            self.frame_len = Some(HEADER_LEN + low + 256 * high);
        }
        self.next_step()
    }

    /// Runs the receive loop over chunks that were delivered in this order:
    /// each is taken in turn until the response is complete, its tag proves
    /// wrong, or no chunk is left.
    pub fn receive_all(&mut self, chunks: &[Vec<u8>]) -> (step: Result<ReadStep, SsrpError>)
        requires
            old(self).wf(),
        ensures
            final(self).wf(),
            final(self).bytes() == reassembled(old(self).bytes(), chunks.deep_view()),
            step == step_for(frame_status(final(self).bytes())),
    {
        let ghost all = chunks.deep_view();
        let mut at: usize = 0;
        let mut step = self.next_step();
        assert(all.skip(0) =~= all);
        while at < chunks.len() && matches!(step, Ok(ReadStep::ReceiveMore))
            invariant
                self.wf(),
                all == chunks.deep_view(),
                at <= chunks.len(),
                step == step_for(frame_status(self.bytes())),
                reassembled(old(self).bytes(), all) == reassembled(self.bytes(), all.skip(at as int)),
            decreases chunks.len() - at,
        {
            proof {
                assert(all.skip(at as int)[0] == chunks[at as int]@);
                assert(all.skip(at as int).skip(1) =~= all.skip(at + 1));
            }
            step = self.receive(chunks[at].as_slice());
            at += 1;
        }
        step
    }

    /// The payload of the response: what stands behind the header, once the
    /// response is complete.
    pub fn payload(&self) -> (payload: Option<&[u8]>)
        requires
            self.wf(),
        ensures
            match payload {
                Some(rest) => frame_status(self.bytes()) is Complete && rest@ == self.bytes().skip(
                    HEADER_LEN as int,
                ),
                None => !(frame_status(self.bytes()) is Complete),
            },
    {
        match self.next_step() {
            Ok(ReadStep::Finished) => {
                let all = self.buffer.as_slice();
                Some(vstd::slice::slice_subrange(all, HEADER_LEN, all.len()))
            },
            _ => None,
        }
    }

    /// Gives up the reader for the bytes it has received.
    pub fn into_bytes(self) -> (all: Vec<u8>)
        ensures
            all@ == self.bytes(),
    {
        self.buffer
    }
}

/// A response is refused exactly for its first byte: once a first byte other
/// than the response tag has arrived, the loop is told to fail, takes no
/// further chunk, and no later byte changes that.
pub proof fn lemma_wrong_tag_ends_reading(received: Seq<u8>, chunks: Seq<Seq<u8>>, later: Seq<u8>)
    requires
        received.len() >= 1,
        received[0] != RESPONSE_TAG,
    ensures
        step_for(frame_status(received)) == Err::<ReadStep, SsrpError>(
            SsrpError::InvalidResponseHeader,
        ),
        reassembled(received, chunks) == received,
        frame_status(received + later) is BadTag,
{
    assert((received + later)[0] == received[0]);
}

/// The loop is told to fail for no other reason than a wrong first byte.
pub proof fn lemma_failure_means_wrong_tag(received: Seq<u8>)
    ensures
        step_for(frame_status(received)) is Err <==> received.len() >= 1 && received[0]
            != RESPONSE_TAG,
{
}

/// Whether the receive loop, fed `chunks` from the start, leaves no byte of
/// them behind: at each chunk, either the response is still incomplete, so
/// that the chunk is taken, or this chunk and all behind it are empty.
pub open spec fn is_taken_whole(received: Seq<u8>, chunks: Seq<Seq<u8>>) -> bool {
    forall|k: int|
        0 <= k < chunks.len() ==> {
            ||| frame_status(received + #[trigger] chunks.take(k).flatten()) is Incomplete
            ||| chunks.skip(k).flatten().len() == 0
        }
}

/// Fragmented delivery gives what whole delivery gives: where the receive
/// loop leaves no byte of `chunks` behind, it ends with their concatenation,
/// which is also what it ends with when that concatenation arrives as a
/// single chunk.
pub proof fn lemma_fragments_reassemble(chunks: Seq<Seq<u8>>)
    requires
        is_taken_whole(Seq::empty(), chunks),
    ensures
        reassembled(Seq::empty(), chunks) == chunks.flatten(),
        reassembled(Seq::empty(), chunks) == reassembled(Seq::empty(), seq![chunks.flatten()]),
{
    let nothing = Seq::<u8>::empty();
    let whole = chunks.flatten();
    lemma_reassembled_taken_whole(nothing, chunks);
    assert(nothing + whole =~= whole);
    assert(seq![whole].skip(1) =~= Seq::<Seq<u8>>::empty());
    assert(reassembled(nothing + whole, seq![whole].skip(1)) == whole);
}

/// The receive loop, started with `received`, ends with all of `chunks`
/// appended where it leaves no byte of them behind.
pub proof fn lemma_reassembled_taken_whole(received: Seq<u8>, chunks: Seq<Seq<u8>>)
    requires
        is_taken_whole(received, chunks),
    ensures
        reassembled(received, chunks) == received + chunks.flatten(),
    decreases chunks.len(),
{
    if chunks.len() == 0 {
        assert(received + chunks.flatten() =~= received);
    } else {
        let first = chunks[0];
        let rest = chunks.skip(1);
        assert(chunks.take(0).flatten() =~= Seq::<u8>::empty());
        assert(received + chunks.take(0).flatten() =~= received);
        assert(chunks.skip(0) =~= chunks);
        assert(chunks.drop_first() =~= rest);
        if frame_status(received) is Incomplete {
            assert forall|k: int| 0 <= k < rest.len() implies {
                ||| frame_status((received + first) + #[trigger] rest.take(k).flatten())
                    is Incomplete
                ||| rest.skip(k).flatten().len() == 0
            } by {
                let longer = chunks.take(k + 1);
                assert(longer.first() == first);
                assert(longer.drop_first() =~= rest.take(k));
                assert(longer.flatten() == first + rest.take(k).flatten());
                assert((received + first) + rest.take(k).flatten() =~= received
                    + longer.flatten());
                assert(rest.skip(k) =~= chunks.skip(k + 1));
            }
            lemma_reassembled_taken_whole(received + first, rest);
            assert((received + first) + rest.flatten() =~= received + chunks.flatten());
        } else {
            assert(received + chunks.flatten() =~= received);
        }
    }
}

} // verus!
