//! Frames: `[len: u32 LE][crc32: u32 LE][view: u64 LE][payload: len bytes]`.
//! The checksum covers the payload. A stream is frames laid end to end.
use crate::aligned;
use crate::crc;
use crate::crc::CrcProof;
use crate::error::{CodecError, FormatIssue, WalError};
use crate::record::{ComponentId, WalEntry};
use vstd::bytes::*;
use vstd::prelude::*;
use vstd::slice::*;

verus! {

/// Frame header size: 4 bytes length, 4 bytes CRC-32, 8 bytes view.
pub const FRAME_HEADER_SIZE: u64 = 16;

/// Maximum frame payload (256 MiB). Rejects corrupt length prefixes that would
/// cause multi-gigabyte allocations.
pub const MAX_FRAME_SIZE: usize = 256 * 1024 * 1024;

/// A frame as bytes at an offset of its stream.
#[verifier::ext_equal]
pub struct FrameView {
    pub offset: int,
    pub header: Seq<u8>,
    pub payload: Seq<u8>,
}

pub open spec fn header_len(header: Seq<u8>) -> u32 {
    spec_u32_from_le_bytes(header.subrange(0, 4))
}

pub open spec fn header_crc(header: Seq<u8>) -> u32 {
    spec_u32_from_le_bytes(header.subrange(4, 8))
}

pub open spec fn header_view(header: Seq<u8>) -> u64 {
    spec_u64_from_le_bytes(header.subrange(8, 16))
}

/// The header of a frame that holds `payload` under `view`.
pub open spec fn frame_header(payload: Seq<u8>, view: u64) -> Seq<u8> {
    spec_u32_to_le_bytes(payload.len() as u32) + spec_u32_to_le_bytes(crc::crc32(payload))
        + spec_u64_to_le_bytes(view)
}

/// The bytes of a frame that holds `payload` under `view`.
pub open spec fn frame_bytes(payload: Seq<u8>, view: u64) -> Seq<u8> {
    frame_header(payload, view) + payload
}

/// What stands at one position of a stream.
pub enum FrameAt {
    /// Fewer bytes than a header, possibly none.
    ShortHeader,
    /// A header that claims more than the maximum; `present` says whether that
    /// many bytes follow.
    TooLarge { len: u32, present: bool },
    /// A header whose payload is cut short.
    ShortPayload { view: u64 },
    Whole(FrameView),
}

pub open spec fn frame_at(bytes: Seq<u8>, pos: int) -> FrameAt {
    if pos + 16 > bytes.len() {
        FrameAt::ShortHeader
    } else {
        let header = bytes.subrange(pos, pos + 16);
        let len = header_len(header);
        if len > MAX_FRAME_SIZE {
            FrameAt::TooLarge { len, present: pos + 16 + len <= bytes.len() }
        } else if pos + 16 + len > bytes.len() {
            FrameAt::ShortPayload { view: header_view(header) }
        } else {
            FrameAt::Whole(
                FrameView {
                    offset: pos,
                    header,
                    payload: bytes.subrange(pos + 16, pos + 16 + len),
                },
            )
        }
    }
}

/// Why no complete frame can be read from a bounded buffer at `pos`.
pub open spec fn buffer_error(bytes: Seq<u8>, pos: int) -> Option<WalError> {
    match frame_at(bytes, pos) {
        FrameAt::ShortHeader => Some(
            WalError::Format(FormatIssue::TruncatedHeader { offset: pos as u64 }),
        ),
        FrameAt::ShortPayload { .. } => Some(
            WalError::Format(FormatIssue::TruncatedPayload { offset: pos as u64 }),
        ),
        FrameAt::TooLarge { len, present } => if present {
            Some(
                WalError::Format(FormatIssue::FrameTooLarge { offset: pos as u64, len: len as u64 }),
            )
        } else {
            Some(WalError::Format(FormatIssue::TruncatedPayload { offset: pos as u64 }))
        },
        FrameAt::Whole(_) => None,
    }
}

/// The whole frames from `pos` on, up to the first position without one.
pub open spec fn stream(bytes: Seq<u8>, pos: int) -> Seq<FrameView>
    decreases bytes.len() - pos,
{
    match frame_at(bytes, pos) {
        FrameAt::Whole(f) => if pos >= 0 {
            seq![f] + stream(bytes, pos + 16 + f.payload.len())
        } else {
            Seq::empty()
        },
        _ => Seq::empty(),
    }
}

/// The first position from `pos` on that holds no whole frame.
pub open spec fn stream_end(bytes: Seq<u8>, pos: int) -> int
    decreases bytes.len() - pos,
{
    match frame_at(bytes, pos) {
        FrameAt::Whole(f) => if pos >= 0 {
            stream_end(bytes, pos + 16 + f.payload.len())
        } else {
            pos
        },
        _ => pos,
    }
}

/// Original frame bytes at an offset of their stream. The payload is aligned
/// so that an archive can be validated in place.
pub struct RawFrame {
    pub offset: u64,
    pub header: [u8; 16],
    pub payload: rkyv::util::AlignedVec<16>,
}

impl View for RawFrame {
    type V = FrameView;

    open spec fn view(&self) -> FrameView {
        FrameView {
            offset: self.offset as int,
            header: self.header@,
            payload: aligned::aligned_bytes(self.payload),
        }
    }
}

/// The frames' views, in order.
pub open spec fn frame_views(frames: Seq<RawFrame>) -> Seq<FrameView> {
    Seq::new(frames.len(), |i: int| frames[i]@)
}

impl RawFrame {
    /// A frame's length prefix agrees with its payload, within the maximum.
    pub open spec fn wf(&self) -> bool {
        &&& self@.payload.len() == header_len(self@.header)
        &&& self@.payload.len() <= MAX_FRAME_SIZE
        &&& self.offset + 16 + self@.payload.len() <= u64::MAX
    }

    pub open spec fn spec_stamp(&self) -> u64 {
        header_view(self@.header)
    }

    pub open spec fn spec_end(&self) -> int {
        self.offset + 16 + self@.payload.len()
    }

    /// What checking the payload against the stored checksum gives.
    pub open spec fn spec_verify(&self) -> Result<(), WalError> {
        if crc::crc32(self@.payload) == header_crc(self@.header) {
            Ok(())
        } else {
            Err(
                WalError::ChecksumMismatch {
                    offset: self.offset,
                    expected: header_crc(self@.header),
                    actual: crc::crc32(self@.payload),
                },
            )
        }
    }

    fn header_at(bytes: &[u8], pos: usize) -> (header: [u8; 16])
        requires
            pos + 16 <= bytes@.len(),
        ensures
            header@ == bytes@.subrange(pos as int, pos + 16),
    {
        let total: usize = bytes.len();
        let mut header: [u8; 16] = [0u8; 16];
        let mut i: usize = 0;
        while i < 16
            invariant
                i <= 16,
                total == bytes@.len(),
                pos + 16 <= total,
                forall|k: int| 0 <= k < i ==> header@[k] == bytes@[pos + k],
            decreases 16 - i,
        {
            header[i] = bytes[pos + i];
            i = i + 1;
        }
        assert(header@ =~= bytes@.subrange(pos as int, pos + 16));
        header
    }

    fn header_len_of(header: &[u8; 16]) -> (len: u32)
        ensures
            len == header_len(header@),
    {
        u32_from_le_bytes(slice_subrange(header.as_slice(), 0, 4))
    }

    fn header_view_of(header: &[u8; 16]) -> (view: u64)
        ensures
            view == header_view(header@),
    {
        u64_from_le_bytes(slice_subrange(header.as_slice(), 8, 16))
    }

    /// Reads one frame of a stream without changing it. Nothing, or a frame cut
    /// short, gives `None`; a length above the maximum is an error.
    pub fn read_from(bytes: &[u8], pos: usize) -> (r: Result<Option<RawFrame>, WalError>)
        ensures
            match frame_at(bytes@, pos as int) {
                FrameAt::ShortHeader | FrameAt::ShortPayload { .. } => r == Ok::<
                    Option<RawFrame>,
                    WalError,
                >(None),
                FrameAt::TooLarge { len, .. } => r == Err::<Option<RawFrame>, WalError>(
                    WalError::Format(
                        FormatIssue::FrameTooLarge { offset: pos as u64, len: len as u64 },
                    ),
                ),
                FrameAt::Whole(f) => r matches Ok(Some(frame)) && frame@ == f && frame.wf(),
            },
    {
        if bytes.len() < 16 || pos > bytes.len() - 16 {
            return Ok(None);
        }
        let header = Self::header_at(bytes, pos);
        let len: u32 = Self::header_len_of(&header);
        if len as usize > MAX_FRAME_SIZE {
            return Err(
                WalError::Format(FormatIssue::FrameTooLarge { offset: pos as u64, len: len as u64 }),
            );
        }
        let start: usize = pos + 16;
        if len as usize > bytes.len() - start {
            return Ok(None);
        }
        let payload = aligned::aligned_copy(slice_subrange(bytes, start, start + len as usize));
        Ok(Some(RawFrame { offset: pos as u64, header, payload }))
    }

    /// Reads a complete frame of a bounded buffer. The claimed size is checked
    /// before aligned storage is allocated; a short buffer is an error.
    pub fn read_bytes(bytes: &[u8], pos: usize) -> (r: Result<RawFrame, WalError>)
        ensures
            match frame_at(bytes@, pos as int) {
                FrameAt::Whole(f) => r matches Ok(frame) && frame@ == f && frame.wf(),
                _ => r == Err::<RawFrame, WalError>(buffer_error(bytes@, pos as int)->Some_0),
            },
    {
        if bytes.len() < 16 || pos > bytes.len() - 16 {
            return Err(WalError::Format(FormatIssue::TruncatedHeader { offset: pos as u64 }));
        }
        let header = Self::header_at(bytes, pos);
        let len: u32 = Self::header_len_of(&header);
        if len as usize > bytes.len() - pos - 16 {
            return Err(WalError::Format(FormatIssue::TruncatedPayload { offset: pos as u64 }));
        }
        match Self::read_from(bytes, pos) {
            Err(e) => Err(e),
            Ok(Some(frame)) => Ok(frame),
            Ok(None) => Err(
                WalError::Format(FormatIssue::TruncatedPayload { offset: pos as u64 }),
            ),
        }
    }

    /// Checks the payload against the stored checksum.
    pub fn verify(&self) -> (r: Result<CrcProof, WalError>)
        ensures
            match self.spec_verify() {
                Ok(_) => r matches Ok(proof) && proof.crc() == header_crc(self@.header),
                Err(e) => r == Err::<CrcProof, WalError>(e),
            },
    {
        let stored: u32 = u32_from_le_bytes(slice_subrange(self.header.as_slice(), 4, 8));
        let payload = aligned::as_slice(&self.payload);
        match CrcProof::verify(payload, stored) {
            Some(proof) => Ok(proof),
            None => Err(
                WalError::ChecksumMismatch {
                    offset: self.offset,
                    expected: stored,
                    actual: crc::checksum(payload),
                },
            ),
        }
    }

    /// The view that the frame was stamped with.
    pub fn stamp(&self) -> (view: u64)
        ensures
            view == self.spec_stamp(),
    {
        Self::header_view_of(&self.header)
    }

    /// The payload, aligned for in-place validation.
    pub fn payload_bytes(&self) -> (bytes: &[u8])
        ensures
            bytes@ == self@.payload,
    {
        aligned::as_slice(&self.payload)
    }

    pub fn payload_len(&self) -> (len: usize)
        ensures
            len == self@.payload.len(),
    {
        aligned::as_slice(&self.payload).len()
    }

    /// The offset at which the next frame of the stream starts.
    pub fn next_offset(&self) -> (next: u64)
        requires
            self.wf(),
        ensures
            next == self.spec_end(),
    {
        self.offset + FRAME_HEADER_SIZE + self.payload_len() as u64
    }

    /// Appends the frame's original bytes.
    pub fn append_to(&self, bytes: &mut Vec<u8>)
        ensures
            final(bytes)@ == old(bytes)@ + (self@.header + self@.payload),
    {
        let ghost before = bytes@;
        append_slice(bytes, self.header.as_slice());
        append_slice(bytes, aligned::as_slice(&self.payload));
        assert(bytes@ =~= before + (self@.header + self@.payload));
    }
}

/// Appends a copy of `tail`.
pub fn append_slice(bytes: &mut Vec<u8>, tail: &[u8])
    ensures
        final(bytes)@ == old(bytes)@ + tail@,
{
    let ghost before = bytes@;
    bytes.extend_from_slice(tail);
    assert(bytes@ =~= before + tail@);
}

/// Builds a frame around `payload`. A payload whose length does not fit the
/// length prefix is refused.
pub fn write_frame(payload: &[u8], view: u64) -> (r: Result<Vec<u8>, WalError>)
    ensures
        payload@.len() <= u32::MAX ==> (r matches Ok(bytes) && bytes@ == frame_bytes(payload@, view)),
        payload@.len() > u32::MAX ==> r == Err::<Vec<u8>, WalError>(
            WalError::Format(FormatIssue::EntryTooLarge { len: payload@.len() as u64 }),
        ),
{
    if payload.len() as u64 > u32::MAX as u64 {
        return Err(WalError::Format(FormatIssue::EntryTooLarge { len: payload.len() as u64 }));
    }
    let mut bytes: Vec<u8> = Vec::new();
    let len: u32 = payload.len() as u32;
    append_slice(&mut bytes, u32_to_le_bytes(len).as_slice());
    append_slice(&mut bytes, u32_to_le_bytes(crc::checksum(payload)).as_slice());
    append_slice(&mut bytes, u64_to_le_bytes(view).as_slice());
    append_slice(&mut bytes, payload);
    assert(bytes@ =~= frame_bytes(payload@, view));
    Ok(bytes)
}

/// How a stream read to its end stops.
#[derive(Clone, Copy, Debug, PartialEq, Eq, Structural)]
pub enum StreamTail {
    /// The bytes end here, or within a header.
    End,
    /// A header under `view` whose payload is cut short.
    ShortPayload { view: u64 },
    /// A header that claims more than the maximum.
    TooLarge { len: u32 },
}

pub open spec fn tail_of(at: FrameAt) -> StreamTail {
    match at {
        FrameAt::ShortHeader | FrameAt::Whole(_) => StreamTail::End,
        FrameAt::ShortPayload { view } => StreamTail::ShortPayload { view },
        FrameAt::TooLarge { len, .. } => StreamTail::TooLarge { len },
    }
}

/// The whole frames of a byte stream and what follows them.
pub struct FrameScan {
    pub frames: Vec<RawFrame>,
    /// Offset at which the frames end.
    pub end: u64,
    pub tail: StreamTail,
}

/// Frames laid end to end from `start` to `end`.
pub open spec fn contiguous(frames: Seq<RawFrame>, start: int, end: int) -> bool
    decreases frames.len(),
{
    if frames.len() == 0 {
        start == end
    } else {
        let last = frames.last();
        &&& last.wf()
        &&& last.spec_end() == end
        &&& contiguous(frames.drop_last(), start, last.offset as int)
    }
}

/// Each of a run of contiguous frames lies within it, right after its
/// predecessor.
pub proof fn lemma_contiguous_index(frames: Seq<RawFrame>, start: int, end: int, i: int)
    requires
        contiguous(frames, start, end),
        0 <= i < frames.len(),
    ensures
        frames[i].wf(),
        start <= frames[i].offset,
        frames[i].spec_end() <= end,
        frames[i].offset == if i == 0 {
            start
        } else {
            frames[i - 1].spec_end()
        },
        i + 1 == frames.len() ==> frames[i].spec_end() == end,
    decreases frames.len(),
{
    reveal_with_fuel(contiguous, 2);
    let init = frames.drop_last();
    if i + 1 < frames.len() {
        lemma_contiguous_index(init, start, frames.last().offset as int, i);
        if i > 0 {
            assert(init[i - 1] == frames[i - 1]);
        }
    } else if init.len() > 0 {
        lemma_contiguous_index(init, start, frames.last().offset as int, i - 1);
    }
}

/// Splits a byte stream into its whole frames, from `start` on.
pub fn scan_stream(bytes: &[u8], start: usize) -> (scan: FrameScan)
    ensures
        frame_views(scan.frames@) == stream(bytes@, start as int),
        scan.end == stream_end(bytes@, start as int),
        scan.tail == tail_of(frame_at(bytes@, scan.end as int)),
        contiguous(scan.frames@, start as int, scan.end as int),
        scan.end <= bytes@.len() || scan.end == start,
{
    let total: usize = bytes.len();
    let mut frames: Vec<RawFrame> = Vec::new();
    let mut pos: usize = start;
    assert(frame_views(frames@) + stream(bytes@, pos as int) =~= stream(bytes@, start as int));
    loop
        invariant
            total == bytes@.len(),
            start <= pos,
            pos <= bytes@.len() || pos == start,
            frame_views(frames@) + stream(bytes@, pos as int) == stream(bytes@, start as int),
            stream_end(bytes@, pos as int) == stream_end(bytes@, start as int),
            contiguous(frames@, start as int, pos as int),
        decreases bytes@.len() + 1 - pos,
    {
        match RawFrame::read_from(bytes, pos) {
            Err(_) => {
                let header = RawFrame::header_at(bytes, pos);
                let len: u32 = RawFrame::header_len_of(&header);
                assert(frame_views(frames@) + Seq::<FrameView>::empty() =~= frame_views(frames@));
                return FrameScan { frames, end: pos as u64, tail: StreamTail::TooLarge { len } };
            },
            Ok(None) => {
                assert(frame_views(frames@) + Seq::<FrameView>::empty() =~= frame_views(frames@));
                if bytes.len() < 16 || pos > bytes.len() - 16 {
                    return FrameScan { frames, end: pos as u64, tail: StreamTail::End };
                }
                let header = RawFrame::header_at(bytes, pos);
                let view: u64 = RawFrame::header_view_of(&header);
                return FrameScan {
                    frames,
                    end: pos as u64,
                    tail: StreamTail::ShortPayload { view },
                };
            },
            Ok(Some(frame)) => {
                let ghost before = frames@;
                let ghost f = frame@;
                let next: usize = pos + 16 + frame.payload_len();
                frames.push(frame);
                proof {
                    assert(frames@.drop_last() =~= before);
                    assert(frame_views(frames@) =~= frame_views(before).push(f));
                    assert(frame_views(frames@) + stream(bytes@, next as int) =~= frame_views(
                        before,
                    ) + (seq![f] + stream(bytes@, next as int)));
                }
                pos = next;
            },
        }
    }
}

/// A stream that starts within the bytes ends within them, at a position that
/// holds no whole frame.
pub proof fn lemma_stream_end(bytes: Seq<u8>, pos: int)
    requires
        0 <= pos <= bytes.len(),
    ensures
        pos <= stream_end(bytes, pos) <= bytes.len(),
        !(frame_at(bytes, stream_end(bytes, pos)) is Whole),
    decreases bytes.len() - pos,
{
    if let FrameAt::Whole(f) = frame_at(bytes, pos) {
        lemma_stream_end(bytes, pos + 16 + f.payload.len());
    }
}

/// A frame together with what its payload decodes to.
pub struct DecodedFrame {
    pub frame: RawFrame,
    /// What the entry decoder makes of the payload, or its complaint.
    pub entry: Result<WalEntry, String>,
    /// For a schema: the codec that the local registry resolves each source
    /// component to, by stable name. Not read for other entries.
    pub binding: Result<Vec<(ComponentId, ComponentId)>, CodecError>,
}

impl DecodedFrame {
    /// What decoding the frame gives: the checksum is looked at first.
    pub open spec fn spec_decode(&self) -> Result<WalEntry, WalError> {
        match self.frame.spec_verify() {
            Err(e) => Err(e),
            Ok(_) => match self.entry {
                Ok(entry) => Ok(entry),
                Err(detail) => Err(
                    WalError::Format(
                        FormatIssue::CorruptEntry { offset: self.frame.offset, detail },
                    ),
                ),
            },
        }
    }

    /// The verified entry, the checksum evidence and the frame's view.
    pub fn decode(&self) -> (r: Result<(&WalEntry, CrcProof, u64), WalError>)
        ensures
            match self.spec_decode() {
                Ok(entry) => r matches Ok((e, proof, view)) && *e == entry && view
                    == self.frame.spec_stamp() && proof.crc() == header_crc(self.frame@.header),
                Err(error) => r == Err::<(&WalEntry, CrcProof, u64), WalError>(error),
            },
    {
        match self.frame.verify() {
            Err(e) => Err(e),
            Ok(proof) => match &self.entry {
                Ok(entry) => Ok((entry, proof, self.frame.stamp())),
                Err(detail) => Err(
                    WalError::Format(
                        FormatIssue::CorruptEntry {
                            offset: self.frame.offset,
                            detail: detail.clone(),
                        },
                    ),
                ),
            },
        }
    }
}

/// The raw frames of decoded ones.
pub open spec fn raw_frames(frames: Seq<DecodedFrame>) -> Seq<RawFrame> {
    Seq::new(frames.len(), |i: int| frames[i].frame)
}

} // verus!
