//! Laws that tie reading a frame stream to writing it.
use crate::crc;
use crate::frame;
use crate::error::WalError;
use crate::frame::{DecodedFrame, FrameAt, FrameView};
use crate::record::WalEntry;
use vstd::bytes::*;
use vstd::prelude::*;

verus! {

/// Payloads with the views they are written under, framed end to end.
pub open spec fn laid_out(entries: Seq<(Seq<u8>, u64)>) -> Seq<u8>
    decreases entries.len(),
{
    if entries.len() == 0 {
        Seq::empty()
    } else {
        frame::frame_bytes(entries[0].0, entries[0].1) + laid_out(entries.skip(1))
    }
}

/// The frames of `laid_out(entries)` when it starts at offset `start`.
pub open spec fn written_frames(entries: Seq<(Seq<u8>, u64)>, start: int) -> Seq<FrameView>
    decreases entries.len(),
{
    if entries.len() == 0 {
        Seq::empty()
    } else {
        let (payload, view) = entries[0];
        seq![FrameView { offset: start, header: frame::frame_header(payload, view), payload }]
            + written_frames(entries.skip(1), start + 16 + payload.len())
    }
}

pub open spec fn all_fit(entries: Seq<(Seq<u8>, u64)>) -> bool {
    forall|i: int| 0 <= i < entries.len() ==> (#[trigger] entries[i]).0.len() <= frame::MAX_FRAME_SIZE
}

/// What a written header says is what was written.
pub proof fn law_header_reads_back(payload: Seq<u8>, view: u64)
    requires
        payload.len() <= u32::MAX,
    ensures
        frame::frame_header(payload, view).len() == 16,
        frame::header_len(frame::frame_header(payload, view)) == payload.len(),
        frame::header_crc(frame::frame_header(payload, view)) == crc::crc32(payload),
        frame::header_view(frame::frame_header(payload, view)) == view,
{
    lemma_auto_spec_u32_to_from_le_bytes();
    lemma_auto_spec_u64_to_from_le_bytes();
    let h = frame::frame_header(payload, view);
    assert(h.subrange(0, 4) =~= spec_u32_to_le_bytes(payload.len() as u32));
    assert(h.subrange(4, 8) =~= spec_u32_to_le_bytes(crc::crc32(payload)));
    assert(h.subrange(8, 16) =~= spec_u64_to_le_bytes(view));
}

proof fn lemma_frame_at(lead: Seq<u8>, payload: Seq<u8>, view: u64, rest: Seq<u8>)
    requires
        payload.len() <= frame::MAX_FRAME_SIZE,
    ensures
        frame::frame_at(lead + frame::frame_bytes(payload, view) + rest, lead.len() as int)
            == FrameAt::Whole(
            FrameView {
                offset: lead.len() as int,
                header: frame::frame_header(payload, view),
                payload,
            },
        ),
{
    law_header_reads_back(payload, view);
    let bytes = lead + frame::frame_bytes(payload, view) + rest;
    let pos = lead.len() as int;
    assert(bytes.subrange(pos, pos + 16) =~= frame::frame_header(payload, view));
    assert(bytes.subrange(pos + 16, pos + 16 + payload.len()) =~= payload);
}

/// A frame with any one byte of its payload altered is read whole and fails its
/// checksum.
pub proof fn law_altered_payload_is_noticed(
    lead: Seq<u8>,
    payload: Seq<u8>,
    view: u64,
    rest: Seq<u8>,
    i: int,
    byte: u8,
)
    requires
        payload.len() <= frame::MAX_FRAME_SIZE,
        0 <= i < payload.len(),
        byte != payload[i],
    ensures
        frame::frame_at(
            lead + frame::frame_bytes(payload, view).update(16 + i, byte) + rest,
            lead.len() as int,
        ) matches FrameAt::Whole(f) && f.payload == payload.update(i, byte) && crc::crc32(f.payload)
            != frame::header_crc(f.header),
{
    law_header_reads_back(payload, view);
    crc::law_changed_byte_changes_checksum(payload, i, byte);
    let bytes = lead + frame::frame_bytes(payload, view).update(16 + i, byte) + rest;
    let pos = lead.len() as int;
    assert(bytes.subrange(pos, pos + 16) =~= frame::frame_header(payload, view));
    assert(bytes.subrange(pos + 16, pos + 16 + payload.len()) =~= payload.update(i, byte));
}

proof fn lemma_torn_frame(lead: Seq<u8>, payload: Seq<u8>, view: u64, kept: int)
    requires
        payload.len() <= frame::MAX_FRAME_SIZE,
        0 <= kept < frame::frame_bytes(payload, view).len(),
    ensures
        !(frame::frame_at(
            lead + frame::frame_bytes(payload, view).take(kept),
            lead.len() as int,
        ) is Whole),
{
    law_header_reads_back(payload, view);
    let bytes = lead + frame::frame_bytes(payload, view).take(kept);
    let pos = lead.len() as int;
    if pos + 16 <= bytes.len() {
        assert(bytes.subrange(pos, pos + 16) =~= frame::frame_header(payload, view));
    }
}

proof fn lemma_stream_of_written(lead: Seq<u8>, entries: Seq<(Seq<u8>, u64)>, rest: Seq<u8>)
    requires
        all_fit(entries),
        !(frame::frame_at(
            lead + laid_out(entries) + rest,
            (lead + laid_out(entries)).len() as int,
        ) is Whole),
    ensures
        frame::stream(lead + laid_out(entries) + rest, lead.len() as int) == written_frames(
            entries,
            lead.len() as int,
        ),
        frame::stream_end(lead + laid_out(entries) + rest, lead.len() as int) == (lead + laid_out(
            entries,
        )).len(),
    decreases entries.len(),
{
    if entries.len() > 0 {
        let (payload, view) = entries[0];
        let first = frame::frame_bytes(payload, view);
        let tail = entries.skip(1);
        law_header_reads_back(payload, view);
        assert(first.len() == 16 + payload.len());
        lemma_frame_at(lead, payload, view, laid_out(tail) + rest);
        assert(lead + first + (laid_out(tail) + rest) =~= lead + laid_out(entries) + rest);
        assert((lead + first) + laid_out(tail) + rest =~= lead + laid_out(entries) + rest);
        assert((lead + first) + laid_out(tail) =~= lead + laid_out(entries));
        assert(all_fit(tail)) by {
            assert forall|i: int| 0 <= i < tail.len() implies (#[trigger] tail[i]).0.len()
                <= frame::MAX_FRAME_SIZE by {
                assert(tail[i] == entries[i + 1]);
            }
        }
        lemma_stream_of_written(lead + first, tail, rest);
    } else {
        assert(lead + laid_out(entries) =~= lead);
    }
}

/// Reading a stream gives back exactly the frames that were written to it, in
/// order, whatever bytes lead it.
pub proof fn law_written_frames_read_back(lead: Seq<u8>, entries: Seq<(Seq<u8>, u64)>)
    requires
        all_fit(entries),
    ensures
        frame::stream(lead + laid_out(entries), lead.len() as int) == written_frames(
            entries,
            lead.len() as int,
        ),
        frame::stream_end(lead + laid_out(entries), lead.len() as int) == (lead + laid_out(
            entries,
        )).len(),
{
    let rest = Seq::<u8>::empty();
    assert(lead + laid_out(entries) + rest =~= lead + laid_out(entries));
    lemma_stream_of_written(lead, entries, rest);
}

/// A frame whose write was cut short anywhere does not appear, and takes none
/// of the frames before it along.
pub proof fn law_torn_write_is_dropped(
    lead: Seq<u8>,
    entries: Seq<(Seq<u8>, u64)>,
    payload: Seq<u8>,
    view: u64,
    kept: int,
)
    requires
        all_fit(entries),
        payload.len() <= frame::MAX_FRAME_SIZE,
        0 <= kept < frame::frame_bytes(payload, view).len(),
    ensures
        ({
            let bytes = lead + laid_out(entries) + frame::frame_bytes(payload, view).take(kept);
            &&& frame::stream(bytes, lead.len() as int) == written_frames(
                entries,
                lead.len() as int,
            )
            &&& frame::stream_end(bytes, lead.len() as int) == (lead + laid_out(entries)).len()
        }),
{
    lemma_torn_frame(lead + laid_out(entries), payload, view, kept);
    lemma_stream_of_written(lead, entries, frame::frame_bytes(payload, view).take(kept));
}

/// A frame is its length, its checksum and its view, each least significant
/// byte first, and then the payload.
pub proof fn law_frame_layout(payload: Seq<u8>, view: u64)
    requires
        payload.len() <= u32::MAX,
    ensures
        ({
            let bytes = frame::frame_bytes(payload, view);
            &&& bytes.len() == 16 + payload.len()
            &&& bytes.subrange(0, 4) == spec_u32_to_le_bytes(payload.len() as u32)
            &&& bytes.subrange(4, 8) == spec_u32_to_le_bytes(crc::crc32(payload))
            &&& bytes.subrange(8, 16) == spec_u64_to_le_bytes(view)
            &&& bytes.skip(16) == payload
            &&& frame::MAX_FRAME_SIZE == 256 * 1024 * 1024
        }),
{
    lemma_auto_spec_u32_to_from_le_bytes();
    lemma_auto_spec_u64_to_from_le_bytes();
    let bytes = frame::frame_bytes(payload, view);
    assert(bytes.subrange(0, 4) =~= spec_u32_to_le_bytes(payload.len() as u32));
    assert(bytes.subrange(4, 8) =~= spec_u32_to_le_bytes(crc::crc32(payload)));
    assert(bytes.subrange(8, 16) =~= spec_u64_to_le_bytes(view));
    assert(bytes.skip(16) =~= payload);
}

/// A segment starts with its magic, and then the schema preamble under the
/// current view.
pub proof fn law_segment_header_layout(payload: Seq<u8>, view: u64)
    ensures
        ({
            let bytes = crate::wal::segment_header(payload, view);
            &&& bytes.len() >= 4
            &&& bytes[0] == 0x4d && bytes[1] == 0x4b && bytes[2] == 0x57 && bytes[3] == 0x33
            &&& bytes.skip(4) == frame::frame_bytes(payload, view)
        }),
{
    assert(crate::wal::segment_header(payload, view).skip(4) =~= frame::frame_bytes(
        payload,
        view,
    ));
}

/// A frame decodes exactly where its payload has the checksum of its header and
/// is an entry, and then to that entry.
pub proof fn law_frame_decodes_once_verified(f: DecodedFrame)
    ensures
        f.spec_decode() is Ok <==> crc::crc32(f.frame@.payload) == frame::header_crc(
            f.frame@.header,
        ) && f.entry is Ok,
        f.spec_decode() matches Ok(entry) ==> f.entry == Ok::<WalEntry, String>(entry),
        crc::crc32(f.frame@.payload) != frame::header_crc(f.frame@.header) ==> f.spec_decode()
            == Err::<WalEntry, WalError>(
            WalError::ChecksumMismatch {
                offset: f.frame.offset,
                expected: frame::header_crc(f.frame@.header),
                actual: crc::crc32(f.frame@.payload),
            },
        ),
{
}

/// What stands at a position: a whole frame exactly where its header and as
/// many bytes as that says are there, within the maximum; a buffer error says
/// what is missing.
pub proof fn law_only_whole_frames_are_read(bytes: Seq<u8>, pos: int)
    requires
        0 <= pos <= bytes.len(),
    ensures
        ({
            let header = bytes.subrange(pos, pos + 16);
            let len = frame::header_len(header);
            let at = frame::frame_at(bytes, pos);
            &&& at is Whole <==> pos + 16 <= bytes.len() && len <= frame::MAX_FRAME_SIZE && pos + 16
                + len <= bytes.len()
            &&& at matches FrameAt::Whole(f) ==> f.offset == pos && f.header == header && f.payload
                == bytes.subrange(pos + 16, pos + 16 + len)
            &&& at is ShortHeader <==> bytes.len() - pos < 16
            &&& frame::buffer_error(bytes, pos) is None <==> at is Whole
        }),
{
}

} // verus!
