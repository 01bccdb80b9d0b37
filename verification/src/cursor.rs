//! Read-only cursor over a segmented log.
use crate::error::{FormatIssue, WalError};
use crate::frame;
use crate::frame::StreamTail;
use crate::range;
use crate::record;
use crate::record::{
    ComponentSchema, RecordView, ReplicationBatch, WalEntry, WalRecord, WalSchema,
};
use crate::recovery;
use crate::segment;
use crate::segment::{scan_max_view, SegmentImage};
use crate::views;
use vstd::prelude::*;

verus! {

/// Segments are listed by start sequence. Two files may name the same one.
pub open spec fn ordered(images: Seq<SegmentImage>) -> bool {
    forall|i: int, j: int|
        #![trigger images[i], images[j]]
        0 <= i < j < images.len() ==> images[i].start_seq <= images[j].start_seq
}

/// A cursor as mathematical values.
#[verifier::ext_equal]
pub struct CursorView {
    pub segment_start_seq: u64,
    pub pos: u64,
    pub next_seq: u64,
    pub schema: Option<Seq<ComponentSchema>>,
    pub max_view_seen: u64,
}

/// The last of `images[..n]` that starts at or before `seq`.
pub open spec fn last_at_most(images: Seq<SegmentImage>, seq: u64, n: int) -> Option<int>
    decreases n,
{
    if n <= 0 {
        None
    } else if images[n - 1].start_seq <= seq {
        Some(n - 1)
    } else {
        last_at_most(images, seq, n - 1)
    }
}

/// The first of `images[i..]` that starts after `start`.
pub open spec fn first_after(images: Seq<SegmentImage>, start: u64, i: int) -> Option<int>
    decreases images.len() - i,
{
    if i < 0 || i >= images.len() {
        None
    } else if images[i].start_seq > start {
        Some(i)
    } else {
        first_after(images, start, i + 1)
    }
}

/// What is met at `pos`, behind the whole frames of `image`. Only the position
/// just behind them can hold the header of a frame.
pub open spec fn end_error(image: SegmentImage, pos: u64) -> Option<WalError> {
    if pos == image.meta.end {
        recovery::tail_error(image)
    } else {
        None
    }
}

/// Each record that is handed out when frames are read from `pos` on, where
/// frame `k` of segment `i` stands, leaves a next number. Records from a view
/// below `fence` are dropped; `n` have been read of at most `limit`.
pub open spec fn counts_on(
    fence: u64,
    pos: u64,
    n: nat,
    images: Seq<SegmentImage>,
    i: int,
    k: int,
    limit: nat,
) -> bool
    decreases images.len() - i, images[i].frames@.len() - k,
{
    if i < 0 || i >= images.len() || k < 0 || n >= limit {
        true
    } else if k >= images[i].frames@.len() {
        end_error(images[i], pos) is Some || match first_after(
            images,
            images[i].start_seq,
            i + 1,
        ) {
            None => true,
            Some(j) => i < j < images.len() && images[j].spec_magic_error() is None ==> counts_on(
                fence,
                range::frame_pos(images[j], 0),
                n,
                images,
                j,
                0,
                limit,
            ),
        }
    } else {
        let f = images[i].frames@[k];
        let next_pos = range::frame_pos(images[i], k + 1);
        match f.spec_decode() {
            Err(_) => true,
            Ok(entry) => {
                let view = f.frame.spec_stamp();
                let raised = views::max_u64(fence, view);
                if entry is Mutations && view >= fence {
                    entry->Mutations_0.seq < u64::MAX && counts_on(
                        raised,
                        next_pos,
                        n + 1,
                        images,
                        i,
                        k + 1,
                        limit,
                    )
                } else {
                    counts_on(raised, next_pos, n, images, i, k + 1, limit)
                }
            },
        }
    }
}

impl CursorView {
    pub open spec fn at(self, image: SegmentImage, k: int) -> CursorView {
        CursorView {
            segment_start_seq: image.start_seq,
            pos: range::frame_pos(image, k),
            ..self
        }
    }

    pub open spec fn seen(self, view: u64) -> CursorView {
        CursorView { max_view_seen: views::max_u64(self.max_view_seen, view), ..self }
    }

    /// Passes the frames of `image` from `k` on up to the first record at or
    /// after `from_seq`. Views of passed frames raise the fence, and so does
    /// the view of the frame stopped at.
    pub open spec fn sought(self, image: SegmentImage, from_seq: u64, k: int) -> Result<
        CursorView,
        WalError,
    >
        decreases image.frames@.len() - k,
    {
        if k < 0 || k >= image.frames@.len() {
            match recovery::tail_error(image) {
                Some(e) => Err(e),
                None => Ok(self.at(image, k)),
            }
        } else {
            let f = image.frames@[k];
            match f.spec_decode() {
                Err(e) => Err(e),
                Ok(entry) => {
                    let seen = self.seen(f.frame.spec_stamp());
                    match entry {
                        WalEntry::Schema(schema) => CursorView {
                            schema: Some(schema@),
                            ..seen
                        }.sought(image, from_seq, k + 1),
                        WalEntry::Mutations(record) => if record.seq >= from_seq {
                            Ok(seen.at(image, k))
                        } else {
                            seen.sought(image, from_seq, k + 1)
                        },
                        WalEntry::Checkpoint { .. } => seen.sought(image, from_seq, k + 1),
                    }
                },
            }
        }
    }

    /// Reads on from frame `k` of segment `i` until `records` holds `limit`
    /// records or the log ends. Stale records are dropped.
    pub open spec fn batched(
        self,
        records: Seq<RecordView>,
        images: Seq<SegmentImage>,
        i: int,
        k: int,
        limit: nat,
    ) -> (CursorView, Result<Seq<RecordView>, WalError>)
        decreases images.len() - i, images[i].frames@.len() - k,
    {
        if i < 0 || i >= images.len() || k < 0 || records.len() >= limit {
            (self, Ok(records))
        } else if k >= images[i].frames@.len() {
            match end_error(images[i], self.pos) {
                Some(e) => (self, Err(e)),
                None => match first_after(images, images[i].start_seq, i + 1) {
                    None => (self, Ok(records)),
                    Some(j) => match images[j].spec_magic_error() {
                        Some(e) => (self, Err(e)),
                        None => if i < j < images.len() {
                            self.at(images[j], 0).batched(records, images, j, 0, limit)
                        } else {
                            (self, Ok(records))
                        },
                    },
                },
            }
        } else {
            let f = images[i].frames@[k];
            match f.spec_decode() {
                Err(e) => (self, Err(e)),
                Ok(entry) => {
                    let view = f.frame.spec_stamp();
                    let seen = self.seen(view).at(images[i], k + 1);
                    match entry {
                        WalEntry::Schema(schema) => CursorView {
                            schema: Some(schema@),
                            ..seen
                        }.batched(records, images, i, k + 1, limit),
                        WalEntry::Mutations(record) => if view < self.max_view_seen {
                            seen.batched(records, images, i, k + 1, limit)
                        } else {
                            CursorView { next_seq: (record.seq + 1) as u64, ..seen }.batched(
                                records.push(record@),
                                images,
                                i,
                                k + 1,
                                limit,
                            )
                        },
                        WalEntry::Checkpoint { .. } => seen.batched(
                            records,
                            images,
                            i,
                            k + 1,
                            limit,
                        ),
                    }
                },
            }
        }
    }

    /// Frame `k` of segment `i` is where the cursor stands. Behind the last
    /// frame stands a cursor at the end of the frames, and one at a position
    /// where the file has no room for a frame header, as when it was cut.
    pub open spec fn stands_at(self, images: Seq<SegmentImage>, i: int, k: int) -> bool {
        &&& 0 <= i < images.len()
        &&& images[i].start_seq == self.segment_start_seq
        &&& 0 <= k <= images[i].frames@.len()
        &&& range::frame_pos(images[i], k) == self.pos || (k == images[i].frames@.len()
            && self.pos + 16 > images[i].meta.len)
    }
}

/// What opening a cursor at `from_seq` gives.
pub open spec fn cursor_at(images: Seq<SegmentImage>, from_seq: u64) -> Result<
    CursorView,
    WalError,
> {
    if images.len() == 0 {
        Err(WalError::Format(FormatIssue::Text("no WAL segments found")))
    } else {
        match last_at_most(images, from_seq, images.len() as int) {
            None => Err(
                WalError::CursorBehind { requested: from_seq, oldest: images[0].start_seq },
            ),
            Some(i) => match images[i].spec_magic_error() {
                Some(e) => Err(e),
                None => CursorView {
                    segment_start_seq: images[i].start_seq,
                    pos: 4,
                    next_seq: from_seq,
                    schema: None,
                    max_view_seen: segment::max_view(images.take(i)),
                }.sought(images[i], from_seq, 0),
            },
        }
    }
}

/// Read-only cursor over a log directory. It advances lazily across segment
/// files, and drops frames stamped with a view older than one already seen:
/// those are from a deposed leader.
pub struct WalCursor {
    pos: u64,
    next_seq: u64,
    schema: Option<WalSchema>,
    current_segment_start_seq: u64,
    max_view_seen: u64,
}

impl View for WalCursor {
    type V = CursorView;

    closed spec fn view(&self) -> CursorView {
        CursorView {
            segment_start_seq: self.current_segment_start_seq,
            pos: self.pos,
            next_seq: self.next_seq,
            schema: match self.schema {
                Some(schema) => Some(schema@),
                None => None,
            },
            max_view_seen: self.max_view_seen,
        }
    }
}

impl WalCursor {
    /// Opens a log directory for reading from `from_seq`. Finds the segment
    /// containing it, parses the schema preamble, and scans forward to the
    /// first record at or after it. Returns `CursorBehind` if all segments
    /// start after `from_seq`.
    pub fn open(images: &Vec<SegmentImage>, from_seq: u64) -> (r: Result<WalCursor, WalError>)
        requires
            segment::images_wf(images@),
        ensures
            match cursor_at(images@, from_seq) {
                Ok(view) => r matches Ok(cursor) && cursor@ == view && exists|i: int, k: int|
                    cursor@.stands_at(images@, i, k),
                Err(e) => r == Err::<WalCursor, WalError>(e),
            },
    {
        if images.len() == 0 {
            return Err(WalError::Format(FormatIssue::Text("no WAL segments found")));
        }
        let mut n: usize = images.len();
        while n > 0 && images[n - 1].start_seq > from_seq
            invariant
                n <= images@.len(),
                last_at_most(images@, from_seq, images@.len() as int) == last_at_most(
                    images@,
                    from_seq,
                    n as int,
                ),
            decreases n,
        {
            n = n - 1;
        }
        if n == 0 {
            return Err(
                WalError::CursorBehind { requested: from_seq, oldest: images[0].start_seq },
            );
        }
        let i: usize = n - 1;
        let image = &images[i];
        if let Err(e) = image.validate_segment_magic() {
            return Err(e);
        }
        let mut cursor = WalCursor {
            pos: segment::SEGMENT_MAGIC_SIZE,
            next_seq: from_seq,
            schema: None,
            current_segment_start_seq: image.start_seq,
            max_view_seen: scan_max_view(images, i),
        };
        let ghost start = cursor@;
        let mut k: usize = 0;
        while k < image.frames.len()
            invariant
                k <= image.frames@.len(),
                0 <= i < images@.len(),
                *image == images@[i as int],
                cursor@.segment_start_seq == image.start_seq,
                cursor_at(images@, from_seq) == start.sought(*image, from_seq, 0),
                start.sought(*image, from_seq, 0) == cursor@.sought(*image, from_seq, k as int),
            decreases image.frames@.len() - k,
        {
            let f = &image.frames[k];
            match f.decode() {
                Err(e) => {
                    return Err(e);
                },
                Ok((entry, _, view)) => {
                    let _ = views::observe_view(&mut cursor.max_view_seen, view);
                    match entry {
                        WalEntry::Schema(schema) => {
                            cursor.schema = Some(schema.duplicate());
                        },
                        WalEntry::Mutations(record) => {
                            if record.seq >= from_seq {
                                cursor.pos = f.frame.offset;
                                assert(cursor@.stands_at(images@, i as int, k as int));
                                return Ok(cursor);
                            }
                        },
                        WalEntry::Checkpoint { .. } => {},
                    }
                },
            }
            k = k + 1;
        }
        if let StreamTail::TooLarge { len } = image.meta.tail {
            return Err(
                WalError::Format(
                    FormatIssue::FrameTooLarge { offset: image.meta.end, len: len as u64 },
                ),
            );
        }
        cursor.pos = image.meta.end;
        assert(cursor@.stands_at(images@, i as int, k as int));
        Ok(cursor)
    }

    /// The sequence number after the last record read.
    pub fn next_seq(&self) -> (seq: u64)
        ensures
            seq == self@.next_seq,
    {
        self.next_seq
    }

    /// The start of the segment that the cursor reads.
    pub fn segment_start(&self) -> (start: u64)
        ensures
            start == self@.segment_start_seq,
    {
        self.current_segment_start_seq
    }

    /// Where the cursor stands in the segment files now listed: the segment and
    /// the frame. `None` if its segment is gone or was rewritten under it.
    pub fn locate(&self, images: &Vec<SegmentImage>) -> (r: Option<(usize, usize)>)
        requires
            ordered(images@),
            segment::images_wf(images@),
        ensures
            match r {
                Some((i, k)) => self@.stands_at(images@, i as int, k as int),
                None => forall|i: int, k: int| !self@.stands_at(images@, i, k),
            },
    {
        let mut i: usize = 0;
        while i < images.len()
            invariant
                i <= images@.len(),
                ordered(images@),
                segment::images_wf(images@),
                forall|a: int, b: int| 0 <= a < i ==> !self@.stands_at(images@, a, b),
            decreases images@.len() - i,
        {
            let image = &images[i];
            if image.start_seq == self.current_segment_start_seq {
                let mut k: usize = 0;
                while k < image.frames.len()
                    invariant
                        i < images@.len(),
                        *image == images@[i as int],
                        k <= image.frames@.len(),
                        forall|b: int| 0 <= b < k ==> !self@.stands_at(images@, i as int, b),
                        image.start_seq == self.current_segment_start_seq,
                    decreases image.frames@.len() - k,
                {
                    if image.frames[k].frame.offset == self.pos {
                        return Some((i, k));
                    }
                    k = k + 1;
                }
                if image.meta.end == self.pos || image.meta.len < 16 || image.meta.len - 16
                    < self.pos {
                    return Some((i, k));
                }
            }
            i = i + 1;
        }
        None
    }

    /// Whether each record of the next batch leaves a next number to read from.
    pub fn counts_on(
        &self,
        limit: usize,
        images: &Vec<SegmentImage>,
        place: (usize, usize),
    ) -> (b: bool)
        requires
            segment::images_wf(images@),
            self@.stands_at(images@, place.0 as int, place.1 as int),
        ensures
            b == counts_on(
                self@.max_view_seen,
                self@.pos,
                0,
                images@,
                place.0 as int,
                place.1 as int,
                limit as nat,
            ),
    {
        let total: usize = images.len();
        let (mut i, mut k): (usize, usize) = place;
        let mut fence: u64 = self.max_view_seen;
        let mut pos: u64 = self.pos;
        let mut n: usize = 0;
        while n < limit
            invariant
                segment::images_wf(images@),
                total == images@.len(),
                i < total,
                k <= images@[i as int].frames@.len(),
                n <= limit,
                counts_on(
                    self@.max_view_seen,
                    self@.pos,
                    0,
                    images@,
                    place.0 as int,
                    place.1 as int,
                    limit as nat,
                ) == counts_on(
                    fence,
                    pos,
                    n as nat,
                    images@,
                    i as int,
                    k as int,
                    limit as nat,
                ),
            decreases images@.len() - i, images@[i as int].frames@.len() - k,
        {
            let image = &images[i];
            if k < image.frames.len() {
                let f = &image.frames[k];
                proof {
                    let raws = frame::raw_frames(image.frames@);
                    frame::lemma_contiguous_index(raws, 4, image.meta.end as int, k as int);
                    if k + 1 < raws.len() {
                        frame::lemma_contiguous_index(raws, 4, image.meta.end as int, k + 1);
                    }
                }
                match f.decode() {
                    Err(_) => {
                        return true;
                    },
                    Ok((entry, _, view)) => {
                        let stale = views::observe_view(&mut fence, view);
                        if let WalEntry::Mutations(record) = entry {
                            if !stale {
                                if record.seq == u64::MAX {
                                    return false;
                                }
                                n = n + 1;
                            }
                        }
                        pos = f.frame.next_offset();
                        k = k + 1;
                    },
                }
            } else {
                if pos == image.meta.end {
                    if let StreamTail::TooLarge { .. } = image.meta.tail {
                        return true;
                    }
                }
                match next_segment(images, i) {
                    None => {
                        return true;
                    },
                    Some(j) => {
                        if images[j].validate_segment_magic().is_err() {
                            return true;
                        }
                        proof {
                            let raws = frame::raw_frames(images@[j as int].frames@);
                            if raws.len() > 0 {
                                frame::lemma_contiguous_index(
                                    raws,
                                    4,
                                    images@[j as int].meta.end as int,
                                    0,
                                );
                            }
                        }
                        pos = segment::SEGMENT_MAGIC_SIZE;
                        i = j;
                        k = 0;
                    },
                }
            }
        }
        true
    }

    /// Reads up to `limit` records from where the cursor stands, which is frame
    /// `place.1` of segment `place.0`. Returns a batch with the schema and the
    /// records; no records means the cursor has caught up. Advances lazily
    /// across segment boundaries.
    pub fn next_batch(
        &mut self,
        limit: usize,
        images: &Vec<SegmentImage>,
        place: (usize, usize),
    ) -> (r: Result<ReplicationBatch, WalError>)
        requires
            ordered(images@),
            segment::images_wf(images@),
            old(self)@.stands_at(images@, place.0 as int, place.1 as int),
            counts_on(
                old(self)@.max_view_seen,
                old(self)@.pos,
                0,
                images@,
                place.0 as int,
                place.1 as int,
                limit as nat,
            ),
        ensures
            ({
                let (after, read) = old(self)@.batched(
                    Seq::empty(),
                    images@,
                    place.0 as int,
                    place.1 as int,
                    limit as nat,
                );
                &&& final(self)@ == after
                &&& match read {
                    Ok(records) => r matches Ok(batch) && record::record_views(batch.records@)
                        == records && batch.schema@ == match after.schema {
                        Some(schema) => schema,
                        None => Seq::empty(),
                    },
                    Err(e) => r == Err::<ReplicationBatch, WalError>(e),
                }
            }),
            exists|i: int, k: int| final(self)@.stands_at(images@, i, k),
    {
        let mut records: Vec<WalRecord> = Vec::new();
        let (mut i, mut k): (usize, usize) = place;
        assert(record::record_views(records@) =~= Seq::empty());
        while records.len() < limit
            invariant_except_break
                ordered(images@),
                segment::images_wf(images@),
                self@.stands_at(images@, i as int, k as int),
                counts_on(
                    self@.max_view_seen,
                    self@.pos,
                    records@.len(),
                    images@,
                    i as int,
                    k as int,
                    limit as nat,
                ),
                old(self)@.batched(
                    Seq::empty(),
                    images@,
                    place.0 as int,
                    place.1 as int,
                    limit as nat,
                ) == self@.batched(
                    record::record_views(records@),
                    images@,
                    i as int,
                    k as int,
                    limit as nat,
                ),
            ensures
                exists|i: int, k: int| self@.stands_at(images@, i, k),
                old(self)@.batched(
                    Seq::empty(),
                    images@,
                    place.0 as int,
                    place.1 as int,
                    limit as nat,
                ) == (self@, Ok::<Seq<RecordView>, WalError>(record::record_views(records@))),
            decreases images@.len() - i, images@[i as int].frames@.len() - k,
        {
            let image = &images[i];
            if k < image.frames.len() {
                let f = &image.frames[k];
                let ghost before = records@;
                proof {
                    let raws = frame::raw_frames(image.frames@);
                    frame::lemma_contiguous_index(raws, 4, image.meta.end as int, k as int);
                    if k + 1 < raws.len() {
                        frame::lemma_contiguous_index(raws, 4, image.meta.end as int, k + 1);
                    }
                }
                match f.decode() {
                    Err(e) => {
                        return Err(e);
                    },
                    Ok((entry, _, view)) => {
                        let stale = views::observe_view(&mut self.max_view_seen, view);
                        match entry {
                            WalEntry::Schema(schema) => {
                                self.schema = Some(schema.duplicate());
                            },
                            WalEntry::Mutations(record) => {
                                if !stale {
                                    assert(images@[i as int].frames@[k as int] == *f);
                                    self.next_seq = record.seq + 1;
                                    records.push(record.duplicate());
                                    assert(record::record_views(records@)
                                        =~= record::record_views(before).push(record@));
                                }
                            },
                            WalEntry::Checkpoint { .. } => {},
                        }
                        self.pos = f.frame.next_offset();
                        k = k + 1;
                    },
                }
            } else {
                if self.pos == image.meta.end {
                    if let StreamTail::TooLarge { len } = image.meta.tail {
                        return Err(
                            WalError::Format(
                                FormatIssue::FrameTooLarge {
                                    offset: image.meta.end,
                                    len: len as u64,
                                },
                            ),
                        );
                    }
                }
                match self.try_advance_segment(images, i) {
                    Err(e) => {
                        return Err(e);
                    },
                    Ok(None) => {
                        break ;
                    },
                    Ok(Some(j)) => {
                        i = j;
                        k = 0;
                    },
                }
            }
        }
        let schema = match &self.schema {
            Some(schema) => schema.duplicate(),
            None => WalSchema { components: Vec::new() },
        };
        assert(self.schema is None ==> schema@ =~= Seq::empty());
        Ok(ReplicationBatch { schema, records })
    }

    /// Moves to the start of the segment after the current one, which is
    /// `images[current]`. Gives its index, or `None` at the last segment.
    fn try_advance_segment(&mut self, images: &Vec<SegmentImage>, current: usize) -> (r: Result<
        Option<usize>,
        WalError,
    >)
        requires
            ordered(images@),
            segment::images_wf(images@),
            current < images@.len(),
            images@[current as int].start_seq == old(self)@.segment_start_seq,
        ensures
            match first_after(images@, images@[current as int].start_seq, current + 1) {
                None => r == Ok::<Option<usize>, WalError>(None) && final(self)@ == old(self)@,
                Some(j) => current < j < images@.len() && match images@[j].spec_magic_error() {
                    Some(e) => r == Err::<Option<usize>, WalError>(e) && final(self)@
                        == old(self)@,
                    None => (r matches Ok(Some(to)) && to == j) && final(self)@ == old(self)@.at(
                        images@[j],
                        0,
                    ),
                },
            },
    {
        let j: usize = match next_segment(images, current) {
            None => {
                return Ok(None);
            },
            Some(j) => j,
        };
        if let Err(e) = images[j].validate_segment_magic() {
            return Err(e);
        }
        proof {
            let raws = frame::raw_frames(images@[j as int].frames@);
            if raws.len() > 0 {
                frame::lemma_contiguous_index(raws, 4, images@[j as int].meta.end as int, 0);
            }
        }
        self.pos = segment::SEGMENT_MAGIC_SIZE;
        self.current_segment_start_seq = images[j].start_seq;
        Ok(Some(j))
    }
}

/// The first segment listed behind `images[current]` that starts after it.
fn next_segment(images: &Vec<SegmentImage>, current: usize) -> (r: Option<usize>)
    requires
        current < images@.len(),
    ensures
        match first_after(images@, images@[current as int].start_seq, current + 1) {
            None => r is None,
            Some(j) => current < j < images@.len() && (r matches Some(to) && to == j),
        },
{
    let n: usize = images.len();
    let start: u64 = images[current].start_seq;
    assert(current < n);
    let mut j: usize = current + 1;
    while j < n && images[j].start_seq <= start
        invariant
            n == images@.len(),
            current < j <= images@.len(),
            start == images@[current as int].start_seq,
            first_after(images@, start, current + 1) == first_after(images@, start, j as int),
        decreases images@.len() - j,
    {
        j = j + 1;
    }
    if j >= n {
        None
    } else {
        Some(j)
    }
}

} // verus!
