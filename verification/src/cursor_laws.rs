//! Laws on reading a log with a cursor.
use crate::cursor;
use crate::cursor::CursorView;
use crate::error::{FormatIssue, WalError};
use crate::frame;
use crate::frame::StreamTail;
use crate::range;
use crate::record::{ComponentSchema, RecordView, WalEntry};
use crate::replay_laws;
use crate::segment;
use crate::segment::SegmentImage;
use crate::views;
use vstd::prelude::*;

verus! {

proof fn lemma_first_after(images: Seq<SegmentImage>, start: u64, i: int)
    ensures
        cursor::first_after(images, start, i) matches Some(j) ==> i <= j < images.len(),
    decreases images.len() - i,
{
    if 0 <= i < images.len() {
        lemma_first_after(images, start, i + 1);
    }
}

/// A batch holds no more records than its limit, keeps those read before, and
/// leaves a fence no lower than it found.
pub proof fn law_batch_keeps_its_limit(
    cursor: CursorView,
    records: Seq<RecordView>,
    images: Seq<SegmentImage>,
    i: int,
    k: int,
    limit: nat,
)
    requires
        records.len() <= limit,
    ensures
        ({
            let (after, read) = cursor.batched(records, images, i, k, limit);
            &&& read matches Ok(all) ==> all.len() <= limit && records.is_prefix_of(all)
            &&& after.max_view_seen >= cursor.max_view_seen
        }),
    decreases images.len() - i, images[i].frames@.len() - k,
{
    if 0 <= i < images.len() && 0 <= k && records.len() < limit {
        if k >= images[i].frames@.len() {
            lemma_first_after(images, images[i].start_seq, i + 1);
            if let Some(j) = cursor::first_after(images, images[i].start_seq, i + 1) {
                law_batch_keeps_its_limit(cursor.at(images[j], 0), records, images, j, 0, limit);
            }
        } else {
            let f = images[i].frames@[k];
            if let Ok(entry) = f.spec_decode() {
                let seen = cursor.seen(f.frame.spec_stamp()).at(images[i], k + 1);
                match entry {
                    WalEntry::Schema(schema) => {
                        let next = CursorView { schema: Some(schema@), ..seen };
                        law_batch_keeps_its_limit(next, records, images, i, k + 1, limit);
                    },
                    WalEntry::Mutations(record) => if f.frame.spec_stamp() < cursor.max_view_seen {
                        law_batch_keeps_its_limit(seen, records, images, i, k + 1, limit);
                    } else {
                        let next = CursorView { next_seq: (record.seq + 1) as u64, ..seen };
                        let more = records.push(record@);
                        law_batch_keeps_its_limit(next, more, images, i, k + 1, limit);
                        assert(records.is_prefix_of(more));
                        let (_, read) = next.batched(more, images, i, k + 1, limit);
                        if let Ok(all) = read {
                            assert(all.take(records.len() as int) =~= all.take(
                                more.len() as int,
                            ).take(records.len() as int));
                        }
                    },
                    WalEntry::Checkpoint { .. } => {
                        law_batch_keeps_its_limit(seen, records, images, i, k + 1, limit);
                    },
                }
            }
        }
    }
}

/// `r` stands in a frame stamped with no view older than `fence`.
pub open spec fn current(images: Seq<SegmentImage>, r: RecordView, fence: u64) -> bool {
    exists|a: int, b: int| #[trigger] holds_record(images, a, b, r, fence)
}

/// Frame `b` of segment `a` holds `r` and is no older than `fence`.
pub open spec fn holds_record(
    images: Seq<SegmentImage>,
    a: int,
    b: int,
    r: RecordView,
    fence: u64,
) -> bool {
    &&& 0 <= a < images.len()
    &&& 0 <= b < images[a].frames@.len()
    &&& images[a].frames@[b].spec_decode() matches Ok(WalEntry::Mutations(record)) && record@ == r
    &&& images[a].frames@[b].frame.spec_stamp() >= fence
}

/// Records of a deposed leader are never handed out: each record that a batch
/// adds stands in a frame no older than the cursor's fence.
pub proof fn law_batch_drops_stale_records(
    cursor: CursorView,
    records: Seq<RecordView>,
    images: Seq<SegmentImage>,
    i: int,
    k: int,
    limit: nat,
    fence: u64,
)
    requires
        fence <= cursor.max_view_seen,
        forall|n: int| 0 <= n < records.len() ==> current(images, #[trigger] records[n], fence),
    ensures
        cursor.batched(records, images, i, k, limit).1 matches Ok(all) ==> forall|n: int|
            0 <= n < all.len() ==> current(images, #[trigger] all[n], fence),
    decreases images.len() - i, images[i].frames@.len() - k,
{
    if 0 <= i < images.len() && 0 <= k && records.len() < limit {
        if k >= images[i].frames@.len() {
            lemma_first_after(images, images[i].start_seq, i + 1);
            if let Some(j) = cursor::first_after(images, images[i].start_seq, i + 1) {
                let next = cursor.at(images[j], 0);
                law_batch_drops_stale_records(next, records, images, j, 0, limit, fence);
            }
        } else {
            let f = images[i].frames@[k];
            if let Ok(entry) = f.spec_decode() {
                let seen = cursor.seen(f.frame.spec_stamp()).at(images[i], k + 1);
                match entry {
                    WalEntry::Schema(schema) => {
                        let next = CursorView { schema: Some(schema@), ..seen };
                        law_batch_drops_stale_records(
                            next,
                            records,
                            images,
                            i,
                            k + 1,
                            limit,
                            fence,
                        );
                    },
                    WalEntry::Mutations(record) => if f.frame.spec_stamp() < cursor.max_view_seen {
                        law_batch_drops_stale_records(
                            seen,
                            records,
                            images,
                            i,
                            k + 1,
                            limit,
                            fence,
                        );
                    } else {
                        assert(holds_record(images, i, k, record@, fence));
                        let next = CursorView { next_seq: (record.seq + 1) as u64, ..seen };
                        law_batch_drops_stale_records(
                            next,
                            records.push(record@),
                            images,
                            i,
                            k + 1,
                            limit,
                            fence,
                        );
                    },
                    WalEntry::Checkpoint { .. } => {
                        law_batch_drops_stale_records(
                            seen,
                            records,
                            images,
                            i,
                            k + 1,
                            limit,
                            fence,
                        );
                    },
                }
            }
        }
    }
}

/// Reading in two batches is reading in one: after a batch of at most `few`
/// records the cursor stands at a frame from which going on up to `many`
/// records ends as one read of up to `many` would have ended.
pub proof fn law_batches_compose(
    cursor: CursorView,
    records: Seq<RecordView>,
    images: Seq<SegmentImage>,
    i: int,
    k: int,
    few: nat,
    many: nat,
) -> (place: (int, int))
    requires
        cursor.stands_at(images, i, k),
        few <= many,
        cursor.batched(records, images, i, k, few).1 is Ok,
    ensures
        ({
            let (after, read) = cursor.batched(records, images, i, k, few);
            &&& after.stands_at(images, place.0, place.1)
            &&& after.batched(read->Ok_0, images, place.0, place.1, many) == cursor.batched(
                records,
                images,
                i,
                k,
                many,
            )
        }),
    decreases images.len() - i, images[i].frames@.len() - k,
{
    if records.len() >= few {
        (i, k)
    } else if k >= images[i].frames@.len() {
        lemma_first_after(images, images[i].start_seq, i + 1);
        if let Some(j) = cursor::first_after(images, images[i].start_seq, i + 1) {
            law_batches_compose(cursor.at(images[j], 0), records, images, j, 0, few, many)
        } else {
            (i, k)
        }
    } else {
        let f = images[i].frames@[k];
        let entry = f.spec_decode()->Ok_0;
        let seen = cursor.seen(f.frame.spec_stamp()).at(images[i], k + 1);
        assert(seen.stands_at(images, i, k + 1));
        match entry {
            WalEntry::Schema(schema) => {
                let next = CursorView { schema: Some(schema@), ..seen };
                law_batches_compose(next, records, images, i, k + 1, few, many)
            },
            WalEntry::Mutations(record) => if f.frame.spec_stamp() < cursor.max_view_seen {
                law_batches_compose(seen, records, images, i, k + 1, few, many)
            } else {
                let next = CursorView { next_seq: (record.seq + 1) as u64, ..seen };
                law_batches_compose(next, records.push(record@), images, i, k + 1, few, many)
            },
            WalEntry::Checkpoint { .. } => law_batches_compose(
                seen,
                records,
                images,
                i,
                k + 1,
                few,
                many,
            ),
        }
    }
}

/// A batch short of its limit means that the cursor has caught up: reading on
/// over the same files gives nothing and moves nothing.
pub proof fn law_short_batch_is_caught_up(
    cursor: CursorView,
    images: Seq<SegmentImage>,
    i: int,
    k: int,
    limit: nat,
    more: nat,
) -> (place: (int, int))
    requires
        cursor.stands_at(images, i, k),
        cursor.batched(Seq::empty(), images, i, k, limit).1 matches Ok(read) && read.len() < limit,
    ensures
        ({
            let (after, _) = cursor.batched(Seq::empty(), images, i, k, limit);
            &&& after.stands_at(images, place.0, place.1)
            &&& after.batched(Seq::empty(), images, place.0, place.1, more) == (
                after,
                Ok::<Seq<RecordView>, WalError>(Seq::empty()),
            )
        }),
{
    lemma_caught_up(cursor, Seq::empty(), images, i, k, limit, more)
}

proof fn lemma_caught_up(
    cursor: CursorView,
    records: Seq<RecordView>,
    images: Seq<SegmentImage>,
    i: int,
    k: int,
    limit: nat,
    more: nat,
) -> (place: (int, int))
    requires
        cursor.stands_at(images, i, k),
        cursor.batched(records, images, i, k, limit).1 matches Ok(read) && read.len() < limit,
    ensures
        ({
            let (after, _) = cursor.batched(records, images, i, k, limit);
            &&& after.stands_at(images, place.0, place.1)
            &&& after.batched(Seq::empty(), images, place.0, place.1, more) == (
                after,
                Ok::<Seq<RecordView>, WalError>(Seq::empty()),
            )
        }),
    decreases images.len() - i, images[i].frames@.len() - k,
{
    if k >= images[i].frames@.len() {
        lemma_first_after(images, images[i].start_seq, i + 1);
        if let Some(j) = cursor::first_after(images, images[i].start_seq, i + 1) {
            lemma_caught_up(cursor.at(images[j], 0), records, images, j, 0, limit, more)
        } else {
            (i, k)
        }
    } else {
        let f = images[i].frames@[k];
        let entry = f.spec_decode()->Ok_0;
        let seen = cursor.seen(f.frame.spec_stamp()).at(images[i], k + 1);
        assert(seen.stands_at(images, i, k + 1));
        match entry {
            WalEntry::Schema(schema) => {
                let next = CursorView { schema: Some(schema@), ..seen };
                lemma_caught_up(next, records, images, i, k + 1, limit, more)
            },
            WalEntry::Mutations(record) => if f.frame.spec_stamp() < cursor.max_view_seen {
                lemma_caught_up(seen, records, images, i, k + 1, limit, more)
            } else {
                let next = CursorView { next_seq: (record.seq + 1) as u64, ..seen };
                lemma_caught_up(next, records.push(record@), images, i, k + 1, limit, more)
            },
            WalEntry::Checkpoint { .. } => lemma_caught_up(
                seen,
                records,
                images,
                i,
                k + 1,
                limit,
                more,
            ),
        }
    }
}

/// Segments ascend by start sequence, and no two share one.
pub open spec fn one_file_each(images: Seq<SegmentImage>) -> bool {
    forall|i: int, j: int|
        #![trigger images[i], images[j]]
        0 <= i < j < images.len() ==> images[i].start_seq < images[j].start_seq
}

/// Frame `b` of segment `a` comes at or after frame `k` of segment `i`.
pub open spec fn from_place(i: int, k: int, a: int, b: int) -> bool {
    i < a || i == a && k <= b
}

/// Frame `b` of segment `a` holds a record that a cursor at frame `k` of
/// segment `i` owes: its view is older neither than `fence` nor than that of
/// any frame in between.
pub open spec fn owed(
    images: Seq<SegmentImage>,
    i: int,
    k: int,
    fence: u64,
    a: int,
    b: int,
) -> bool {
    &&& 0 <= a < images.len()
    &&& 0 <= b < images[a].frames@.len()
    &&& from_place(i, k, a, b)
    &&& images[a].frames@[b].spec_decode() matches Ok(WalEntry::Mutations(_))
    &&& replay_laws::view_at(images, a, b) >= fence
    &&& forall|c: int, d: int|
        #![trigger replay_laws::view_at(images, c, d)]
        0 <= c < images.len() && 0 <= d < images[c].frames@.len() && from_place(i, k, c, d)
            && from_place(c, d, a, b) ==> replay_laws::view_at(images, c, d)
            <= replay_laws::view_at(images, a, b)
}

/// The record in frame `b` of segment `a`.
pub open spec fn record_at(images: Seq<SegmentImage>, a: int, b: int) -> RecordView {
    images[a].frames@[b].spec_decode()->Ok_0->Mutations_0@
}

/// A cursor that has caught up missed nothing: every record from its place on
/// that is not stale was handed out.
pub proof fn law_caught_up_cursor_missed_nothing(
    cursor: CursorView,
    records: Seq<RecordView>,
    images: Seq<SegmentImage>,
    i: int,
    k: int,
    limit: nat,
    a: int,
    b: int,
)
    requires
        one_file_each(images),
        0 <= i < images.len(),
        0 <= k,
        cursor.batched(records, images, i, k, limit).1 matches Ok(all) && all.len() < limit,
        owed(images, i, k, cursor.max_view_seen, a, b),
    ensures
        cursor.batched(records, images, i, k, limit).1->Ok_0.contains(record_at(images, a, b)),
    decreases images.len() - i, images[i].frames@.len() - k,
{
    if k >= images[i].frames@.len() {
        lemma_first_after(images, images[i].start_seq, i + 1);
        assert(i < a);
        assert(images[i].start_seq < images[i + 1].start_seq);
        assert(cursor::first_after(images, images[i].start_seq, i + 1) == Some(i + 1));
        let next = cursor.at(images[i + 1], 0);
        law_caught_up_cursor_missed_nothing(next, records, images, i + 1, 0, limit, a, b);
    } else {
        let f = images[i].frames@[k];
        let entry = f.spec_decode()->Ok_0;
        let view = f.frame.spec_stamp();
        assert(view == replay_laws::view_at(images, i, k));
        let seen = cursor.seen(view).at(images[i], k + 1);
        if a == i && b == k {
            let record = entry->Mutations_0;
            let next = CursorView { next_seq: (record.seq + 1) as u64, ..seen };
            let more = records.push(record@);
            law_batch_keeps_its_limit(next, more, images, i, k + 1, limit);
            let all = next.batched(more, images, i, k + 1, limit).1->Ok_0;
            assert(more[records.len() as int] == record@);
            assert(all[records.len() as int] == more[records.len() as int]);
        } else {
            assert(owed(images, i, k + 1, seen.max_view_seen, a, b));
            match entry {
                WalEntry::Schema(schema) => {
                    let next = CursorView { schema: Some(schema@), ..seen };
                    law_caught_up_cursor_missed_nothing(
                        next,
                        records,
                        images,
                        i,
                        k + 1,
                        limit,
                        a,
                        b,
                    );
                },
                WalEntry::Mutations(record) => if view < cursor.max_view_seen {
                    law_caught_up_cursor_missed_nothing(
                        seen,
                        records,
                        images,
                        i,
                        k + 1,
                        limit,
                        a,
                        b,
                    );
                } else {
                    let next = CursorView { next_seq: (record.seq + 1) as u64, ..seen };
                    law_caught_up_cursor_missed_nothing(
                        next,
                        records.push(record@),
                        images,
                        i,
                        k + 1,
                        limit,
                        a,
                        b,
                    );
                },
                WalEntry::Checkpoint { .. } => {
                    law_caught_up_cursor_missed_nothing(
                        seen,
                        records,
                        images,
                        i,
                        k + 1,
                        limit,
                        a,
                        b,
                    );
                },
            }
        }
    }
}

/// The records of the log from frame `k` of segment `i` on that carry a
/// sequence number of at least `from_seq` and are not stale, in log order.
/// `fence` is the highest view before that place.
pub open spec fn current_from(
    images: Seq<SegmentImage>,
    i: int,
    k: int,
    fence: u64,
    from_seq: u64,
) -> Seq<RecordView>
    decreases images.len() - i, images[i].frames@.len() - k,
{
    if i < 0 || i >= images.len() || k < 0 {
        Seq::empty()
    } else if k >= images[i].frames@.len() {
        current_from(images, i + 1, 0, fence, from_seq)
    } else {
        let f = images[i].frames@[k];
        let view = f.frame.spec_stamp();
        let rest = current_from(images, i, k + 1, views::max_u64(fence, view), from_seq);
        match f.spec_decode() {
            Ok(WalEntry::Mutations(record)) => if view >= fence && record.seq >= from_seq {
                seq![record@] + rest
            } else {
                rest
            },
            _ => rest,
        }
    }
}

/// The records of the log that carry a sequence number of at least `from_seq`
/// and whose view is not below that of any frame before them, in log order.
pub open spec fn current_records(images: Seq<SegmentImage>, from_seq: u64) -> Seq<RecordView> {
    current_from(images, 0, 0, 0, from_seq)
}

/// What a cursor at frame `k` of segment `i` has yet to hand out.
pub open spec fn left(cursor: CursorView, images: Seq<SegmentImage>, i: int, k: int) -> Seq<
    RecordView,
> {
    current_from(images, i, k, cursor.max_view_seen, 0)
}

/// A batch hands out what is left in order, at most `limit` records of it: what
/// it holds, followed by what is left after it, is what was left before. A
/// batch short of its limit leaves nothing.
pub proof fn law_batch_hands_out_in_order(
    cursor: CursorView,
    images: Seq<SegmentImage>,
    i: int,
    k: int,
    limit: nat,
) -> (place: (int, int))
    requires
        one_file_each(images),
        cursor.stands_at(images, i, k),
        cursor.batched(Seq::empty(), images, i, k, limit).1 is Ok,
    ensures
        ({
            let (after, read) = cursor.batched(Seq::empty(), images, i, k, limit);
            &&& after.stands_at(images, place.0, place.1)
            &&& read->Ok_0.len() <= limit
            &&& read->Ok_0 + left(after, images, place.0, place.1) == left(cursor, images, i, k)
            &&& read->Ok_0.len() < limit ==> left(after, images, place.0, place.1) == Seq::<
                RecordView,
            >::empty()
        }),
{
    law_batch_keeps_its_limit(cursor, Seq::empty(), images, i, k, limit);
    let place = lemma_hands_out(cursor, Seq::empty(), images, i, k, limit);
    let (_, read) = cursor.batched(Seq::empty(), images, i, k, limit);
    assert(Seq::<RecordView>::empty() + left(cursor, images, i, k) =~= left(cursor, images, i, k));
    place
}

proof fn lemma_hands_out(
    cursor: CursorView,
    records: Seq<RecordView>,
    images: Seq<SegmentImage>,
    i: int,
    k: int,
    limit: nat,
) -> (place: (int, int))
    requires
        one_file_each(images),
        cursor.stands_at(images, i, k),
        cursor.batched(records, images, i, k, limit).1 is Ok,
    ensures
        ({
            let (after, read) = cursor.batched(records, images, i, k, limit);
            &&& after.stands_at(images, place.0, place.1)
            &&& read->Ok_0 + left(after, images, place.0, place.1) == records + left(
                cursor,
                images,
                i,
                k,
            )
            &&& read->Ok_0.len() < limit ==> left(after, images, place.0, place.1) == Seq::<
                RecordView,
            >::empty()
        }),
    decreases images.len() - i, images[i].frames@.len() - k,
{
    if records.len() >= limit {
        (i, k)
    } else if k >= images[i].frames@.len() {
        lemma_first_after(images, images[i].start_seq, i + 1);
        if i + 1 < images.len() {
            assert(images[i].start_seq < images[i + 1].start_seq);
            assert(cursor::first_after(images, images[i].start_seq, i + 1) == Some(i + 1));
            let next = cursor.at(images[i + 1], 0);
            lemma_hands_out(next, records, images, i + 1, 0, limit)
        } else {
            assert(current_from(images, i + 1, 0, cursor.max_view_seen, 0) == Seq::<
                RecordView,
            >::empty());
            (i, k)
        }
    } else {
        let f = images[i].frames@[k];
        let entry = f.spec_decode()->Ok_0;
        let seen = cursor.seen(f.frame.spec_stamp()).at(images[i], k + 1);
        assert(seen.stands_at(images, i, k + 1));
        match entry {
            WalEntry::Schema(schema) => {
                let next = CursorView { schema: Some(schema@), ..seen };
                lemma_hands_out(next, records, images, i, k + 1, limit)
            },
            WalEntry::Mutations(record) => if f.frame.spec_stamp() < cursor.max_view_seen {
                lemma_hands_out(seen, records, images, i, k + 1, limit)
            } else {
                let next = CursorView { next_seq: (record.seq + 1) as u64, ..seen };
                let rest = left(next, images, i, k + 1);
                assert(records.push(record@) + rest =~= records + (seq![record@] + rest));
                lemma_hands_out(next, records.push(record@), images, i, k + 1, limit)
            },
            WalEntry::Checkpoint { .. } => lemma_hands_out(
                seen,
                records,
                images,
                i,
                k + 1,
                limit,
            ),
        }
    }
}

/// An intact log: no two files share a start, none has a torn tail, each file
/// holds the sequence numbers from its own start up to the next one's, and
/// within a file they ascend.
pub open spec fn intact(images: Seq<SegmentImage>) -> bool {
    &&& one_file_each(images)
    &&& forall|i: int|
        0 <= i < images.len() ==> (#[trigger] images[i]).meta.tail == StreamTail::End
    &&& forall|i: int, k: int|
        #![trigger seq_at(images, i, k)]
        holds_mutation(images, i, k) ==> images[i].start_seq <= seq_at(images, i, k) && (i + 1
            < images.len() ==> seq_at(images, i, k) < images[i + 1].start_seq)
    &&& forall|i: int, a: int, b: int|
        #![trigger seq_at(images, i, a), seq_at(images, i, b)]
        holds_mutation(images, i, a) && holds_mutation(images, i, b) && a < b ==> seq_at(
            images,
            i,
            a,
        ) < seq_at(images, i, b)
}

pub open spec fn holds_mutation(images: Seq<SegmentImage>, i: int, k: int) -> bool {
    &&& 0 <= i < images.len()
    &&& 0 <= k < images[i].frames@.len()
    &&& images[i].frames@[k].spec_decode() matches Ok(WalEntry::Mutations(_))
}

/// The sequence number of the record in frame `k` of segment `i`.
pub open spec fn seq_at(images: Seq<SegmentImage>, i: int, k: int) -> u64 {
    record_at(images, i, k).seq
}

/// Every record from frame `k` of segment `i` on carries at least `from_seq`.
spec fn all_from(images: Seq<SegmentImage>, i: int, k: int, from_seq: u64) -> bool {
    forall|a: int, b: int|
        #![trigger seq_at(images, a, b)]
        holds_mutation(images, a, b) && from_place(i, k, a, b) ==> seq_at(images, a, b) >= from_seq
}

proof fn lemma_all_from(
    images: Seq<SegmentImage>,
    i: int,
    k: int,
    fence: u64,
    from_seq: u64,
)
    requires
        0 <= i,
        0 <= k,
        all_from(images, i, k, from_seq),
    ensures
        current_from(images, i, k, fence, 0) == current_from(images, i, k, fence, from_seq),
    decreases images.len() - i, images[i].frames@.len() - k,
{
    if i < images.len() {
        if k >= images[i].frames@.len() {
            assert(all_from(images, i + 1, 0, from_seq));
            lemma_all_from(images, i + 1, 0, fence, from_seq);
        } else {
            let f = images[i].frames@[k];
            if let Ok(WalEntry::Mutations(record)) = f.spec_decode() {
                assert(holds_mutation(images, i, k));
                assert(seq_at(images, i, k) == record.seq);
            }
            let raised = views::max_u64(fence, f.frame.spec_stamp());
            lemma_all_from(images, i, k + 1, raised, from_seq);
        }
    }
}

/// Where a search in segment `i` stops, what is left is what the search had
/// before it.
proof fn lemma_sought(
    cursor: CursorView,
    images: Seq<SegmentImage>,
    i: int,
    k: int,
    from_seq: u64,
) -> (stop: int)
    requires
        intact(images),
        0 <= i < images.len(),
        0 <= k <= images[i].frames@.len(),
        i + 1 < images.len() ==> from_seq < images[i + 1].start_seq,
        cursor.segment_start_seq == images[i].start_seq,
        cursor.sought(images[i], from_seq, k) is Ok,
    ensures
        ({
            let found = cursor.sought(images[i], from_seq, k)->Ok_0;
            &&& found.stands_at(images, i, stop)
            &&& left(found, images, i, stop) == current_from(
                images,
                i,
                k,
                cursor.max_view_seen,
                from_seq,
            )
        }),
    decreases images[i].frames@.len() - k,
{
    let image = images[i];
    if k >= image.frames@.len() {
        assert(all_from(images, i + 1, 0, from_seq)) by {
            lemma_later_segments(images, i, from_seq);
        }
        lemma_all_from(images, i + 1, 0, cursor.max_view_seen, from_seq);
        k
    } else {
        let f = image.frames@[k];
        let seen = cursor.seen(f.frame.spec_stamp());
        match f.spec_decode()->Ok_0 {
            WalEntry::Schema(schema) => {
                let next = CursorView { schema: Some(schema@), ..seen };
                lemma_sought(next, images, i, k + 1, from_seq)
            },
            WalEntry::Mutations(record) => if record.seq >= from_seq {
                assert(all_from(images, i, k, from_seq)) by {
                    lemma_later_segments(images, i, from_seq);
                    assert(holds_mutation(images, i, k));
                    assert(seq_at(images, i, k) == record.seq);
                    assert forall|a: int, b: int|
                        #![trigger seq_at(images, a, b)]
                        holds_mutation(images, a, b) && from_place(i, k, a, b) implies seq_at(
                        images,
                        a,
                        b,
                    ) >= from_seq by {
                        if a > i {
                            assert(from_place(i + 1, 0, a, b));
                        } else if b > k {
                            assert(seq_at(images, i, k) < seq_at(images, i, b));
                        }
                    }
                }
                // The view of the frame itself is part of the fence already.
                lemma_all_from(images, i, k, cursor.max_view_seen, from_seq);
                k
            } else {
                lemma_sought(seen, images, i, k + 1, from_seq)
            },
            WalEntry::Checkpoint { .. } => lemma_sought(seen, images, i, k + 1, from_seq),
        }
    }
}

proof fn lemma_later_segments(images: Seq<SegmentImage>, i: int, from_seq: u64)
    requires
        intact(images),
        0 <= i < images.len(),
        i + 1 < images.len() ==> from_seq < images[i + 1].start_seq,
    ensures
        all_from(images, i + 1, 0, from_seq),
{
    assert forall|a: int, b: int|
        #![trigger seq_at(images, a, b)]
        holds_mutation(images, a, b) && from_place(i + 1, 0, a, b) implies seq_at(images, a, b)
        >= from_seq by {
        assert(images[a].start_seq <= seq_at(images, a, b));
        if a > i + 1 {
            assert(images[i + 1].start_seq < images[a].start_seq);
        }
    }
}

/// A segment whose records all come before `from_seq` adds to the fence alone.
proof fn lemma_skipped_segment(
    images: Seq<SegmentImage>,
    i: int,
    k: int,
    fence: u64,
    from_seq: u64,
)
    requires
        intact(images),
        0 <= i,
        i + 1 < images.len(),
        images[i + 1].start_seq <= from_seq,
        0 <= k <= images[i].frames@.len(),
    ensures
        ({
            let views = images[i].header_views();
            current_from(images, i, 0, fence, from_seq) == current_from(
                images,
                i,
                k,
                views::max_u64(fence, segment::greatest(views.take(k))),
                from_seq,
            )
        }),
    decreases k,
{
    let views = images[i].header_views();
    assert(images[i].meta.tail == StreamTail::End);
    if k > 0 {
        lemma_skipped_segment(images, i, k - 1, fence, from_seq);
        assert(views.take(k).drop_last() =~= views.take(k - 1));
        let f = images[i].frames@[k - 1];
        assert(views.take(k).last() == f.frame.spec_stamp());
        if let Ok(WalEntry::Mutations(record)) = f.spec_decode() {
            assert(holds_mutation(images, i, k - 1));
            assert(seq_at(images, i, k - 1) == record.seq);
        }
    } else {
        assert(views.take(0) =~= Seq::empty());
    }
}

proof fn lemma_skipped_segments(images: Seq<SegmentImage>, n: int, from_seq: u64)
    requires
        intact(images),
        0 <= n < images.len(),
        images[n].start_seq <= from_seq,
    ensures
        current_records(images, from_seq) == current_from(
            images,
            n,
            0,
            segment::max_view(images.take(n)),
            from_seq,
        ),
    decreases n,
{
    if n > 0 {
        assert(images[n - 1].start_seq < images[n].start_seq);
        lemma_skipped_segments(images, n - 1, from_seq);
        let before = segment::max_view(images.take(n - 1));
        let views = images[n - 1].header_views();
        assert(images.take(n).drop_last() =~= images.take(n - 1));
        assert(images.take(n).last() == images[n - 1]);
        assert(images[n - 1].meta.tail == StreamTail::End);
        let len = images[n - 1].frames@.len() as int;
        lemma_skipped_segment(images, n - 1, len, before, from_seq);
        assert(views.take(len) =~= views);
    } else {
        assert(images.take(0) =~= Seq::empty());
    }
}

proof fn lemma_last_at_most(images: Seq<SegmentImage>, seq: u64, n: int)
    requires
        0 <= n <= images.len(),
        n < images.len() ==> seq < images[n].start_seq,
    ensures
        cursor::last_at_most(images, seq, n) matches Some(i) ==> 0 <= i < n && images[i].start_seq
            <= seq && (i + 1 < images.len() ==> seq < images[i + 1].start_seq),
    decreases n,
{
    if n > 0 && images[n - 1].start_seq > seq {
        lemma_last_at_most(images, seq, n - 1);
    }
}

/// A cursor opened at `from_seq` over an intact log has exactly the current
/// records from there on to hand out.
pub proof fn law_opened_cursor_owes_current_records(images: Seq<SegmentImage>, from_seq: u64) -> (
    place: (int, int))
    requires
        intact(images),
        cursor::cursor_at(images, from_seq) is Ok,
    ensures
        ({
            let cursor = cursor::cursor_at(images, from_seq)->Ok_0;
            &&& cursor.stands_at(images, place.0, place.1)
            &&& left(cursor, images, place.0, place.1) == current_records(images, from_seq)
        }),
{
    let n = images.len() as int;
    lemma_last_at_most(images, from_seq, n);
    let i = cursor::last_at_most(images, from_seq, n)->Some_0;
    let start = CursorView {
        segment_start_seq: images[i].start_seq,
        pos: 4,
        next_seq: from_seq,
        schema: None,
        max_view_seen: segment::max_view(images.take(i)),
    };
    let stop = lemma_sought(start, images, i, 0, from_seq);
    lemma_skipped_segments(images, i, from_seq);
    (i, stop)
}

/// One call of a cursor for a batch: the cursor, the frame and segment where it
/// stands, and the limit it is given.
pub struct BatchCall {
    pub cursor: CursorView,
    pub i: int,
    pub k: int,
    pub limit: nat,
}

impl BatchCall {
    pub open spec fn outcome(self, images: Seq<SegmentImage>) -> (
        CursorView,
        Result<Seq<RecordView>, WalError>,
    ) {
        self.cursor.batched(Seq::empty(), images, self.i, self.k, self.limit)
    }
}

/// `calls` are made one after another on a cursor opened at `from_seq`, and
/// all but the last are answered.
pub open spec fn one_after_another(
    images: Seq<SegmentImage>,
    from_seq: u64,
    calls: Seq<BatchCall>,
) -> bool {
    &&& calls.len() > 0
    &&& cursor::cursor_at(images, from_seq) == Ok::<CursorView, WalError>(calls[0].cursor)
    &&& forall|n: int|
        0 <= n < calls.len() ==> (#[trigger] calls[n]).cursor.stands_at(
            images,
            calls[n].i,
            calls[n].k,
        )
    &&& forall|n: int|
        0 < n < calls.len() ==> (#[trigger] calls[n]).cursor == calls[n - 1].outcome(images).0
            && calls[n - 1].outcome(images).1 is Ok
}

/// The records of the batches `calls[..n]`, in order.
pub open spec fn handed_out(
    images: Seq<SegmentImage>,
    calls: Seq<BatchCall>,
    n: int,
) -> Seq<RecordView>
    decreases n,
{
    if n <= 0 {
        Seq::empty()
    } else {
        handed_out(images, calls, n - 1) + calls[n - 1].outcome(images).1->Ok_0
    }
}

proof fn lemma_offsets_ascend(image: SegmentImage, a: int, b: int)
    requires
        image.wf(),
        0 <= a < b <= image.frames@.len(),
    ensures
        range::frame_pos(image, a) < range::frame_pos(image, b),
        range::frame_pos(image, a) + 16 <= image.meta.len,
    decreases b - a,
{
    let raws = frame::raw_frames(image.frames@);
    frame::lemma_contiguous_index(raws, 4, image.meta.end as int, a);
    assert(image.frames@[a].frame == raws[a]);
    frame::lemma_contiguous_index(raws, 4, image.meta.end as int, b - 1);
    if b < image.frames@.len() {
        frame::lemma_contiguous_index(raws, 4, image.meta.end as int, b);
    }
    if a < b - 1 {
        lemma_offsets_ascend(image, a, b - 1);
    }
}

/// A cursor stands at one place only.
proof fn lemma_one_place(
    cursor: CursorView,
    images: Seq<SegmentImage>,
    a: (int, int),
    b: (int, int),
)
    requires
        segment::images_wf(images),
        one_file_each(images),
        cursor.stands_at(images, a.0, a.1),
        cursor.stands_at(images, b.0, b.1),
    ensures
        a == b,
{
    if a.0 < b.0 {
        assert(images[a.0].start_seq < images[b.0].start_seq);
    } else if b.0 < a.0 {
        assert(images[b.0].start_seq < images[a.0].start_seq);
    } else if a.1 < b.1 {
        assert(images[a.0].wf());
        lemma_offsets_ascend(images[a.0], a.1, b.1);
    } else if b.1 < a.1 {
        assert(images[a.0].wf());
        lemma_offsets_ascend(images[a.0], b.1, a.1);
    }
}

proof fn lemma_handed_out(
    images: Seq<SegmentImage>,
    from_seq: u64,
    calls: Seq<BatchCall>,
    n: int,
)
    requires
        intact(images),
        segment::images_wf(images),
        one_after_another(images, from_seq, calls),
        0 <= n < calls.len(),
    ensures
        handed_out(images, calls, n) + left(calls[n].cursor, images, calls[n].i, calls[n].k)
            == current_records(images, from_seq),
    decreases n,
{
    let call = calls[n];
    if n == 0 {
        let place = law_opened_cursor_owes_current_records(images, from_seq);
        lemma_one_place(call.cursor, images, place, (call.i, call.k));
        assert(Seq::<RecordView>::empty() + current_records(images, from_seq) =~= current_records(
            images,
            from_seq,
        ));
    } else {
        let before = calls[n - 1];
        lemma_handed_out(images, from_seq, calls, n - 1);
        let place = law_batch_hands_out_in_order(
            before.cursor,
            images,
            before.i,
            before.k,
            before.limit,
        );
        lemma_one_place(call.cursor, images, place, (call.i, call.k));
        let earlier = handed_out(images, calls, n - 1);
        let read = before.outcome(images).1->Ok_0;
        let rest = left(call.cursor, images, call.i, call.k);
        assert(earlier + (read + rest) =~= (earlier + read) + rest);
    }
}

/// The batches of a cursor on an intact log, one after another and of whatever
/// sizes, are together exactly the current records from where it was opened:
/// in order, once each, and all of them once a batch falls short of its limit.
/// No batch exceeds its limit.
pub proof fn law_batches_are_the_current_records(
    images: Seq<SegmentImage>,
    from_seq: u64,
    calls: Seq<BatchCall>,
)
    requires
        intact(images),
        segment::images_wf(images),
        one_after_another(images, from_seq, calls),
        calls.last().outcome(images).1 is Ok,
    ensures
        ({
            let n = calls.len() as int;
            let last = calls.last().outcome(images).1->Ok_0;
            &&& handed_out(images, calls, n).is_prefix_of(current_records(images, from_seq))
            &&& last.len() <= calls.last().limit
            &&& last.len() < calls.last().limit ==> handed_out(images, calls, n)
                == current_records(images, from_seq)
        }),
{
    let n = calls.len() as int;
    let call = calls.last();
    lemma_handed_out(images, from_seq, calls, n - 1);
    let place = law_batch_hands_out_in_order(call.cursor, images, call.i, call.k, call.limit);
    let (after, read) = call.outcome(images);
    let earlier = handed_out(images, calls, n - 1);
    let rest = left(after, images, place.0, place.1);
    let all = current_records(images, from_seq);
    assert(earlier + (read->Ok_0 + rest) =~= (earlier + read->Ok_0) + rest);
    assert(handed_out(images, calls, n) == earlier + read->Ok_0);
    assert(handed_out(images, calls, n) + rest == all);
    assert(all.take(handed_out(images, calls, n).len() as int) =~= handed_out(images, calls, n));
    if read->Ok_0.len() < call.limit {
        assert(handed_out(images, calls, n) + rest =~= handed_out(images, calls, n));
    }
}

/// The current records of an intact log ascend by sequence number.
pub proof fn law_current_records_ascend(images: Seq<SegmentImage>, from_seq: u64)
    requires
        intact(images),
    ensures
        forall|a: int, b: int|
            0 <= a < b < current_records(images, from_seq).len() ==> (
            #[trigger] current_records(images, from_seq)[a]).seq < (
            #[trigger] current_records(images, from_seq)[b]).seq,
        forall|a: int|
            0 <= a < current_records(images, from_seq).len() ==> (
            #[trigger] current_records(images, from_seq)[a]).seq >= from_seq,
{
    lemma_ascend(images, 0, 0, 0, from_seq);
}

/// The records from a place on ascend, and each stands at that place or later.
proof fn lemma_ascend(images: Seq<SegmentImage>, i: int, k: int, fence: u64, from_seq: u64)
    requires
        intact(images),
        0 <= i,
        0 <= k,
    ensures
        ({
            let all = current_from(images, i, k, fence, from_seq);
            &&& forall|a: int, b: int| 0 <= a < b < all.len() ==> all[a].seq < all[b].seq
            &&& forall|a: int|
                0 <= a < all.len() ==> (#[trigger] all[a]).seq >= from_seq && stands_from(
                    images,
                    i,
                    k,
                    all[a].seq,
                )
        }),
    decreases images.len() - i, images[i].frames@.len() - k,
{
    if i < images.len() {
        if k >= images[i].frames@.len() {
            lemma_ascend(images, i + 1, 0, fence, from_seq);
            let all = current_from(images, i + 1, 0, fence, from_seq);
            assert forall|a: int| 0 <= a < all.len() implies stands_from(
                images,
                i,
                k,
                (#[trigger] all[a]).seq,
            ) by {
                assert(stands_from(images, i + 1, 0, all[a].seq));
            }
        } else {
            let f = images[i].frames@[k];
            let raised = views::max_u64(fence, f.frame.spec_stamp());
            lemma_ascend(images, i, k + 1, raised, from_seq);
            let rest = current_from(images, i, k + 1, raised, from_seq);
            let all = current_from(images, i, k, fence, from_seq);
            assert forall|a: int| 0 <= a < rest.len() implies stands_from(
                images,
                i,
                k,
                (#[trigger] rest[a]).seq,
            ) by {
                assert(stands_from(images, i, k + 1, rest[a].seq));
            }
            if let Ok(WalEntry::Mutations(record)) = f.spec_decode() {
                assert(holds_mutation(images, i, k));
                assert(seq_at(images, i, k) == record.seq);
                assert(stands_from(images, i, k, record.seq));
                assert forall|a: int| 0 <= a < rest.len() implies record.seq < (
                #[trigger] rest[a]).seq by {
                    assert(stands_from(images, i, k + 1, rest[a].seq));
                    lemma_later_is_greater(images, i, k, rest[a].seq);
                }
                if all.len() == rest.len() + 1 {
                    assert(all =~= seq![record@] + rest);
                    assert forall|a: int, b: int| 0 <= a < b < all.len() implies all[a].seq
                        < all[b].seq by {
                        assert(all[b] == rest[b - 1]);
                        if a > 0 {
                            assert(all[a] == rest[a - 1]);
                        }
                    }
                    assert forall|a: int| 0 <= a < all.len() implies (#[trigger] all[a]).seq
                        >= from_seq && stands_from(images, i, k, all[a].seq) by {
                        if a > 0 {
                            assert(all[a] == rest[a - 1]);
                        }
                    }
                }
            }
        }
    }
}

/// Some record from frame `k` of segment `i` on carries `seq`.
spec fn stands_from(images: Seq<SegmentImage>, i: int, k: int, seq: u64) -> bool {
    exists|a: int, b: int|
        #![trigger seq_at(images, a, b)]
        holds_mutation(images, a, b) && from_place(i, k, a, b) && seq_at(images, a, b) == seq
}

proof fn lemma_later_is_greater(images: Seq<SegmentImage>, i: int, k: int, seq: u64)
    requires
        intact(images),
        holds_mutation(images, i, k),
        stands_from(images, i, k + 1, seq),
    ensures
        seq_at(images, i, k) < seq,
{
    let (a, b) = choose|a: int, b: int|
        #![trigger seq_at(images, a, b)]
        holds_mutation(images, a, b) && from_place(i, k + 1, a, b) && seq_at(images, a, b) == seq;
    if a > i {
        assert(seq_at(images, i, k) < images[i + 1].start_seq);
        if a > i + 1 {
            assert(images[i + 1].start_seq < images[a].start_seq);
        }
        assert(images[a].start_seq <= seq_at(images, a, b));
    } else {
        assert(seq_at(images, i, k) < seq_at(images, a, b));
    }
}

/// A cursor is opened in the last segment that starts at or before the position
/// asked for; where all start after it, the cursor is too far behind.
pub proof fn law_cursor_behind_the_log_is_told(images: Seq<SegmentImage>, from_seq: u64)
    ensures
        ({
            let r = cursor::cursor_at(images, from_seq);
            let behind = forall|i: int|
                0 <= i < images.len() ==> (#[trigger] images[i]).start_seq > from_seq;
            &&& images.len() > 0 && behind ==> r == Err::<CursorView, WalError>(
                WalError::CursorBehind { requested: from_seq, oldest: images[0].start_seq },
            )
            &&& r matches Err(WalError::CursorBehind { .. }) ==> images.len() > 0
            &&& r matches Ok(c) ==> !behind && c.segment_start_seq <= from_seq && c.next_seq
                == from_seq && forall|i: int|
                0 <= i < images.len() && (#[trigger] images[i]).start_seq <= from_seq ==> exists|
                    j: int,
                |
                    i <= j < images.len() && (#[trigger] images[j]).start_seq
                        == c.segment_start_seq
        }),
{
    if images.len() > 0 {
        lemma_last_at_most(images, from_seq, images.len() as int);
        lemma_place_of_last(images, from_seq, images.len() as int);
        if let Some(at) = cursor::last_at_most(images, from_seq, images.len() as int) {
            let start = CursorView {
                segment_start_seq: images[at].start_seq,
                pos: 4,
                next_seq: from_seq,
                schema: None,
                max_view_seen: segment::max_view(images.take(at)),
            };
            lemma_sought_stays(start, images[at], from_seq, 0);
        }
    }
}

proof fn lemma_place_of_last(images: Seq<SegmentImage>, seq: u64, n: int)
    requires
        n <= images.len(),
    ensures
        match cursor::last_at_most(images, seq, n) {
            Some(at) => 0 <= at < n && images[at].start_seq <= seq && forall|i: int|
                at < i < n ==> (#[trigger] images[i]).start_seq > seq,
            None => forall|i: int| 0 <= i < n ==> (#[trigger] images[i]).start_seq > seq,
        },
    decreases n,
{
    if n > 0 && images[n - 1].start_seq > seq {
        lemma_place_of_last(images, seq, n - 1);
    }
}

proof fn lemma_sought_stays(c: CursorView, image: SegmentImage, from_seq: u64, k: int)
    requires
        c.segment_start_seq == image.start_seq,
    ensures
        c.sought(image, from_seq, k) matches Ok(found) ==> found.segment_start_seq
            == image.start_seq && found.next_seq == c.next_seq,
        c.sought(image, from_seq, k) matches Err(e) ==> !(e is CursorBehind),
    decreases image.frames@.len() - k,
{
    if 0 <= k < image.frames@.len() {
        let f = image.frames@[k];
        if let Ok(entry) = f.spec_decode() {
            let seen = c.seen(f.frame.spec_stamp());
            match entry {
                WalEntry::Schema(schema) => {
                    lemma_sought_stays(
                        CursorView { schema: Some(schema@), ..seen },
                        image,
                        from_seq,
                        k + 1,
                    );
                },
                _ => {
                    lemma_sought_stays(seen, image, from_seq, k + 1);
                },
            }
        }
    }
}

/// The last schema among the first `k` frames of segment `i`.
pub open spec fn schema_before(images: Seq<SegmentImage>, i: int, k: int) -> Option<
    Seq<ComponentSchema>,
>
    decreases k,
{
    if k <= 0 {
        None
    } else {
        match images[i].frames@[k - 1].spec_decode() {
            Ok(WalEntry::Schema(schema)) => Some(schema@),
            _ => schema_before(images, i, k - 1),
        }
    }
}

/// The cursor carries the schema in force at frame `k` of segment `i`, where
/// that segment has one before it.
pub open spec fn carries_schema(c: CursorView, images: Seq<SegmentImage>, i: int, k: int) -> bool {
    schema_before(images, i, k) is Some ==> c.schema == schema_before(images, i, k)
}

/// A cursor that carries the schema in force goes on doing so, and stands
/// behind the last record that it handed out: that is the number it reads next,
/// and without a record the number stays.
pub proof fn law_batch_moves_behind_its_last_record(
    c: CursorView,
    records: Seq<RecordView>,
    images: Seq<SegmentImage>,
    i: int,
    k: int,
    limit: nat,
) -> (place: (int, int))
    requires
        c.stands_at(images, i, k),
        carries_schema(c, images, i, k),
        cursor::counts_on(c.max_view_seen, c.pos, records.len(), images, i, k, limit),
        records.len() > 0 ==> c.next_seq == records.last().seq + 1,
    ensures
        ({
            let (after, read) = c.batched(records, images, i, k, limit);
            &&& after.stands_at(images, place.0, place.1)
            &&& carries_schema(after, images, place.0, place.1)
            &&& read matches Ok(all) ==> (all.len() > 0 ==> after.next_seq == all.last().seq + 1)
                && (all.len() == 0 ==> after.next_seq == c.next_seq)
        }),
    decreases images.len() - i, images[i].frames@.len() - k,
{
    if records.len() >= limit {
        (i, k)
    } else if k >= images[i].frames@.len() {
        lemma_first_after(images, images[i].start_seq, i + 1);
        match cursor::first_after(images, images[i].start_seq, i + 1) {
            Some(j) => if cursor::end_error(images[i], c.pos) is None
                && images[j].spec_magic_error() is None {
                law_batch_moves_behind_its_last_record(
                    c.at(images[j], 0),
                    records,
                    images,
                    j,
                    0,
                    limit,
                )
            } else {
                (i, k)
            },
            None => (i, k),
        }
    } else {
        let f = images[i].frames@[k];
        match f.spec_decode() {
            Err(_) => (i, k),
            Ok(entry) => {
                let seen = c.seen(f.frame.spec_stamp()).at(images[i], k + 1);
                match entry {
                    WalEntry::Schema(schema) => {
                        let next = CursorView { schema: Some(schema@), ..seen };
                        law_batch_moves_behind_its_last_record(
                            next,
                            records,
                            images,
                            i,
                            k + 1,
                            limit,
                        )
                    },
                    WalEntry::Mutations(record) => if f.frame.spec_stamp() < c.max_view_seen {
                        law_batch_moves_behind_its_last_record(
                            seen,
                            records,
                            images,
                            i,
                            k + 1,
                            limit,
                        )
                    } else {
                        let next = CursorView { next_seq: (record.seq + 1) as u64, ..seen };
                        let all = records.push(record@);
                        assert(all.last() == record@);
                        let place = law_batch_moves_behind_its_last_record(
                            next,
                            all,
                            images,
                            i,
                            k + 1,
                            limit,
                        );
                        lemma_keeps_records(next, all, images, i, k + 1, limit);
                        place
                    },
                    WalEntry::Checkpoint { .. } => law_batch_moves_behind_its_last_record(
                        seen,
                        records,
                        images,
                        i,
                        k + 1,
                        limit,
                    ),
                }
            },
        }
    }
}

proof fn lemma_keeps_records(
    c: CursorView,
    records: Seq<RecordView>,
    images: Seq<SegmentImage>,
    i: int,
    k: int,
    limit: nat,
)
    ensures
        c.batched(records, images, i, k, limit).1 matches Ok(all) ==> all.len() >= records.len(),
    decreases images.len() - i, images[i].frames@.len() - k,
{
    if 0 <= i < images.len() && 0 <= k && records.len() < limit {
        if k >= images[i].frames@.len() {
            lemma_first_after(images, images[i].start_seq, i + 1);
            if let Some(j) = cursor::first_after(images, images[i].start_seq, i + 1) {
                lemma_keeps_records(c.at(images[j], 0), records, images, j, 0, limit);
            }
        } else {
            let f = images[i].frames@[k];
            if let Ok(entry) = f.spec_decode() {
                let seen = c.seen(f.frame.spec_stamp()).at(images[i], k + 1);
                match entry {
                    WalEntry::Schema(schema) => {
                        lemma_keeps_records(
                            CursorView { schema: Some(schema@), ..seen },
                            records,
                            images,
                            i,
                            k + 1,
                            limit,
                        );
                    },
                    WalEntry::Mutations(record) => {
                        lemma_keeps_records(seen, records, images, i, k + 1, limit);
                        lemma_keeps_records(
                            CursorView { next_seq: (record.seq + 1) as u64, ..seen },
                            records.push(record@),
                            images,
                            i,
                            k + 1,
                            limit,
                        );
                    },
                    WalEntry::Checkpoint { .. } => {
                        lemma_keeps_records(seen, records, images, i, k + 1, limit);
                    },
                }
            }
        }
    }
}

proof fn lemma_sought_schema(c: CursorView, images: Seq<SegmentImage>, i: int, k: int, from_seq: u64)
    -> (stop: int)
    requires
        0 <= i < images.len(),
        0 <= k <= images[i].frames@.len(),
        c.segment_start_seq == images[i].start_seq,
        carries_schema(c, images, i, k),
        c.sought(images[i], from_seq, k) is Ok,
    ensures
        ({
            let found = c.sought(images[i], from_seq, k)->Ok_0;
            &&& k <= stop
            &&& found.stands_at(images, i, stop)
            &&& carries_schema(found, images, i, stop)
            &&& forall|j: int|
                k <= j < stop ==> (#[trigger] images[i].frames@[j]).spec_decode() is Ok
            &&& forall|j: int|
                k <= j < stop ==> !((#[trigger] images[i].frames@[j]).spec_decode() matches Ok(
                    WalEntry::Mutations(record),
                ) && record.seq >= from_seq)
            &&& stop < images[i].frames@.len() ==> (
            images[i].frames@[stop].spec_decode() matches Ok(WalEntry::Mutations(record))
                && record.seq >= from_seq)
        }),
    decreases images[i].frames@.len() - k,
{
    let image = images[i];
    if k >= image.frames@.len() {
        k
    } else {
        let f = image.frames@[k];
        let seen = c.seen(f.frame.spec_stamp());
        match f.spec_decode()->Ok_0 {
            WalEntry::Schema(schema) => {
                let next = CursorView { schema: Some(schema@), ..seen };
                lemma_sought_schema(next, images, i, k + 1, from_seq)
            },
            WalEntry::Mutations(record) => if record.seq >= from_seq {
                k
            } else {
                lemma_sought_schema(seen, images, i, k + 1, from_seq)
            },
            WalEntry::Checkpoint { .. } => lemma_sought_schema(seen, images, i, k + 1, from_seq),
        }
    }
}

/// An opened cursor stands at the first record of its segment that is not
/// before the position asked for, or behind the last frame, and carries the
/// schema in force there.
pub proof fn law_opened_cursor_stands_at_its_position(images: Seq<SegmentImage>, from_seq: u64) -> (
    place: (int, int))
    requires
        cursor::cursor_at(images, from_seq) is Ok,
    ensures
        ({
            let c = cursor::cursor_at(images, from_seq)->Ok_0;
            let (i, stop) = place;
            &&& c.stands_at(images, i, stop)
            &&& carries_schema(c, images, i, stop)
            &&& c.next_seq == from_seq
            &&& images[i].start_seq <= from_seq
            &&& forall|j: int|
                0 <= j < stop ==> (#[trigger] images[i].frames@[j]).spec_decode() is Ok
            &&& forall|j: int|
                0 <= j < stop ==> !((#[trigger] images[i].frames@[j]).spec_decode() matches Ok(
                    WalEntry::Mutations(record),
                ) && record.seq >= from_seq)
            &&& stop < images[i].frames@.len() ==> (
            images[i].frames@[stop].spec_decode() matches Ok(WalEntry::Mutations(record))
                && record.seq >= from_seq)
        }),
{
    lemma_place_of_last(images, from_seq, images.len() as int);
    let i = cursor::last_at_most(images, from_seq, images.len() as int)->Some_0;
    let start = CursorView {
        segment_start_seq: images[i].start_seq,
        pos: 4,
        next_seq: from_seq,
        schema: None,
        max_view_seen: segment::max_view(images.take(i)),
    };
    lemma_sought_stays(start, images[i], from_seq, 0);
    let stop = lemma_sought_schema(start, images, i, 0, from_seq);
    (i, stop)
}

/// A cursor that owes records stops with the failure of a frame that does not
/// decode, of an oversized frame at the end of its segment, and of a next
/// segment of another format; it hands out nothing of such a read.
pub proof fn law_cursor_stops_at_what_it_cannot_read(
    c: CursorView,
    records: Seq<RecordView>,
    images: Seq<SegmentImage>,
    i: int,
    k: int,
    limit: nat,
)
    requires
        c.stands_at(images, i, k),
        records.len() < limit,
    ensures
        ({
            let (after, read) = c.batched(records, images, i, k, limit);
            let image = images[i];
            let n = image.frames@.len() as int;
            &&& k < n ==> (image.frames@[k].spec_decode() matches Err(e) ==> after == c && read
                == Err::<Seq<RecordView>, WalError>(e))
            &&& k == n && c.pos == image.meta.end ==> (image.meta.tail matches StreamTail::TooLarge {
                len,
            } ==> after == c && read == Err::<Seq<RecordView>, WalError>(
                WalError::Format(
                    FormatIssue::FrameTooLarge { offset: image.meta.end, len: len as u64 },
                ),
            ))
            &&& k == n && !(image.meta.tail is TooLarge) ==> (forall|j: int|
                i < j < images.len() ==> (#[trigger] images[j]).start_seq <= image.start_seq)
                ==> read == Ok::<Seq<RecordView>, WalError>(records) && after == c
        }),
{
    lemma_no_later(images, images[i].start_seq, i + 1);
}

proof fn lemma_no_later(images: Seq<SegmentImage>, start: u64, i: int)
    requires
        0 <= i,
    ensures
        (forall|j: int| i <= j < images.len() ==> (#[trigger] images[j]).start_seq <= start)
            ==> cursor::first_after(images, start, i) is None,
    decreases images.len() - i,
{
    if i < images.len() {
        lemma_no_later(images, start, i + 1);
    }
}

} // verus!
