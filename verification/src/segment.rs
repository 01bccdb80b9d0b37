//! Segment files: a 4-byte magic, then a stream of frames of which the first
//! is the schema preamble. The file name carries the first sequence number.
use crate::error::{FormatIssue, WalError};
use crate::frame;
use crate::frame::{DecodedFrame, RawFrame, StreamTail};
use crate::text;
use crate::views;
use vstd::prelude::*;
use vstd::string::*;

verus! {

/// Size of the segment magic in bytes.
pub const SEGMENT_MAGIC_SIZE: u64 = 4;

/// The magic `MKW3` at the start of every segment.
pub open spec fn segment_magic() -> Seq<u8> {
    seq![0x4d, 0x4b, 0x57, 0x33]
}

/// The magic that identifies a segment file.
pub fn magic_bytes() -> (magic: Vec<u8>)
    ensures
        magic@ == segment_magic(),
{
    let mut magic: Vec<u8> = Vec::new();
    magic.push(0x4d);
    magic.push(0x4b);
    magic.push(0x57);
    magic.push(0x33);
    assert(magic@ =~= segment_magic());
    magic
}

/// The name of the segment that starts at `start_seq`.
pub open spec fn filename_text(start_seq: u64) -> Seq<char> {
    "wal-seq"@ + text::zero_padded(text::decimal_digits(start_seq as nat), 6) + ".seg"@
}

/// The start sequence that a file name stands for, if it names a segment.
pub open spec fn parsed_start_seq(name: Seq<char>) -> Option<u64> {
    let n = name.len() as int;
    if n >= 11 && name.take(7) == "wal-seq"@ && name.skip(n - 4) == ".seg"@ {
        text::parsed_u64(name.subrange(7, n - 4))
    } else {
        None
    }
}

/// The file name of the segment that starts at `start_seq`.
pub fn segment_filename(start_seq: u64) -> (name: String)
    ensures
        name@ == filename_text(start_seq),
{
    let mut name = String::from_str("wal-seq");
    let width: usize = text::decimal_width(start_seq);
    let ghost digits = text::decimal_digits(start_seq as nat);
    let mut i: usize = width;
    while i < 6
        invariant
            width <= i,
            i <= 6 || i == width,
            name@ == "wal-seq"@ + Seq::new((i - width) as nat, |k: int| '0'),
        decreases 6 - i,
    {
        let ghost before = name@;
        name.append("0");
        i = i + 1;
        proof {
            reveal_strlit("0");
            assert(name@ =~= "wal-seq"@ + Seq::new((i - width) as nat, |k: int| '0'));
        }
    }
    text::push_decimal(&mut name, start_seq);
    name.append(".seg");
    assert(name@ =~= filename_text(start_seq));
    name
}

fn has_text_at(s: &str, at: usize, pattern: &str) -> (b: bool)
    requires
        at + pattern@.len() <= s@.len(),
    ensures
        b == (s@.subrange(at as int, at + pattern@.len()) == pattern@),
{
    let n: usize = pattern.unicode_len();
    let total: usize = s.unicode_len();
    let mut i: usize = 0;
    while i < n
        invariant
            i <= n,
            n == pattern@.len(),
            total == s@.len(),
            at + n <= total,
            forall|k: int| 0 <= k < i ==> s@[at + k] == pattern@[k],
        decreases n - i,
    {
        if s.get_char(at + i) != pattern.get_char(i) {
            assert(s@.subrange(at as int, at + n)[i as int] != pattern@[i as int]);
            return false;
        }
        i = i + 1;
    }
    assert(s@.subrange(at as int, at + n) =~= pattern@);
    true
}

/// The start sequence of a segment file name. `None` if the name does not
/// match the pattern.
pub fn parse_segment_start_seq(filename: &str) -> (r: Option<u64>)
    ensures
        r == parsed_start_seq(filename@),
{
    proof {
        reveal_strlit("wal-seq");
        reveal_strlit(".seg");
    }
    let n: usize = filename.unicode_len();
    if n < 11 {
        return None;
    }
    assert(filename@.subrange(0, 7) =~= filename@.take(7));
    assert(filename@.subrange(n - 4, n as int) =~= filename@.skip(n - 4));
    if !has_text_at(filename, 0, "wal-seq") || !has_text_at(filename, n - 4, ".seg") {
        return None;
    }
    text::parse_u64(filename, 7, n - 4)
}

/// A segment's file name leads back to its start sequence.
pub proof fn law_filename_parses_back(start_seq: u64)
    ensures
        parsed_start_seq(filename_text(start_seq)) == Some(start_seq),
{
    reveal_strlit("wal-seq");
    reveal_strlit(".seg");
    let digits = text::zero_padded(text::decimal_digits(start_seq as nat), 6);
    let name = filename_text(start_seq);
    let n = name.len() as int;
    assert(name.take(7) =~= "wal-seq"@);
    assert(name.skip(n - 4) =~= ".seg"@);
    assert(name.subrange(7, n - 4) =~= digits);
    text::law_decimal_parses_back(start_seq, 6);
}

/// Distinct segments have distinct file names.
pub proof fn law_filenames_are_distinct(a: u64, b: u64)
    requires
        filename_text(a) == filename_text(b),
    ensures
        a == b,
{
    law_filename_parses_back(a);
    law_filename_parses_back(b);
}

/// Order of listed segments: by start sequence, then by place in the listing.
pub open spec fn listed_before(a: (u64, usize), b: (u64, usize)) -> bool {
    a.0 < b.0 || (a.0 == b.0 && a.1 < b.1)
}

/// `listed` holds exactly the segments among `names[..n]`, in order.
pub open spec fn is_listing(listed: Seq<(u64, usize)>, names: Seq<String>, n: int) -> bool {
    &&& forall|i: int, j: int|
        #![trigger listed[i], listed[j]]
        0 <= i < j < listed.len() ==> listed_before(listed[i], listed[j])
    &&& forall|i: int|
        #![trigger listed[i]]
        0 <= i < listed.len() ==> listed[i].1 < n && parsed_start_seq(names[listed[i].1 as int]@)
            == Some(listed[i].0)
    &&& forall|k: int|
        #![trigger names[k]]
        0 <= k < n ==> (parsed_start_seq(names[k]@) matches Some(seq) ==> listed.contains(
            (seq, k as usize),
        ))
}

/// The segments among a directory's file names, sorted by start sequence
/// ascending, each with its place in `names`.
pub fn list_segments(names: &Vec<String>) -> (listed: Vec<(u64, usize)>)
    ensures
        is_listing(listed@, names@, names@.len() as int),
{
    let mut listed: Vec<(u64, usize)> = Vec::new();
    let mut k: usize = 0;
    while k < names.len()
        invariant
            k <= names@.len(),
            is_listing(listed@, names@, k as int),
        decreases names@.len() - k,
    {
        let ghost before = listed@;
        match parse_segment_start_seq(names[k].as_str()) {
            None => {},
            Some(seq) => {
                let mut at: usize = listed.len();
                while at > 0 && listed[at - 1].0 > seq
                    invariant
                        at <= listed@.len(),
                        listed@ == before,
                        forall|i: int| at <= i < listed@.len() ==> (#[trigger] listed@[i]).0 > seq,
                    decreases at,
                {
                    at = at - 1;
                }
                assert forall|i: int| 0 <= i < at implies (#[trigger] listed@[i]).0 <= seq by {
                    assert(!(listed@[at - 1].0 > seq));
                    if i < at - 1 {
                        assert(listed_before(listed@[i], listed@[at - 1]));
                    }
                }
                listed.insert(at, (seq, k));
                proof {
                    lemma_insert_keeps_listing(before, names@, k as int, at as int, seq);
                }
            },
        }
        k = k + 1;
        proof {
            assert forall|j: int| #![trigger names@[j]] 0 <= j < k implies (parsed_start_seq(
                names@[j]@,
            ) matches Some(seq) ==> listed@.contains((seq, j as usize))) by {}
        }
    }
    listed
}

proof fn lemma_insert_keeps_listing(
    before: Seq<(u64, usize)>,
    names: Seq<String>,
    k: int,
    at: int,
    seq: u64,
)
    requires
        0 <= k < names.len() <= usize::MAX,
        is_listing(before, names, k),
        parsed_start_seq(names[k]@) == Some(seq),
        0 <= at <= before.len(),
        forall|i: int| 0 <= i < at ==> (#[trigger] before[i]).0 <= seq,
        forall|i: int| at <= i < before.len() ==> (#[trigger] before[i]).0 > seq,
    ensures
        is_listing(before.insert(at, (seq, k as usize)), names, k + 1),
{
    let after = before.insert(at, (seq, k as usize));
    assert forall|i: int, j: int|
        #![trigger after[i], after[j]]
        0 <= i < j < after.len() implies listed_before(after[i], after[j]) by {
        if i < at && j > at {
            assert(listed_before(before[i], before[j - 1]));
        } else if j < at {
            assert(listed_before(before[i], before[j]));
        } else if i > at {
            assert(listed_before(before[i - 1], before[j - 1]));
        }
    }
    assert forall|i: int|
        #![trigger after[i]]
        0 <= i < after.len() implies after[i].1 < k + 1 && parsed_start_seq(
        names[after[i].1 as int]@,
    ) == Some(after[i].0) by {
        if i < at {
            assert(after[i] == before[i]);
        } else if i > at {
            assert(after[i] == before[i - 1]);
        }
    }
    assert forall|j: int| #![trigger names[j]] 0 <= j < k + 1 implies (parsed_start_seq(
        names[j]@,
    ) matches Some(s) ==> after.contains((s, j as usize))) by {
        if let Some(s) = parsed_start_seq(names[j]@) {
            if j == k {
                assert(after[at] == (s, j as usize));
            } else {
                assert(before.contains((s, j as usize)));
                let i = choose|i: int| 0 <= i < before.len() && before[i] == (s, j as usize);
                if i < at {
                    assert(after[i] == (s, j as usize));
                } else {
                    assert(after[i + 1] == (s, j as usize));
                }
            }
        }
    }
}

/// What stands where a segment's magic belongs.
#[derive(Clone, Copy, Debug, PartialEq, Eq, Structural)]
pub enum SegmentMagic {
    /// The file ends before the magic does.
    Missing,
    Valid,
    /// Four other bytes.
    Foreign,
}

pub open spec fn magic_at_start(bytes: Seq<u8>) -> SegmentMagic {
    if bytes.len() < 4 {
        SegmentMagic::Missing
    } else if bytes.take(4) == segment_magic() {
        SegmentMagic::Valid
    } else {
        SegmentMagic::Foreign
    }
}

/// What a segment file holds besides its whole frames.
#[derive(Clone, Copy, Debug, PartialEq, Eq)]
pub struct SegmentMeta {
    /// Length of the file in bytes.
    pub len: u64,
    pub magic: SegmentMagic,
    /// Offset at which the whole frames end.
    pub end: u64,
    pub tail: StreamTail,
}

/// Splits a segment file into its whole frames and the rest.
pub fn read_segment(bytes: &[u8]) -> (r: (SegmentMeta, Vec<RawFrame>))
    ensures
        r.0.len == bytes@.len(),
        r.0.magic == magic_at_start(bytes@),
        r.0.end == frame::stream_end(bytes@, 4),
        r.0.tail == frame::tail_of(frame::frame_at(bytes@, r.0.end as int)),
        frame::frame_views(r.1@) == frame::stream(bytes@, 4),
        frame::contiguous(r.1@, 4, r.0.end as int),
        r.0.end <= bytes@.len() || r.0.end == 4,
{
    let magic = if bytes.len() < 4 {
        SegmentMagic::Missing
    } else if bytes[0] == 0x4d && bytes[1] == 0x4b && bytes[2] == 0x57 && bytes[3] == 0x33 {
        assert(bytes@.take(4) =~= segment_magic());
        SegmentMagic::Valid
    } else {
        proof {
            if bytes@.take(4) == segment_magic() {
                assert(bytes@.take(4)[0] == 0x4d && bytes@.take(4)[1] == 0x4b && bytes@.take(4)[2]
                    == 0x57 && bytes@.take(4)[3] == 0x33);
            }
        }
        SegmentMagic::Foreign
    };
    let scan = frame::scan_stream(bytes, 4);
    (SegmentMeta { len: bytes.len() as u64, magic, end: scan.end, tail: scan.tail }, scan.frames)
}

/// A segment file with its frames decoded.
pub struct SegmentImage {
    pub start_seq: u64,
    /// The file's path, as errors show it.
    pub path: String,
    pub meta: SegmentMeta,
    pub frames: Vec<DecodedFrame>,
}

impl SegmentImage {
    /// The frames lie end to end behind the magic, within the file.
    pub open spec fn wf(&self) -> bool {
        &&& frame::contiguous(frame::raw_frames(self.frames@), 4, self.meta.end as int)
        &&& self.meta.end <= self.meta.len || self.meta.end == 4
    }

    /// The views that the segment's frame headers carry, in order. A header
    /// whose payload was cut short counts.
    pub open spec fn header_views(&self) -> Seq<u64> {
        let whole = Seq::new(self.frames@.len(), |i: int| self.frames@[i].frame.spec_stamp());
        match self.meta.tail {
            StreamTail::ShortPayload { view } => whole.push(view),
            _ => whole,
        }
    }

    pub open spec fn spec_magic_error(&self) -> Option<WalError> {
        if self.meta.magic == SegmentMagic::Foreign {
            Some(WalError::Format(FormatIssue::LegacySegment { path: self.path }))
        } else {
            None
        }
    }

    /// Refuses a file that starts with anything but the magic. A file too short
    /// to tell passes: recovery handles it.
    pub fn validate_segment_magic(&self) -> (r: Result<(), WalError>)
        ensures
            match self.spec_magic_error() {
                None => r is Ok,
                Some(e) => r == Err::<(), WalError>(e),
            },
    {
        if self.meta.magic == SegmentMagic::Foreign {
            Err(WalError::Format(FormatIssue::LegacySegment { path: self.path.clone() }))
        } else {
            Ok(())
        }
    }
}

pub open spec fn images_wf(segments: Seq<SegmentImage>) -> bool {
    forall|i: int| 0 <= i < segments.len() ==> (#[trigger] segments[i]).wf()
}

/// The greatest of `views`, or 0.
pub open spec fn greatest(views: Seq<u64>) -> u64
    decreases views.len(),
{
    if views.len() == 0 {
        0
    } else {
        views::max_u64(greatest(views.drop_last()), views.last())
    }
}

/// The greatest view that any frame header of `segments` carries, or 0.
pub open spec fn max_view(segments: Seq<SegmentImage>) -> u64
    decreases segments.len(),
{
    if segments.len() == 0 {
        0
    } else {
        views::max_u64(max_view(segments.drop_last()), greatest(segments.last().header_views()))
    }
}

/// Every value is at most the greatest, and the greatest is 0 or among them.
pub proof fn lemma_greatest(views: Seq<u64>)
    ensures
        forall|i: int| 0 <= i < views.len() ==> #[trigger] views[i] <= greatest(views),
        greatest(views) == 0 || views.contains(greatest(views)),
    decreases views.len(),
{
    if views.len() > 0 {
        let init = views.drop_last();
        lemma_greatest(init);
        assert forall|i: int| 0 <= i < views.len() implies #[trigger] views[i] <= greatest(views) by {
            if i < init.len() {
                assert(init[i] <= greatest(init));
            }
        }
        if greatest(views) == views.last() {
            assert(views[views.len() - 1] == greatest(views));
        } else if greatest(init) != 0 {
            let i = choose|i: int| 0 <= i < init.len() && init[i] == greatest(init);
            assert(views[i] == greatest(views));
        }
    }
}

impl SegmentImage {
    fn max_header_view(&self) -> (view: u64)
        ensures
            view == greatest(self.header_views()),
    {
        let ghost whole = Seq::new(
            self.frames@.len(),
            |i: int| self.frames@[i].frame.spec_stamp(),
        );
        let mut view: u64 = 0;
        let mut i: usize = 0;
        assert(whole.take(0) =~= Seq::<u64>::empty());
        while i < self.frames.len()
            invariant
                i <= self.frames@.len(),
                whole == Seq::new(
                    self.frames@.len(),
                    |i: int| self.frames@[i].frame.spec_stamp(),
                ),
                view == greatest(whole.take(i as int)),
            decreases self.frames@.len() - i,
        {
            let _ = views::observe_view(&mut view, self.frames[i].frame.stamp());
            assert(whole.take(i + 1).drop_last() =~= whole.take(i as int));
            i = i + 1;
        }
        assert(whole.take(i as int) =~= whole);
        if let StreamTail::ShortPayload { view: last } = self.meta.tail {
            let _ = views::observe_view(&mut view, last);
            assert(whole.push(last).drop_last() =~= whole);
        }
        view
    }
}

/// Highest frame view stamped anywhere in `segments[..n]`. Only frame headers
/// count, so a corrupt payload still raises it: the live view counter must
/// resume at or above every view the log has ever carried.
pub fn scan_max_view(segments: &Vec<SegmentImage>, n: usize) -> (view: u64)
    requires
        n <= segments@.len(),
    ensures
        view == max_view(segments@.take(n as int)),
{
    let mut view: u64 = 0;
    let mut i: usize = 0;
    assert(segments@.take(0) =~= Seq::<SegmentImage>::empty());
    while i < n
        invariant
            i <= n <= segments@.len(),
            view == max_view(segments@.take(i as int)),
        decreases n - i,
    {
        let _ = views::observe_view(&mut view, segments[i].max_header_view());
        assert(segments@.take(i + 1).drop_last() =~= segments@.take(i as int));
        i = i + 1;
    }
    view
}

/// A segment's file name is `wal-seq`, the start with at least six digits, and
/// `.seg`.
pub proof fn law_filename_shape(start_seq: u64)
    ensures
        ({
            let name = filename_text(start_seq);
            let n = name.len() as int;
            &&& n >= 17
            &&& name.take(7) == "wal-seq"@
            &&& name.skip(n - 4) == ".seg"@
            &&& text::all_digits(name.subrange(7, n - 4))
            &&& text::digits_value(name.subrange(7, n - 4)) == start_seq
            &&& n > 17 ==> name[7] != '0'
        }),
{
    reveal_strlit("wal-seq");
    reveal_strlit(".seg");
    let digits = text::zero_padded(text::decimal_digits(start_seq as nat), 6);
    let name = filename_text(start_seq);
    let n = name.len() as int;
    assert(name.take(7) =~= "wal-seq"@);
    assert(name.skip(n - 4) =~= ".seg"@);
    assert(name.subrange(7, n - 4) =~= digits);
    text::lemma_padded(start_seq as nat, 6);
    text::lemma_leading_digit(start_seq as nat);
    if n > 17 {
        assert(digits == text::decimal_digits(start_seq as nat));
        assert(name[7] == digits[0]);
    }
}

/// A name stands for a segment exactly where it is `wal-seq`, a number that
/// fits, and `.seg`.
pub proof fn law_only_segment_names_parse(name: Seq<char>)
    ensures
        match parsed_start_seq(name) {
            Some(seq) => {
                let n = name.len() as int;
                let body = name.subrange(7, n - 4);
                &&& n >= 12
                &&& name.take(7) == "wal-seq"@
                &&& name.skip(n - 4) == ".seg"@
                &&& text::digits_value(
                    if body[0] == '+' {
                        body.skip(1)
                    } else {
                        body
                    },
                ) == seq
            },
            None => true,
        },
{
}

/// The highest view of a list of segments is carried by one of their headers,
/// or 0, and no header carries a higher one.
pub proof fn law_max_view_is_the_highest(segments: Seq<SegmentImage>, i: int, k: int)
    requires
        0 <= i < segments.len(),
        0 <= k < segments[i].header_views().len(),
    ensures
        segments[i].header_views()[k] <= max_view(segments),
    decreases segments.len(),
{
    if i == segments.len() - 1 {
        lemma_greatest(segments[i].header_views());
    } else {
        assert(segments.drop_last()[i] == segments[i]);
        law_max_view_is_the_highest(segments.drop_last(), i, k);
    }
}

} // verus!
