//! Reading a Matroska file one request at a time. The reader says which bytes of the file
//! it needs next; whoever holds the file reads them and hands them over.
use vstd::prelude::*;
use crate::ebml::{ElementModel, MatroskaError, lemma_header_len, read_element_id_size, spec_parse_master, spec_read_header};
use crate::segment::{Matroska, MatroskaView, empty_matroska};
use crate::info::{Info, spec_info};
use crate::tracks::{Track, spec_tracks};
use crate::attachments::{Attachment, spec_attachments};
use crate::chapters::{ChapterEdition, spec_chapter_editions};
use crate::seek::{Seektable, spec_seek_map};
use crate::ids::{SEGMENT, SEEKHEAD, INFO, TRACKS, ATTACHMENTS, CHAPTERS};

verus! {

/// The most bytes that an element header takes: a four-byte ID and an eight-byte size.
pub const HEADER_LIMIT: u64 = 12;

/// What the reader asks of whoever feeds it the file.
#[derive(Debug, Clone, Copy, PartialEq, Eq, Structural)]
pub enum Action {
    /// Hand over the bytes of the file from `offset` on, `length` of them, or fewer where
    /// the file ends before.
    Read { offset: u64, length: u64 },
    /// The reader is done; its result is ready.
    Finish,
}

/// Where the reader stands in the file.
#[derive(Debug)]
pub enum Phase {
    /// Looking for the Segment: the header of the top-level element at `at` is next.
    FindSegment { at: u64 },
    /// The header of the segment child at `at` is next; `remaining` bytes of the
    /// segment's body are left, which starts at `segment_start`.
    ChildHeader { at: u64, remaining: u64, segment_start: u64 },
    /// The body, `size` bytes at `body_at`, of the segment child `id`, whose header took
    /// `header_len` bytes, is next.
    ChildBody { body_at: u64, remaining: u64, segment_start: u64, id: u32, size: u64, header_len: u64 },
    /// The header at `at` of the element that the first of `targets` names is next. Each
    /// target is an element ID and its position from `segment_start`.
    TargetHeader { targets: Vec<(u32, u64)>, segment_start: u64, at: u64 },
    /// The body, `size` bytes at `body_at`, of the element that the first of `targets`
    /// names is next.
    TargetBody { targets: Vec<(u32, u64)>, segment_start: u64, body_at: u64, size: u64 },
    /// Finished, with an error or without.
    Done { error: Option<MatroskaError> },
}

/// Where the reader stands, as a mathematical object.
pub enum PhaseView {
    FindSegment { at: u64 },
    ChildHeader { at: u64, remaining: u64, segment_start: u64 },
    ChildBody { body_at: u64, remaining: u64, segment_start: u64, id: u32, size: u64, header_len: u64 },
    TargetHeader { targets: Seq<(u32, u64)>, segment_start: u64, at: u64 },
    TargetBody { targets: Seq<(u32, u64)>, segment_start: u64, body_at: u64, size: u64 },
    Done { error: Option<MatroskaError> },
}

impl View for Phase {
    type V = PhaseView;

    open spec fn view(&self) -> PhaseView {
        match *self {
            Phase::FindSegment { at } => PhaseView::FindSegment { at },
            Phase::ChildHeader { at, remaining, segment_start } => PhaseView::ChildHeader {
                at,
                remaining,
                segment_start,
            },
            Phase::ChildBody { body_at, remaining, segment_start, id, size, header_len } =>
                PhaseView::ChildBody { body_at, remaining, segment_start, id, size, header_len },
            Phase::TargetHeader { targets, segment_start, at } => PhaseView::TargetHeader {
                targets: targets@,
                segment_start,
                at,
            },
            Phase::TargetBody { targets, segment_start, body_at, size } => PhaseView::TargetBody {
                targets: targets@,
                segment_start,
                body_at,
                size,
            },
            Phase::Done { error } => PhaseView::Done { error },
        }
    }
}

/// The top-level elements that a seek table can send the reader to.
pub open spec fn is_target_id(id: u32) -> bool {
    id == INFO || id == TRACKS || id == ATTACHMENTS || id == CHAPTERS
}

/// Every target names an element that the seek table can send the reader to.
pub open spec fn targets_wf(targets: Seq<(u32, u64)>) -> bool {
    forall|i: int| 0 <= i < targets.len() ==> is_target_id(#[trigger] targets[i].0)
}

/// A phase that the reader can be in: it reads the body of a segment child only for the
/// children it keeps, and it goes to seek targets only while one is left.
pub open spec fn phase_wf(phase: PhaseView) -> bool {
    match phase {
        PhaseView::ChildBody { id, header_len, .. } => is_read_child(id) && header_len >= 2,
        PhaseView::TargetHeader { targets, .. } => targets.len() > 0 && targets_wf(targets),
        PhaseView::TargetBody { targets, .. } => targets.len() > 0 && targets_wf(targets),
        _ => true,
    }
}

/// A Matroska file being read.
#[derive(Debug)]
pub struct MatroskaReader {
    phase: Phase,
    matroska: Matroska,
}

impl MatroskaReader {
    #[verifier::type_invariant]
    spec fn wf(self) -> bool {
        phase_wf(self.phase@)
    }
}

/// A reader, as a mathematical object: where it stands and what it has read so far.
pub struct ReaderView {
    pub phase: PhaseView,
    pub matroska: MatroskaView,
}

impl View for MatroskaReader {
    type V = ReaderView;

    closed spec fn view(&self) -> ReaderView {
        ReaderView { phase: self.phase@, matroska: self.matroska@ }
    }
}

/// What the reader asks for in the given phase: a header's bytes at most, or a body.
pub open spec fn spec_action(phase: PhaseView) -> Action {
    match phase {
        PhaseView::FindSegment { at } => Action::Read { offset: at, length: HEADER_LIMIT },
        PhaseView::ChildHeader { at, .. } => Action::Read { offset: at, length: HEADER_LIMIT },
        PhaseView::ChildBody { body_at, size, .. } => Action::Read { offset: body_at, length: size },
        PhaseView::TargetHeader { at, .. } => Action::Read { offset: at, length: HEADER_LIMIT },
        PhaseView::TargetBody { body_at, size, .. } => Action::Read { offset: body_at, length: size },
        PhaseView::Done { .. } => Action::Finish,
    }
}

/// Finished with the given error.
pub open spec fn done(m: MatroskaView, e: MatroskaError) -> ReaderView {
    ReaderView { phase: PhaseView::Done { error: Some(e) }, matroska: m }
}

/// The segment children whose bodies the reader reads; it skips the others.
pub open spec fn is_read_child(id: u32) -> bool {
    id == SEEKHEAD || id == INFO || id == TRACKS || id == ATTACHMENTS || id == CHAPTERS
}

/// Moving on to the segment child at `next`, with `remaining` bytes of the segment left:
/// done when none are left.
pub open spec fn spec_next_child(m: MatroskaView, next: int, remaining: u64, segment_start: u64) -> ReaderView {
    if remaining == 0 {
        ReaderView { phase: PhaseView::Done { error: None }, matroska: m }
    } else if next > u64::MAX {
        done(m, MatroskaError::PositionOverflow)
    } else {
        ReaderView {
            phase: PhaseView::ChildHeader { at: next as u64, remaining, segment_start },
            matroska: m,
        }
    }
}

/// Leaving a segment child of `len` bytes (header and body) that ends at `next`:
/// it must fit in the `remaining` bytes of the segment.
pub open spec fn spec_finish_child(
    m: MatroskaView,
    next: int,
    len: int,
    remaining: u64,
    segment_start: u64,
) -> ReaderView {
    if len > remaining {
        done(m, MatroskaError::InvalidSize)
    } else {
        spec_next_child(m, next, (remaining - len) as u64, segment_start)
    }
}

/// The elements that the seek table sends the reader to, in the order it reads them:
/// Info, Tracks, Attachments, then Chapters, each when the table has it.
pub open spec fn spec_seek_targets(table: Map<u32, u64>) -> Seq<(u32, u64)> {
    let info = if table.contains_key(INFO) { seq![(INFO, table[INFO])] } else { Seq::empty() };
    let tracks = if table.contains_key(TRACKS) { seq![(TRACKS, table[TRACKS])] } else { Seq::empty() };
    let attachments = if table.contains_key(ATTACHMENTS) {
        seq![(ATTACHMENTS, table[ATTACHMENTS])]
    } else {
        Seq::empty()
    };
    let chapters = if table.contains_key(CHAPTERS) {
        seq![(CHAPTERS, table[CHAPTERS])]
    } else {
        Seq::empty()
    };
    info + tracks + attachments + chapters
}

/// Going to the first of `targets`, whose positions count from `segment_start`: done
/// when there is none.
pub open spec fn spec_next_target(m: MatroskaView, targets: Seq<(u32, u64)>, segment_start: u64) -> ReaderView {
    if targets.len() == 0 {
        ReaderView { phase: PhaseView::Done { error: None }, matroska: m }
    } else if targets[0].1 + segment_start > u64::MAX {
        done(m, MatroskaError::PositionOverflow)
    } else {
        ReaderView {
            phase: PhaseView::TargetHeader {
                targets,
                segment_start,
                at: (targets[0].1 + segment_start) as u64,
            },
            matroska: m,
        }
    }
}

/// The file once the body of a top-level element `id` has been read as `es`.
pub open spec fn spec_apply(m: MatroskaView, id: u32, es: Seq<ElementModel>) -> MatroskaView {
    if id == INFO {
        MatroskaView { info: spec_info(es), ..m }
    } else if id == TRACKS {
        MatroskaView { tracks: spec_tracks(es), ..m }
    } else if id == ATTACHMENTS {
        MatroskaView { attachments: spec_attachments(es), ..m }
    } else if id == CHAPTERS {
        MatroskaView { chapters: spec_chapter_editions(es), ..m }
    } else {
        m
    }
}

/// After the header at `at` of a top-level element: the Segment is entered, any other
/// element skipped.
pub open spec fn spec_after_top_header(m: MatroskaView, at: u64, reply: Seq<u8>) -> ReaderView {
    match spec_read_header(reply) {
        Err(e) => done(m, e),
        Ok((id, size, n)) => if id == SEGMENT {
            if at + n > u64::MAX {
                done(m, MatroskaError::PositionOverflow)
            } else {
                spec_next_child(m, at + n, size, (at + n) as u64)
            }
        } else if at + n + size > u64::MAX {
            done(m, MatroskaError::PositionOverflow)
        } else {
            ReaderView { phase: PhaseView::FindSegment { at: (at + n + size) as u64 }, matroska: m }
        },
    }
}

/// After the header at `at` of a segment child: its body is read next, or it is skipped.
pub open spec fn spec_after_child_header(
    m: MatroskaView,
    at: u64,
    remaining: u64,
    segment_start: u64,
    reply: Seq<u8>,
) -> ReaderView {
    match spec_read_header(reply) {
        Err(e) => done(m, e),
        Ok((id, size, n)) => if is_read_child(id) {
            if at + n > u64::MAX {
                done(m, MatroskaError::PositionOverflow)
            } else {
                ReaderView {
                    phase: PhaseView::ChildBody {
                        body_at: (at + n) as u64,
                        remaining,
                        segment_start,
                        id,
                        size,
                        header_len: n as u64,
                    },
                    matroska: m,
                }
            }
        } else {
            spec_finish_child(m, at + n + size, n + size, remaining, segment_start)
        },
    }
}

/// After the body of a segment child: a seek table sends the reader to the elements it
/// lists; any other body fills in its part of the file.
pub open spec fn spec_after_child_body(
    m: MatroskaView,
    body_at: u64,
    remaining: u64,
    segment_start: u64,
    id: u32,
    size: u64,
    header_len: u64,
    reply: Seq<u8>,
) -> ReaderView {
    if reply.len() < size {
        done(m, MatroskaError::UnexpectedEof)
    } else {
        match spec_parse_master(reply.take(size as int)) {
            Err(e) => done(m, e),
            Ok(es) => if id == SEEKHEAD {
                spec_next_target(m, spec_seek_targets(spec_seek_map(es)), segment_start)
            } else {
                spec_finish_child(
                    spec_apply(m, id, es),
                    body_at + size,
                    header_len + size,
                    remaining,
                    segment_start,
                )
            },
        }
    }
}

/// After the header at `at` of a seek target: it must be the element the table named.
pub open spec fn spec_after_target_header(
    m: MatroskaView,
    targets: Seq<(u32, u64)>,
    segment_start: u64,
    at: u64,
    reply: Seq<u8>,
) -> ReaderView {
    match spec_read_header(reply) {
        Err(e) => done(m, e),
        Ok((id, size, n)) => if id != targets[0].0 {
            done(m, MatroskaError::UnexpectedElement { expected: targets[0].0, found: id })
        } else if at + n > u64::MAX {
            done(m, MatroskaError::PositionOverflow)
        } else {
            ReaderView {
                phase: PhaseView::TargetBody { targets, segment_start, body_at: (at + n) as u64, size },
                matroska: m,
            }
        },
    }
}

/// After the body of a seek target: it fills in its part of the file, and the next
/// target follows.
pub open spec fn spec_after_target_body(
    m: MatroskaView,
    targets: Seq<(u32, u64)>,
    segment_start: u64,
    size: u64,
    reply: Seq<u8>,
) -> ReaderView {
    if reply.len() < size {
        done(m, MatroskaError::UnexpectedEof)
    } else {
        match spec_parse_master(reply.take(size as int)) {
            Err(e) => done(m, e),
            Ok(es) => spec_next_target(spec_apply(m, targets[0].0, es), targets.drop_first(), segment_start),
        }
    }
}

/// The reader after it is handed `reply` for what it asked.
pub open spec fn spec_feed(r: ReaderView, reply: Seq<u8>) -> ReaderView {
    match r.phase {
        PhaseView::FindSegment { at } => spec_after_top_header(r.matroska, at, reply),
        PhaseView::ChildHeader { at, remaining, segment_start } => spec_after_child_header(
            r.matroska,
            at,
            remaining,
            segment_start,
            reply,
        ),
        PhaseView::ChildBody { body_at, remaining, segment_start, id, size, header_len } =>
            spec_after_child_body(r.matroska, body_at, remaining, segment_start, id, size, header_len, reply),
        PhaseView::TargetHeader { targets, segment_start, at } => spec_after_target_header(
            r.matroska,
            targets,
            segment_start,
            at,
            reply,
        ),
        PhaseView::TargetBody { targets, segment_start, size, .. } => spec_after_target_body(
            r.matroska,
            targets,
            segment_start,
            size,
            reply,
        ),
        PhaseView::Done { .. } => r,
    }
}

/// An optional position: `p` when it is `Some`, beyond 64 bits when it is `None`.
pub open spec fn position_is(p: Option<u64>, v: int) -> bool {
    match p {
        Some(x) => x == v,
        None => v > u64::MAX,
    }
}

fn sum(a: u64, b: u64) -> (s: Option<u64>)
    ensures
        position_is(s, a + b),
{
    a.checked_add(b)
}

fn sum_opt(a: Option<u64>, b: u64) -> (s: Option<u64>)
    ensures
        forall|v: int| v >= 0 && position_is(a, v) ==> position_is(s, v + b),
{
    match a {
        Some(x) => x.checked_add(b),
        None => None,
    }
}

fn done_with(e: MatroskaError) -> (p: Phase)
    ensures
        p@ == (PhaseView::Done { error: Some(e) }),
{
    Phase::Done { error: Some(e) }
}

fn header_of(reply: &[u8]) -> (res: Result<(u32, u64, usize), MatroskaError>)
    ensures
        match spec_read_header(reply@) {
            Ok((id, size, n)) => res == Ok::<(u32, u64, usize), MatroskaError>((id, size, n as usize)),
            Err(e) => res == Err::<(u32, u64, usize), MatroskaError>(e),
        },
{
    proof {
        assert(reply@.subrange(0, reply@.len() as int) =~= reply@);
    }
    read_element_id_size(reply, 0, reply.len())
}

fn next_child(m: &Matroska, next: Option<u64>, Ghost(next_int): Ghost<int>, remaining: u64, segment_start: u64) -> (p: Phase)
    requires
        position_is(next, next_int),
    ensures
        (ReaderView { phase: p@, matroska: m@ }) == spec_next_child(m@, next_int, remaining, segment_start),
{
    if remaining == 0 {
        Phase::Done { error: None }
    } else {
        match next {
            Some(at) => Phase::ChildHeader { at, remaining, segment_start },
            None => done_with(MatroskaError::PositionOverflow),
        }
    }
}

fn finish_child(
    m: &Matroska,
    next: Option<u64>,
    Ghost(next_int): Ghost<int>,
    len: Option<u64>,
    Ghost(len_int): Ghost<int>,
    remaining: u64,
    segment_start: u64,
) -> (p: Phase)
    requires
        position_is(next, next_int),
        position_is(len, len_int),
    ensures
        (ReaderView { phase: p@, matroska: m@ }) == spec_finish_child(m@, next_int, len_int, remaining, segment_start),
{
    match len {
        Some(l) => {
            if l > remaining {
                done_with(MatroskaError::InvalidSize)
            } else {
                next_child(m, next, Ghost(next_int), remaining - l, segment_start)
            }
        },
        None => done_with(MatroskaError::InvalidSize),
    }
}

fn seek_targets(table: &Seektable) -> (targets: Vec<(u32, u64)>)
    ensures
        targets@ == spec_seek_targets(table@),
{
    let mut targets: Vec<(u32, u64)> = Vec::new();
    if let Some(p) = table.get(INFO) {
        targets.push((INFO, p));
    }
    if let Some(p) = table.get(TRACKS) {
        targets.push((TRACKS, p));
    }
    if let Some(p) = table.get(ATTACHMENTS) {
        targets.push((ATTACHMENTS, p));
    }
    if let Some(p) = table.get(CHAPTERS) {
        targets.push((CHAPTERS, p));
    }
    proof {
        assert(targets@ =~= spec_seek_targets(table@));
    }
    targets
}

fn next_target(m: &Matroska, targets: Vec<(u32, u64)>, segment_start: u64) -> (p: Phase)
    ensures
        (ReaderView { phase: p@, matroska: m@ }) == spec_next_target(m@, targets@, segment_start),
{
    if targets.len() == 0 {
        Phase::Done { error: None }
    } else {
        match targets[0].1.checked_add(segment_start) {
            Some(at) => Phase::TargetHeader { targets, segment_start, at },
            None => done_with(MatroskaError::PositionOverflow),
        }
    }
}

fn apply_body(m: &mut Matroska, id: u32, body: &[u8]) -> (res: Result<(), MatroskaError>)
    requires
        id == INFO || id == TRACKS || id == ATTACHMENTS || id == CHAPTERS,
    ensures
        match spec_parse_master(body@) {
            Ok(es) => res is Ok && final(m)@ == spec_apply(old(m)@, id, es),
            Err(e) => res == Err::<(), MatroskaError>(e) && final(m)@ == old(m)@,
        },
{
    if id == INFO {
        match Info::parse(body) {
            Ok(info) => {
                m.info = info;
                Ok(())
            },
            Err(e) => Err(e),
        }
    } else if id == TRACKS {
        match Track::parse(body) {
            Ok(tracks) => {
                m.tracks = tracks;
                Ok(())
            },
            Err(e) => Err(e),
        }
    } else if id == ATTACHMENTS {
        match Attachment::parse(body) {
            Ok(attachments) => {
                m.attachments = attachments;
                Ok(())
            },
            Err(e) => Err(e),
        }
    } else {
        match ChapterEdition::parse(body) {
            Ok(chapters) => {
                m.chapters = chapters;
                Ok(())
            },
            Err(e) => Err(e),
        }
    }
}

/// The seek table only ever sends the reader to Info, Tracks, Attachments or Chapters.
pub proof fn lemma_seek_targets_wf(table: Map<u32, u64>)
    ensures
        targets_wf(spec_seek_targets(table)),
{
    let t = spec_seek_targets(table);
    assert forall|i: int| 0 <= i < t.len() implies is_target_id(#[trigger] t[i].0) by {
    }
}

/// The seek table sends the reader to exactly the elements it lists among Info, Tracks,
/// Attachments and Chapters, each entry on its own, at the position the table gives, and
/// to each at most once, in that order.
pub proof fn lemma_seek_targets_exact(table: Map<u32, u64>)
    ensures
        forall|id: u32, p: u64| #[trigger] spec_seek_targets(table).contains((id, p))
            <==> (is_target_id(id) && table.contains_key(id) && table[id] == p),
        forall|i: int, j: int|
            0 <= i < j < spec_seek_targets(table).len() ==> spec_seek_targets(table)[i].0 != spec_seek_targets(table)[j].0
                && target_rank(spec_seek_targets(table)[i].0) < target_rank(spec_seek_targets(table)[j].0),
{
    let t = spec_seek_targets(table);
    assert forall|i: int| 0 <= i < t.len() implies is_target_id(#[trigger] t[i].0) && table.contains_key(t[i].0)
        && table[t[i].0] == t[i].1 by {
    }
    assert forall|id: u32, p: u64| #[trigger] t.contains((id, p))
        <==> (is_target_id(id) && table.contains_key(id) && table[id] == p) by {
        if t.contains((id, p)) {
            let i = choose|i: int| 0 <= i < t.len() && t[i] == (id, p);
            assert(is_target_id(t[i].0));
        }
        if is_target_id(id) && table.contains_key(id) && table[id] == p {
            let info: Seq<(u32, u64)> = if table.contains_key(INFO) { seq![(INFO, table[INFO])] } else { Seq::empty() };
            let tracks: Seq<(u32, u64)> = if table.contains_key(TRACKS) { seq![(TRACKS, table[TRACKS])] } else { Seq::empty() };
            let attachments: Seq<(u32, u64)> = if table.contains_key(ATTACHMENTS) {
                seq![(ATTACHMENTS, table[ATTACHMENTS])]
            } else {
                Seq::empty()
            };
            if id == INFO {
                assert(t[0] == (id, p));
            } else if id == TRACKS {
                assert(t[info.len() as int] == (id, p));
            } else if id == ATTACHMENTS {
                assert(t[(info.len() + tracks.len()) as int] == (id, p));
            } else {
                assert(t[(info.len() + tracks.len() + attachments.len()) as int] == (id, p));
            }
        }
    }
}

/// The order in which the reader visits the elements the seek table lists.
pub open spec fn target_rank(id: u32) -> int {
    if id == INFO {
        0
    } else if id == TRACKS {
        1
    } else if id == ATTACHMENTS {
        2
    } else {
        3
    }
}

/// The parts of the file other than the one of `id` are the same in `a` and `b`, and
/// the part of `id` in `b` is the one that `es` describes: the Info, Tracks, Attachments or
/// Chapters as their own parsing gives them.
pub open spec fn fills_part(a: MatroskaView, b: MatroskaView, id: u32, es: Seq<ElementModel>) -> bool {
    &&& b.info == (if id == INFO { spec_info(es) } else { a.info })
    &&& b.tracks == (if id == TRACKS { spec_tracks(es) } else { a.tracks })
    &&& b.attachments == (if id == ATTACHMENTS { spec_attachments(es) } else { a.attachments })
    &&& b.chapters == (if id == CHAPTERS { spec_chapter_editions(es) } else { a.chapters })
}

/// Looking for the Segment: the header of a Segment takes the reader into its body, whose
/// children it reads next (or it finishes when the body is empty); the header of any other
/// element takes it past that element, to the next header. A header fills in nothing.
pub proof fn lemma_top_header_step(r: ReaderView, reply: Seq<u8>, id: u32, size: u64, n: nat)
    requires
        r.phase is FindSegment,
        spec_read_header(reply) == Ok::<(u32, u64, nat), MatroskaError>((id, size, n)),
        r.phase->FindSegment_at + n + size <= u64::MAX,
    ensures
        spec_feed(r, reply).matroska == r.matroska,
        id == SEGMENT && size == 0 ==> spec_feed(r, reply).phase == (PhaseView::Done { error: None }),
        id == SEGMENT && size > 0 ==> spec_feed(r, reply).phase == (PhaseView::ChildHeader {
            at: (r.phase->FindSegment_at + n) as u64,
            remaining: size,
            segment_start: (r.phase->FindSegment_at + n) as u64,
        }),
        id != SEGMENT ==> spec_feed(r, reply).phase == (PhaseView::FindSegment {
            at: (r.phase->FindSegment_at + n + size) as u64,
        }),
{
}

/// At the position the seek table gives, the reader must find the element the table
/// named: then its body is read next, and otherwise reading stops with an error that names
/// both IDs.
pub proof fn lemma_target_header_step(r: ReaderView, reply: Seq<u8>, id: u32, size: u64, n: nat)
    requires
        r.phase is TargetHeader,
        r.phase->TargetHeader_targets.len() > 0,
        spec_read_header(reply) == Ok::<(u32, u64, nat), MatroskaError>((id, size, n)),
        r.phase->TargetHeader_at + n <= u64::MAX,
    ensures
        spec_feed(r, reply).matroska == r.matroska,
        id == r.phase->TargetHeader_targets[0].0 ==> spec_feed(r, reply).phase == (PhaseView::TargetBody {
            targets: r.phase->TargetHeader_targets,
            segment_start: r.phase->TargetHeader_segment_start,
            body_at: (r.phase->TargetHeader_at + n) as u64,
            size,
        }),
        id != r.phase->TargetHeader_targets[0].0 ==> spec_feed(r, reply).phase == (PhaseView::Done {
            error: Some(MatroskaError::UnexpectedElement { expected: r.phase->TargetHeader_targets[0].0, found: id }),
        }),
{
}

/// After the header of a segment child, the reader reads the child's body next when it is
/// a SeekHead, Info, Tracks, Attachments or Chapters element. Any other child it steps
/// over whole: to the next child, or to the end when the child ends the segment; a child
/// that runs past the segment is an error. A header fills in nothing.
pub proof fn lemma_child_header_step(r: ReaderView, reply: Seq<u8>, id: u32, size: u64, n: nat)
    requires
        r.phase is ChildHeader,
        spec_read_header(reply) == Ok::<(u32, u64, nat), MatroskaError>((id, size, n)),
        r.phase->ChildHeader_at + n + size <= u64::MAX,
    ensures
        spec_feed(r, reply).matroska == r.matroska,
        (id == SEEKHEAD || id == INFO || id == TRACKS || id == ATTACHMENTS || id == CHAPTERS)
            ==> spec_feed(r, reply).phase == (PhaseView::ChildBody {
            body_at: (r.phase->ChildHeader_at + n) as u64,
            remaining: r.phase->ChildHeader_remaining,
            segment_start: r.phase->ChildHeader_segment_start,
            id,
            size,
            header_len: n as u64,
        }),
        !(id == SEEKHEAD || id == INFO || id == TRACKS || id == ATTACHMENTS || id == CHAPTERS)
            && n + size > r.phase->ChildHeader_remaining ==> spec_feed(r, reply).phase == (PhaseView::Done {
            error: Some(MatroskaError::InvalidSize),
        }),
        !(id == SEEKHEAD || id == INFO || id == TRACKS || id == ATTACHMENTS || id == CHAPTERS)
            && n + size == r.phase->ChildHeader_remaining ==> spec_feed(r, reply).phase == (PhaseView::Done {
            error: None,
        }),
        !(id == SEEKHEAD || id == INFO || id == TRACKS || id == ATTACHMENTS || id == CHAPTERS)
            && n + size < r.phase->ChildHeader_remaining ==> spec_feed(r, reply).phase == (PhaseView::ChildHeader {
            at: (r.phase->ChildHeader_at + n + size) as u64,
            remaining: (r.phase->ChildHeader_remaining - n - size) as u64,
            segment_start: r.phase->ChildHeader_segment_start,
        }),
{
}

/// After the body of a segment child that reads as `es`: an Info, Tracks, Attachments or
/// Chapters body fills in that part of the file, and the reader goes on to the next child
/// (or finishes at the segment's end); a SeekHead body fills in nothing and sends the reader
/// to the first element that its table lists, or finishes when it lists none.
pub proof fn lemma_child_body_step(r: ReaderView, reply: Seq<u8>, es: Seq<ElementModel>)
    requires
        r.phase is ChildBody,
        reply.len() >= r.phase->ChildBody_size,
        spec_parse_master(reply.take(r.phase->ChildBody_size as int)) == Ok::<Seq<ElementModel>, MatroskaError>(es),
        r.phase->ChildBody_body_at + r.phase->ChildBody_size <= u64::MAX,
    ensures
        r.phase->ChildBody_id != SEEKHEAD ==> fills_part(
            r.matroska,
            spec_feed(r, reply).matroska,
            r.phase->ChildBody_id,
            es,
        ),
        r.phase->ChildBody_id != SEEKHEAD && r.phase->ChildBody_header_len + r.phase->ChildBody_size
            < r.phase->ChildBody_remaining ==> spec_feed(r, reply).phase == (PhaseView::ChildHeader {
            at: (r.phase->ChildBody_body_at + r.phase->ChildBody_size) as u64,
            remaining: (r.phase->ChildBody_remaining - r.phase->ChildBody_header_len - r.phase->ChildBody_size) as u64,
            segment_start: r.phase->ChildBody_segment_start,
        }),
        r.phase->ChildBody_id != SEEKHEAD && r.phase->ChildBody_header_len + r.phase->ChildBody_size
            == r.phase->ChildBody_remaining ==> spec_feed(r, reply).phase == (PhaseView::Done { error: None }),
        r.phase->ChildBody_id == SEEKHEAD ==> spec_feed(r, reply).matroska == r.matroska,
        r.phase->ChildBody_id == SEEKHEAD && spec_seek_targets(spec_seek_map(es)).len() == 0
            ==> spec_feed(r, reply).phase == (PhaseView::Done { error: None }),
        r.phase->ChildBody_id == SEEKHEAD && spec_seek_targets(spec_seek_map(es)).len() > 0
            && spec_seek_targets(spec_seek_map(es))[0].1 + r.phase->ChildBody_segment_start <= u64::MAX
            ==> spec_feed(r, reply).phase == (PhaseView::TargetHeader {
            targets: spec_seek_targets(spec_seek_map(es)),
            segment_start: r.phase->ChildBody_segment_start,
            at: (spec_seek_targets(spec_seek_map(es))[0].1 + r.phase->ChildBody_segment_start) as u64,
        }),
{
}

/// After the body of the element that the seek table sent the reader to, read as `es`:
/// it fills in that element's part of the file, and the reader goes on to the next element
/// the table lists, or finishes after the last.
pub proof fn lemma_target_body_step(r: ReaderView, reply: Seq<u8>, es: Seq<ElementModel>)
    requires
        r.phase is TargetBody,
        r.phase->TargetBody_targets.len() > 0,
        reply.len() >= r.phase->TargetBody_size,
        spec_parse_master(reply.take(r.phase->TargetBody_size as int)) == Ok::<Seq<ElementModel>, MatroskaError>(es),
    ensures
        fills_part(r.matroska, spec_feed(r, reply).matroska, r.phase->TargetBody_targets[0].0, es),
        r.phase->TargetBody_targets.len() == 1 ==> spec_feed(r, reply).phase == (PhaseView::Done { error: None }),
        r.phase->TargetBody_targets.len() > 1 && r.phase->TargetBody_targets[1].1 + r.phase->TargetBody_segment_start
            <= u64::MAX ==> spec_feed(r, reply).phase == (PhaseView::TargetHeader {
            targets: r.phase->TargetBody_targets.drop_first(),
            segment_start: r.phase->TargetBody_segment_start,
            at: (r.phase->TargetBody_targets[1].1 + r.phase->TargetBody_segment_start) as u64,
        }),
{
}

/// Every phase the reader goes to is one it can be in.
pub proof fn lemma_feed_wf(r: ReaderView, reply: Seq<u8>)
    requires
        phase_wf(r.phase),
    ensures
        phase_wf(spec_feed(r, reply).phase),
{
    lemma_header_len(reply);
    match r.phase {
        PhaseView::ChildBody { .. } => {
            assert forall|table: Map<u32, u64>| #![trigger spec_seek_targets(table)]
                targets_wf(spec_seek_targets(table)) by {
                lemma_seek_targets_wf(table);
            }
        },
        PhaseView::TargetBody { targets, .. } => {
            assert(targets_wf(targets.drop_first())) by {
                assert forall|i: int| 0 <= i < targets.drop_first().len() implies is_target_id(
                    #[trigger] targets.drop_first()[i].0,
                ) by {
                    assert(targets.drop_first()[i] == targets[i + 1]);
                }
            }
        },
        _ => {},
    }
}

fn after_top_header(m: &Matroska, at: u64, reply: &[u8]) -> (p: Phase)
    ensures
        (ReaderView { phase: p@, matroska: m@ }) == spec_after_top_header(m@, at, reply@),
{
    match header_of(reply) {
        Err(e) => done_with(e),
        Ok((id, size, n)) => {
            let start = sum(at, n as u64);
            if id == SEGMENT {
                match start {
                    Some(s) => next_child(m, start, Ghost(at + n), size, s),
                    None => done_with(MatroskaError::PositionOverflow),
                }
            } else {
                match sum_opt(start, size) {
                    Some(next) => Phase::FindSegment { at: next },
                    None => done_with(MatroskaError::PositionOverflow),
                }
            }
        },
    }
}

fn after_child_header(m: &Matroska, at: u64, remaining: u64, segment_start: u64, reply: &[u8]) -> (p: Phase)
    ensures
        (ReaderView { phase: p@, matroska: m@ }) == spec_after_child_header(
            m@,
            at,
            remaining,
            segment_start,
            reply@,
        ),
{
    match header_of(reply) {
        Err(e) => done_with(e),
        Ok((id, size, n)) => {
            let body_at = sum(at, n as u64);
            if id == SEEKHEAD || id == INFO || id == TRACKS || id == ATTACHMENTS || id == CHAPTERS {
                match body_at {
                    Some(b) => Phase::ChildBody { body_at: b, remaining, segment_start, id, size, header_len: n as u64 },
                    None => done_with(MatroskaError::PositionOverflow),
                }
            } else {
                finish_child(
                    m,
                    sum_opt(body_at, size),
                    Ghost(at + n + size),
                    sum(n as u64, size),
                    Ghost(n + size),
                    remaining,
                    segment_start,
                )
            }
        },
    }
}

fn after_child_body(
    m: &mut Matroska,
    body_at: u64,
    remaining: u64,
    segment_start: u64,
    id: u32,
    size: u64,
    header_len: u64,
    reply: &[u8],
) -> (p: Phase)
    requires
        is_read_child(id),
    ensures
        (ReaderView { phase: p@, matroska: final(m)@ }) == spec_after_child_body(
            old(m)@,
            body_at,
            remaining,
            segment_start,
            id,
            size,
            header_len,
            reply@,
        ),
{
    if (reply.len() as u64) < size {
        return done_with(MatroskaError::UnexpectedEof);
    }
    let body = &reply[0..size as usize];
    proof {
        assert(body@ =~= reply@.take(size as int));
    }
    if id == SEEKHEAD {
        match Seektable::parse(body) {
            Ok(table) => {
                let targets = seek_targets(&table);
                next_target(m, targets, segment_start)
            },
            Err(e) => done_with(e),
        }
    } else {
        match apply_body(m, id, body) {
            Ok(()) => finish_child(
                m,
                sum(body_at, size),
                Ghost(body_at + size),
                sum(header_len, size),
                Ghost(header_len + size),
                remaining,
                segment_start,
            ),
            Err(e) => done_with(e),
        }
    }
}

fn after_target_header(m: &Matroska, targets: Vec<(u32, u64)>, segment_start: u64, at: u64, reply: &[u8]) -> (p: Phase)
    requires
        targets@.len() > 0,
    ensures
        (ReaderView { phase: p@, matroska: m@ }) == spec_after_target_header(
            m@,
            targets@,
            segment_start,
            at,
            reply@,
        ),
{
    match header_of(reply) {
        Err(e) => done_with(e),
        Ok((id, size, n)) => {
            let expected = targets[0].0;
            if id != expected {
                done_with(MatroskaError::UnexpectedElement { expected, found: id })
            } else {
                match sum(at, n as u64) {
                    Some(body_at) => Phase::TargetBody { targets, segment_start, body_at, size },
                    None => done_with(MatroskaError::PositionOverflow),
                }
            }
        },
    }
}

fn after_target_body(m: &mut Matroska, targets: Vec<(u32, u64)>, segment_start: u64, size: u64, reply: &[u8]) -> (p: Phase)
    requires
        targets@.len() > 0,
        targets@[0].0 == INFO || targets@[0].0 == TRACKS || targets@[0].0 == ATTACHMENTS || targets@[0].0 == CHAPTERS,
    ensures
        (ReaderView { phase: p@, matroska: final(m)@ }) == spec_after_target_body(
            old(m)@,
            targets@,
            segment_start,
            size,
            reply@,
        ),
{
    if (reply.len() as u64) < size {
        return done_with(MatroskaError::UnexpectedEof);
    }
    let body = &reply[0..size as usize];
    proof {
        assert(body@ =~= reply@.take(size as int));
    }
    let mut targets = targets;
    let ghost old_targets = targets@;
    let (id, _) = targets.remove(0);
    proof {
        assert(targets@ =~= old_targets.drop_first());
    }
    match apply_body(m, id, body) {
        Ok(()) => next_target(m, targets, segment_start),
        Err(e) => done_with(e),
    }
}


impl MatroskaReader {
    /// A reader at the start of a file, looking for its Segment, with nothing read yet.
    pub fn new() -> (r: MatroskaReader)
        ensures
            r@ == (ReaderView { phase: PhaseView::FindSegment { at: 0 }, matroska: empty_matroska() }),
            phase_wf(r@.phase),
    {
        MatroskaReader { phase: Phase::FindSegment { at: 0 }, matroska: Matroska::new() }
    }

    /// What the reader needs next.
    pub fn action(&self) -> (a: Action)
        ensures
            a == spec_action(self@.phase),
    {
        match &self.phase {
            Phase::FindSegment { at } => Action::Read { offset: *at, length: HEADER_LIMIT },
            Phase::ChildHeader { at, .. } => Action::Read { offset: *at, length: HEADER_LIMIT },
            Phase::ChildBody { body_at, size, .. } => Action::Read { offset: *body_at, length: *size },
            Phase::TargetHeader { at, .. } => Action::Read { offset: *at, length: HEADER_LIMIT },
            Phase::TargetBody { body_at, size, .. } => Action::Read { offset: *body_at, length: *size },
            Phase::Done { .. } => Action::Finish,
        }
    }

    /// Hands the reader the bytes it asked for: those of the file from the offset on, as
    /// many as it asked for or fewer where the file ends.
    pub fn feed(&mut self, reply: &[u8])
        ensures
            final(self)@ == spec_feed(old(self)@, reply@),
            phase_wf(final(self)@.phase),
    {
        proof {
            use_type_invariant(&*self);
            lemma_feed_wf(self@, reply@);
        }
        let mut phase = Phase::Done { error: None };
        std::mem::swap(&mut phase, &mut self.phase);
        let mut m = Matroska::new();
        std::mem::swap(&mut m, &mut self.matroska);
        let next = match phase {
            Phase::FindSegment { at } => after_top_header(&m, at, reply),
            Phase::ChildHeader { at, remaining, segment_start } => after_child_header(&m, at, remaining, segment_start, reply),
            Phase::ChildBody { body_at, remaining, segment_start, id, size, header_len } =>
                after_child_body(&mut m, body_at, remaining, segment_start, id, size, header_len, reply),
            Phase::TargetHeader { targets, segment_start, at } => after_target_header(&m, targets, segment_start, at, reply),
            Phase::TargetBody { targets, segment_start, body_at: _, size } => after_target_body(&mut m, targets, segment_start, size, reply),
            Phase::Done { error } => Phase::Done { error },
        };
        self.matroska = m;
        self.phase = next;
        proof {
            use_type_invariant(&*self);
        }
    }

    /// The file that the reader has read, or the error it stopped at. Only a reader that
    /// asks for nothing more has finished.
    pub fn finish(self) -> (res: Result<Matroska, MatroskaError>)
        requires
            self@.phase is Done,
        ensures
            match self@.phase {
                PhaseView::Done { error: Some(e) } => res == Err::<Matroska, MatroskaError>(e),
                _ => res matches Ok(m) && m@ == self@.matroska,
            },
    {
        match self.phase {
            Phase::Done { error: Some(e) } => Err(e),
            _ => Ok(self.matroska),
        }
    }
}

/// How far the reader is from finishing: every step it takes lowers this.
pub open spec fn progress_measure(phase: PhaseView) -> nat {
    match phase {
        PhaseView::Done { .. } => 0,
        PhaseView::TargetBody { targets, .. } => (2 * targets.len() - 1) as nat,
        PhaseView::TargetHeader { targets, .. } => 2 * targets.len(),
        PhaseView::ChildBody { remaining, .. } => (10 + 2 * remaining) as nat,
        PhaseView::ChildHeader { remaining, .. } => (11 + 2 * remaining) as nat,
        PhaseView::FindSegment { at } => (12 + 2 * u64::MAX + (u64::MAX - at)) as nat,
    }
}

/// The reader never goes round in circles: each reply either finishes it or brings it
/// closer to the end, so any file is read with finitely many requests.
pub proof fn lemma_feed_progress(r: ReaderView, reply: Seq<u8>)
    requires
        phase_wf(r.phase),
        !(r.phase is Done),
    ensures
        progress_measure(spec_feed(r, reply).phase) < progress_measure(r.phase),
{
    lemma_header_len(reply);
    match r.phase {
        PhaseView::ChildBody { .. } => {
            assert forall|table: Map<u32, u64>| #![trigger spec_seek_targets(table)]
                spec_seek_targets(table).len() <= 4 by {
            }
        },
        _ => {},
    }
}

/// A finished reader stays finished: it asks for nothing more, and whatever it is handed
/// changes nothing.
pub proof fn lemma_done_is_final(r: ReaderView, reply: Seq<u8>)
    requires
        r.phase is Done,
    ensures
        spec_feed(r, reply) == r,
        spec_action(r.phase) == Action::Finish,
{
}

/// The bytes of `file` that answer `action`: those from the offset on, as many as asked
/// for or as the file has.
pub open spec fn file_reply(file: Seq<u8>, action: Action) -> Seq<u8> {
    match action {
        Action::Read { offset, length } => if offset >= file.len() {
            Seq::empty()
        } else if offset + length >= file.len() {
            file.subrange(offset as int, file.len() as int)
        } else {
            file.subrange(offset as int, offset + length)
        },
        Action::Finish => Seq::empty(),
    }
}

/// The reader once it has been answered from `file` until it finished.
pub open spec fn spec_run(r: ReaderView, file: Seq<u8>) -> ReaderView
    decreases progress_measure(r.phase),
    when phase_wf(r.phase)
{
    if r.phase is Done {
        r
    } else {
        let reply = file_reply(file, spec_action(r.phase));
        proof {
            lemma_feed_progress(r, reply);
            lemma_feed_wf(r, reply);
        }
        spec_run(spec_feed(r, reply), file)
    }
}

/// What reading `file` from its start gives: the file's contents, or the error the
/// reader stopped at.
pub open spec fn spec_read_file(file: Seq<u8>) -> Result<MatroskaView, MatroskaError> {
    let r = spec_run(ReaderView { phase: PhaseView::FindSegment { at: 0 }, matroska: empty_matroska() }, file);
    match r.phase {
        PhaseView::Done { error: Some(e) } => Err(e),
        _ => Ok(r.matroska),
    }
}

proof fn lemma_run_done(r: ReaderView, file: Seq<u8>)
    requires
        phase_wf(r.phase),
    ensures
        spec_run(r, file).phase is Done,
        phase_wf(spec_run(r, file).phase),
    decreases progress_measure(r.phase),
{
    if !(r.phase is Done) {
        let reply = file_reply(file, spec_action(r.phase));
        lemma_feed_progress(r, reply);
        lemma_feed_wf(r, reply);
        lemma_run_done(spec_feed(r, reply), file);
    }
}

impl Matroska {
    /// Reads a Matroska file held in memory, answering the reader's requests from `data`.
    pub fn parse(data: &[u8]) -> (res: Result<Matroska, MatroskaError>)
        ensures
            match spec_read_file(data@) {
                Ok(m) => res matches Ok(x) && x@ == m,
                Err(e) => res == Err::<Matroska, MatroskaError>(e),
            },
    {
        let mut reader = MatroskaReader::new();
        let ghost start = reader@;
        loop
            invariant
                phase_wf(reader@.phase),
                spec_run(reader@, data@) == spec_run(start, data@),
                start == (ReaderView { phase: PhaseView::FindSegment { at: 0 }, matroska: empty_matroska() }),
            ensures
                reader@.phase is Done,
                spec_run(reader@, data@) == spec_run(start, data@),
            decreases progress_measure(reader@.phase),
        {
            match reader.action() {
                Action::Finish => {
                    break;
                },
                Action::Read { offset, length } => {
                    let len = data.len();
                    let reply = if offset >= len as u64 {
                        &data[0..0]
                    } else {
                        let begin = offset as usize;
                        if length >= (len - begin) as u64 {
                            &data[begin..len]
                        } else {
                            &data[begin..begin + length as usize]
                        }
                    };
                    proof {
                        assert(reply@ =~= file_reply(data@, spec_action(reader@.phase)));
                        lemma_feed_progress(reader@, reply@);
                    }
                    reader.feed(reply);
                },
            }
        }
        proof {
            lemma_run_done(start, data@);
        }
        reader.finish()
    }
}

} // verus!
