//! What comes before the Segment: whole top-level elements that the reader steps over,
//! such as the EBML header.
use vstd::prelude::*;
use crate::ebml::{lemma_header_len, lemma_read_header_stable, spec_read_header};
use crate::ids::SEGMENT;
use crate::segment::{MatroskaView, empty_matroska};
use crate::reader::{
    Action, HEADER_LIMIT, PhaseView, ReaderView, file_reply, lemma_feed_progress, lemma_feed_wf,
    phase_wf, progress_measure, spec_action, spec_feed, spec_read_file, spec_run,
};

verus! {

/// `p` is a run of whole top-level elements none of which is a Segment: each header
/// reads, and each element ends within `p`.
pub open spec fn leading_elements(p: Seq<u8>) -> bool
    decreases p.len(),
{
    if p.len() == 0 {
        true
    } else {
        match spec_read_header(p) {
            Err(_) => false,
            Ok((id, size, n)) => {
                proof {
                    lemma_header_len(p);
                }
                id != SEGMENT && n + size <= p.len() && leading_elements(p.skip(n + size))
            },
        }
    }
}

/// The reader on a file stands where the reader on the same file behind `d` more bytes
/// stands: every position `d` further on, all else alike.
spec fn phases_shifted(pa: PhaseView, pb: PhaseView, d: int) -> bool {
    match pa {
        PhaseView::FindSegment { at } => pb matches PhaseView::FindSegment { at: bt } && bt == at + d,
        PhaseView::ChildHeader { at, remaining, segment_start } => pb matches PhaseView::ChildHeader {
            at: bt,
            remaining: br,
            segment_start: bs,
        } && bt == at + d && br == remaining && bs == segment_start + d,
        PhaseView::ChildBody { body_at, remaining, segment_start, id, size, header_len } =>
            pb matches PhaseView::ChildBody {
            body_at: bb,
            remaining: br,
            segment_start: bs,
            id: bi,
            size: bz,
            header_len: bh,
        } && bb == body_at + d && br == remaining && bs == segment_start + d && bi == id && bz == size
            && bh == header_len,
        PhaseView::TargetHeader { targets, segment_start, at } => pb matches PhaseView::TargetHeader {
            targets: bts,
            segment_start: bs,
            at: bt,
        } && bts == targets && bs == segment_start + d && bt == at + d,
        PhaseView::TargetBody { targets, segment_start, body_at, size } =>
            pb matches PhaseView::TargetBody { targets: bts, segment_start: bs, body_at: bb, size: bz }
            && bts == targets && bs == segment_start + d && bb == body_at + d && bz == size,
        PhaseView::Done { error } => pb == (PhaseView::Done { error }),
    }
}

/// The reader is about to read a header at or past the end of a file of `len` bytes.
spec fn header_beyond(p: PhaseView, len: int) -> bool {
    match p {
        PhaseView::FindSegment { at } => at >= len,
        PhaseView::ChildHeader { at, .. } => at >= len,
        PhaseView::TargetHeader { at, .. } => at >= len,
        _ => false,
    }
}

/// The reader `a` on a file of `len` bytes and the reader `b` on that file behind `d`
/// more bytes: `b` has failed where `a` has failed or is about to, or the two stand alike.
spec fn shifted(a: ReaderView, b: ReaderView, d: int, len: int) -> bool {
    ||| (b.phase matches PhaseView::Done { error: Some(_) }) && ((a.phase matches PhaseView::Done {
        error: Some(_),
    }) || header_beyond(a.phase, len))
    ||| a.matroska == b.matroska && phases_shifted(a.phase, b.phase, d)
}

/// Both readers finished alike: with the same contents, or both with an error.
spec fn outcomes_agree(ra: ReaderView, rb: ReaderView) -> bool {
    ||| ra.phase == (PhaseView::Done { error: None }) && rb.phase == (PhaseView::Done { error: None })
        && ra.matroska == rb.matroska
    ||| (ra.phase matches PhaseView::Done { error: Some(_) }) && (rb.phase matches PhaseView::Done {
        error: Some(_),
    })
}

/// What a read returns is no longer than asked for, and lies within the file.
proof fn lemma_reply_bounds(file: Seq<u8>, offset: u64, length: u64)
    ensures
        file_reply(file, Action::Read { offset, length }).len() <= length,
        file_reply(file, Action::Read { offset, length }).len() > 0 ==> offset + file_reply(
            file,
            Action::Read { offset, length },
        ).len() <= file.len(),
        offset >= file.len() ==> file_reply(file, Action::Read { offset, length }).len() == 0,
{
}

/// A read behind `prefix`, `prefix.len()` bytes further on, returns the same bytes.
proof fn lemma_reply_shift(prefix: Seq<u8>, file: Seq<u8>, offset: u64, shifted_offset: u64, length: u64)
    requires
        shifted_offset == offset + prefix.len(),
    ensures
        file_reply(prefix + file, Action::Read { offset: shifted_offset, length }) == file_reply(
            file,
            Action::Read { offset, length },
        ),
{
    let whole = prefix + file;
    if offset < file.len() {
        if offset + length >= file.len() {
            assert(whole.subrange(shifted_offset as int, whole.len() as int) =~= file.subrange(
                offset as int,
                file.len() as int,
            ));
        } else {
            assert(whole.subrange(shifted_offset as int, shifted_offset + length) =~= file.subrange(
                offset as int,
                offset + length,
            ));
        }
    }
}

/// One step of both readers: they are handed the same bytes, and stay alike.
#[verifier::spinoff_prover]
proof fn lemma_feed_shifted(a: ReaderView, b: ReaderView, prefix: Seq<u8>, file: Seq<u8>)
    requires
        phase_wf(a.phase),
        !(a.phase is Done),
        a.matroska == b.matroska,
        phases_shifted(a.phase, b.phase, prefix.len() as int),
        prefix.len() + file.len() <= u64::MAX,
    ensures
        file_reply(prefix + file, spec_action(b.phase)) == file_reply(file, spec_action(a.phase)),
        shifted(
            spec_feed(a, file_reply(file, spec_action(a.phase))),
            spec_feed(b, file_reply(file, spec_action(a.phase))),
            prefix.len() as int,
            file.len() as int,
        ),
{
    let reply = file_reply(file, spec_action(a.phase));
    lemma_header_len(reply);
    match (spec_action(a.phase), spec_action(b.phase)) {
        (Action::Read { offset, length }, Action::Read { offset: bo, .. }) => {
            lemma_reply_shift(prefix, file, offset, bo, length);
            lemma_reply_bounds(file, offset, length);
        },
        _ => {},
    }
}

/// Both readers, run to the end on their files, finish alike.
#[verifier::spinoff_prover]
proof fn lemma_run_shifted(a: ReaderView, b: ReaderView, prefix: Seq<u8>, file: Seq<u8>)
    requires
        phase_wf(a.phase),
        phase_wf(b.phase),
        shifted(a, b, prefix.len() as int, file.len() as int),
        prefix.len() + file.len() <= u64::MAX,
    ensures
        outcomes_agree(spec_run(a, file), spec_run(b, prefix + file)),
    decreases progress_measure(a.phase),
{
    let whole = prefix + file;
    if a.phase is Done {
    } else if b.phase is Done {
        let reply = file_reply(file, spec_action(a.phase));
        match spec_action(a.phase) {
            Action::Read { offset, length } => lemma_reply_bounds(file, offset, length),
            _ => {},
        }
        let next = spec_feed(a, reply);
        assert(next.phase matches PhaseView::Done { error: Some(_) });
        assert(spec_run(a, file) == spec_run(next, file));
    } else {
        let reply = file_reply(file, spec_action(a.phase));
        lemma_feed_shifted(a, b, prefix, file);
        lemma_feed_progress(a, reply);
        lemma_feed_wf(a, reply);
        lemma_feed_wf(b, reply);
        lemma_run_shifted(spec_feed(a, reply), spec_feed(b, reply), prefix, file);
        assert(spec_run(a, file) == spec_run(spec_feed(a, reply), file));
        assert(spec_run(b, whole) == spec_run(spec_feed(b, reply), whole));
    }
}

/// The bytes that the reader at `k` in `whole` is handed for a header: they begin with
/// those of `p`, as far as the first header of `p` goes, so it reads that header.
proof fn lemma_leading_header(p: Seq<u8>, whole: Seq<u8>, k: int)
    requires
        spec_read_header(p) is Ok,
        0 <= k,
        k + p.len() <= whole.len(),
        whole.len() <= u64::MAX,
        whole.subrange(k, k + p.len()) == p,
    ensures
        spec_read_header(
            file_reply(whole, Action::Read { offset: k as u64, length: HEADER_LIMIT }),
        ) == spec_read_header(p),
{
    let reply = file_reply(whole, Action::Read { offset: k as u64, length: HEADER_LIMIT });
    lemma_header_len(p);
    let n = spec_read_header(p)->Ok_0.2 as int;
    assert(reply.len() >= n);
    assert forall|i: int| 0 <= i < n implies reply[i] == p[i] by {
        assert(whole.subrange(k, k + p.len())[i] == whole[k + i]);
    }
    assert(reply.take(n) =~= p.take(n));
    lemma_read_header_stable(p, reply);
}

/// The reader at `k` in `whole`, where the bytes `p` of whole elements start, steps over
/// all of them to the end of `p`.
#[verifier::spinoff_prover]
proof fn lemma_skip_leading(p: Seq<u8>, whole: Seq<u8>, k: int, m: MatroskaView)
    requires
        leading_elements(p),
        0 <= k,
        k + p.len() <= whole.len(),
        whole.len() <= u64::MAX,
        whole.subrange(k, k + p.len()) == p,
    ensures
        spec_run(ReaderView { phase: PhaseView::FindSegment { at: k as u64 }, matroska: m }, whole)
            == spec_run(
            ReaderView { phase: PhaseView::FindSegment { at: (k + p.len()) as u64 }, matroska: m },
            whole,
        ),
    decreases p.len(),
{
    if p.len() > 0 {
        let r = ReaderView { phase: PhaseView::FindSegment { at: k as u64 }, matroska: m };
        let reply = file_reply(whole, spec_action(r.phase));
        lemma_header_len(p);
        let (id, size, n) = spec_read_header(p)->Ok_0;
        lemma_leading_header(p, whole, k);
        let rest = p.skip(n + size);
        let next = k + n + size;
        let after = ReaderView { phase: PhaseView::FindSegment { at: next as u64 }, matroska: m };
        assert(spec_feed(r, reply) == after);
        assert(whole.subrange(next, next + rest.len()) =~= rest);
        lemma_skip_leading(rest, whole, next, m);
        assert(spec_run(r, whole) == spec_run(after, whole));
    }
}

/// Reading a file behind whole top-level elements that are not a Segment (such as the
/// EBML header) gives what reading the file alone gives: the same contents, or an error
/// both times. Positions in the file count from the Segment, so the bytes before it
/// change nothing.
pub proof fn lemma_leading_elements_skipped(prefix: Seq<u8>, file: Seq<u8>)
    requires
        leading_elements(prefix),
        prefix.len() + file.len() <= u64::MAX,
    ensures
        match (spec_read_file(prefix + file), spec_read_file(file)) {
            (Ok(x), Ok(y)) => x == y,
            (Err(_), Err(_)) => true,
            _ => false,
        },
{
    let whole = prefix + file;
    let d = prefix.len() as int;
    assert(whole.subrange(0, d) =~= prefix);
    lemma_skip_leading(prefix, whole, 0, empty_matroska());
    let a = ReaderView { phase: PhaseView::FindSegment { at: 0 }, matroska: empty_matroska() };
    let b = ReaderView { phase: PhaseView::FindSegment { at: d as u64 }, matroska: empty_matroska() };
    lemma_run_shifted(a, b, prefix, file);
}

} // verus!
