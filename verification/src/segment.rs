//! A Matroska file, and its tracks by type.
use vstd::prelude::*;
use crate::info::{Info, InfoView, spec_info};
use crate::tracks::{Track, TrackView, Tracktype};
use crate::attachments::{Attachment, AttachmentView};
use crate::chapters::{ChapterEdition, ChapterEditionView};

verus! {

/// A Matroska file
#[derive(Debug)]
pub struct Matroska {
    /// The file's Info segment
    pub info: Info,
    /// The file's Tracks segment
    pub tracks: Vec<Track>,
    /// The file's Attachments segment
    pub attachments: Vec<Attachment>,
    /// The file's Chapters segment
    pub chapters: Vec<ChapterEdition>,
}

/// A Matroska file, as a mathematical object.
pub struct MatroskaView {
    pub info: InfoView,
    pub tracks: Seq<TrackView>,
    pub attachments: Seq<AttachmentView>,
    pub chapters: Seq<ChapterEditionView>,
}

impl View for Matroska {
    type V = MatroskaView;

    open spec fn view(&self) -> MatroskaView {
        MatroskaView {
            info: self.info@,
            tracks: self.tracks@.map_values(|t: Track| t@),
            attachments: self.attachments@.map_values(|a: Attachment| a@),
            chapters: self.chapters@.map_values(|c: ChapterEdition| c@),
        }
    }
}

/// A file with default information and no tracks, attachments or chapters.
pub open spec fn empty_matroska() -> MatroskaView {
    MatroskaView {
        info: spec_info(Seq::empty()),
        tracks: Seq::empty(),
        attachments: Seq::empty(),
        chapters: Seq::empty(),
    }
}

/// The tracks of the given type, in order.
pub open spec fn tracks_of_type(tracks: Seq<TrackView>, tracktype: Tracktype) -> Seq<TrackView> {
    tracks.filter(|t: TrackView| t.tracktype == tracktype)
}

impl Matroska {
    /// A file with default information and no tracks, attachments or chapters.
    pub fn new() -> (m: Matroska)
        ensures
            m@ == empty_matroska(),
    {
        let m = Matroska {
            info: Info::new(),
            tracks: Vec::new(),
            attachments: Vec::new(),
            chapters: Vec::new(),
        };
        proof {
            assert(m@.tracks =~= empty_matroska().tracks);
            assert(m@.attachments =~= empty_matroska().attachments);
            assert(m@.chapters =~= empty_matroska().chapters);
        }
        m
    }

    fn tracks_with_type(&self, tracktype: Tracktype) -> (res: Vec<&Track>)
        ensures
            res@.map_values(|t: &Track| t@) == tracks_of_type(self@.tracks, tracktype),
    {
        let mut res: Vec<&Track> = Vec::new();
        let mut i: usize = 0;
        let ghost views = self.tracks@.map_values(|t: Track| t@);
        let ghost pred = |t: TrackView| t.tracktype == tracktype;
        proof {
            assert(views.take(0) =~= Seq::<TrackView>::empty());
            reveal(Seq::filter);
            assert(res@.map_values(|t: &Track| t@) =~= views.take(0).filter(pred));
        }
        while i < self.tracks.len()
            invariant
                i <= self.tracks@.len(),
                views == self.tracks@.map_values(|t: Track| t@),
                pred == (|t: TrackView| t.tracktype == tracktype),
                res@.map_values(|t: &Track| t@) == views.take(i as int).filter(pred),
            decreases self.tracks@.len() - i,
        {
            let t = &self.tracks[i];
            let ghost old_res = res@;
            proof {
                assert(views.take(i + 1).drop_last() =~= views.take(i as int));
                assert(views.take(i + 1).last() == t@);
                assert(pred(t@) == (t@.tracktype == tracktype));
                reveal(Seq::filter);
                assert(views.take(i + 1).filter(pred) == (if pred(t@) {
                    views.take(i as int).filter(pred).push(t@)
                } else {
                    views.take(i as int).filter(pred)
                }));
            }
            if t.tracktype == tracktype {
                res.push(t);
                proof {
                    assert(res@.map_values(|t: &Track| t@) =~= old_res.map_values(|t: &Track| t@).push(t@));
                }
            }
            i += 1;
        }
        proof {
            assert(views.take(i as int) =~= views);
        }
        res
    }

    /// Returns all tracks with a type of "video"
    pub fn video_tracks(&self) -> (res: Vec<&Track>)
        ensures
            res@.map_values(|t: &Track| t@) == tracks_of_type(self@.tracks, Tracktype::Video),
    {
        self.tracks_with_type(Tracktype::Video)
    }

    /// Returns all tracks with a type of "audio"
    pub fn audio_tracks(&self) -> (res: Vec<&Track>)
        ensures
            res@.map_values(|t: &Track| t@) == tracks_of_type(self@.tracks, Tracktype::Audio),
    {
        self.tracks_with_type(Tracktype::Audio)
    }

    /// Returns all tracks with a type of "subtitle"
    pub fn subtitle_tracks(&self) -> (res: Vec<&Track>)
        ensures
            res@.map_values(|t: &Track| t@) == tracks_of_type(self@.tracks, Tracktype::Subtitle),
    {
        self.tracks_with_type(Tracktype::Subtitle)
    }
}

/// The video, audio and subtitle tracks of a file are different tracks: each list holds
/// only tracks of its type, every track of that type, in order, and the three together are
/// never more than all the tracks.
pub proof fn lemma_track_types_disjoint(tracks: Seq<TrackView>)
    ensures
        tracks_of_type(tracks, Tracktype::Video).len() + tracks_of_type(tracks, Tracktype::Audio).len()
            + tracks_of_type(tracks, Tracktype::Subtitle).len() <= tracks.len(),
        forall|tt: Tracktype, i: int|
            0 <= i < tracks_of_type(tracks, tt).len() ==> (#[trigger] tracks_of_type(tracks, tt)[i]).tracktype == tt,
        forall|tt: Tracktype, i: int|
            0 <= i < tracks.len() && tracks[i].tracktype == tt ==> #[trigger] tracks_of_type(tracks, tt).contains(
                tracks[i],
            ),
    decreases tracks.len(),
{
    reveal(Seq::filter);
    assert forall|tt: Tracktype, i: int|
        0 <= i < tracks_of_type(tracks, tt).len() implies (#[trigger] tracks_of_type(tracks, tt)[i]).tracktype == tt by {
        tracks.lemma_filter_pred(|t: TrackView| t.tracktype == tt, i);
    }
    assert forall|tt: Tracktype, i: int|
        0 <= i < tracks.len() && tracks[i].tracktype == tt implies #[trigger] tracks_of_type(tracks, tt).contains(
            tracks[i],
        ) by {
        tracks.lemma_filter_contains(|t: TrackView| t.tracktype == tt, i);
    }
    if tracks.len() > 0 {
        lemma_track_types_disjoint(tracks.drop_last());
    }
}

} // verus!
