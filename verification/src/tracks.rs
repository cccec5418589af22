//! Tracks: their entries, types, and audio or video settings.
use vstd::prelude::*;
use crate::ebml::{models, lemma_models_take, Element, ElementModel, ElementType, FloatBits, MatroskaError, spec_parse_master, ValueModel};
use crate::fields::{lemma_other_id_ignored, is_last_with_id, has_no_id, is_master_with_id, lemma_last_value, lemma_no_value, lemma_masters_push, lemma_masters_count, last_uint, last_float, last_utf8, last_string, masters, flag_or, uint_or_zero, text_or_empty};
use crate::ids::{PIXELWIDTH, PIXELHEIGHT, DISPLAYWIDTH, DISPLAYHEIGHT, SAMPLINGFREQUENCY, CHANNELS, BITDEPTH, TRACKENTRY, TRACKNUMBER, TRACKUID, TRACKTYPE, FLAGENABLED, FLAGDEFAULT, FLAGFORCED, FLAGLACING, DEFAULTDURATION, NAME, LANGUAGE, CODEC_ID, CODEC_NAME, VIDEO, AUDIO};

verus! {

/// The type of a given track
#[derive(Debug, Clone, Copy, PartialEq, Eq, Structural)]
pub enum Tracktype {
    /// A video track
    Video,
    /// An audio track
    Audio,
    /// A complex track
    Complex,
    /// A logo track
    Logo,
    /// A subtitle track
    Subtitle,
    /// A buttons track
    Buttons,
    /// A controls track
    Control,
    /// An unknown track type
    Unknown,
}

/// The track type that a TrackType code stands for.
pub open spec fn spec_tracktype(code: u64) -> Tracktype {
    if code == 0x01 {
        Tracktype::Video
    } else if code == 0x02 {
        Tracktype::Audio
    } else if code == 0x03 {
        Tracktype::Complex
    } else if code == 0x10 {
        Tracktype::Logo
    } else if code == 0x11 {
        Tracktype::Subtitle
    } else if code == 0x12 {
        Tracktype::Buttons
    } else if code == 0x20 {
        Tracktype::Control
    } else {
        Tracktype::Unknown
    }
}

impl Tracktype {
    /// The track type that a TrackType code stands for; codes without a type are unknown.
    pub fn new(tracktype: u64) -> (t: Tracktype)
        ensures
            t == spec_tracktype(tracktype),
    {
        match tracktype {
            0x01 => Tracktype::Video,
            0x02 => Tracktype::Audio,
            0x03 => Tracktype::Complex,
            0x10 => Tracktype::Logo,
            0x11 => Tracktype::Subtitle,
            0x12 => Tracktype::Buttons,
            0x20 => Tracktype::Control,
            _ => Tracktype::Unknown,
        }
    }
}

/// A video track's specifications
#[derive(Debug, Clone, Copy, PartialEq, Eq, Structural)]
pub struct Video {
    /// Width of encoded video frames in pixels
    pub pixel_width: u64,
    /// Height of encoded video frames in pixels
    pub pixel_height: u64,
    /// Width of video frames to display
    pub display_width: Option<u64>,
    /// Height of video frames to display
    pub display_height: Option<u64>,
}

/// The video settings that a Video element's children describe: the last of each of
/// PixelWidth and PixelHeight (zero when absent), DisplayWidth and DisplayHeight.
pub open spec fn spec_video(es: Seq<ElementModel>) -> Video {
    Video {
        pixel_width: uint_or_zero(last_uint(es, PIXELWIDTH)),
        pixel_height: uint_or_zero(last_uint(es, PIXELHEIGHT)),
        display_width: last_uint(es, DISPLAYWIDTH),
        display_height: last_uint(es, DISPLAYHEIGHT),
    }
}

impl Video {
    /// Video settings of zero pixels, without display sizes.
    pub fn new() -> (video: Video)
        ensures
            video == spec_video(Seq::empty()),
    {
        Video { pixel_width: 0, pixel_height: 0, display_width: None, display_height: None }
    }

    /// Builds video settings from the children of a Video element.
    pub fn build(elements: Vec<Element>) -> (video: Video)
        ensures
            video == spec_video(models(elements@)),
    {
        let ghost es = elements@;
        let mut video = Video::new();
        proof {
            assert(es.take(0) =~= Seq::<Element>::empty());
        }
        for e in it: elements
            invariant
                it.seq() == es,
                video == spec_video(models(es.take(it.index() as int))),
        {
            proof {
                lemma_models_take(es, it.index() as int);
            }
            let Element { id, size: _, val } = e;
            match val {
                ElementType::UInt(v) => {
                    if id == PIXELWIDTH {
                        video.pixel_width = v;
                    } else if id == PIXELHEIGHT {
                        video.pixel_height = v;
                    } else if id == DISPLAYWIDTH {
                        video.display_width = Some(v);
                    } else if id == DISPLAYHEIGHT {
                        video.display_height = Some(v);
                    }
                },
                _ => {},
            }
        }
        proof {
            assert(es.take(es.len() as int) =~= es);
        }
        video
    }
}

/// An audio track's specifications
#[derive(Debug, Clone, Copy, PartialEq, Eq, Structural)]
pub struct Audio {
    /// The sample rate in Hz, as the bits of a floating-point number
    pub sample_rate: FloatBits,
    /// The number of audio channels
    pub channels: u64,
    /// The bit depth of each sample
    pub bit_depth: Option<u64>,
}

/// The audio settings that an Audio element's children describe: the last
/// SamplingFrequency (0.0 when absent), the last Channels (zero when absent) and the last
/// BitDepth.
pub open spec fn spec_audio(es: Seq<ElementModel>) -> Audio {
    Audio {
        sample_rate: match last_float(es, SAMPLINGFREQUENCY) {
            Some(f) => f,
            None => FloatBits::Double(0),
        },
        channels: uint_or_zero(last_uint(es, CHANNELS)),
        bit_depth: last_uint(es, BITDEPTH),
    }
}

impl Audio {
    /// Audio settings of rate 0.0 and no channels, without bit depth.
    pub fn new() -> (audio: Audio)
        ensures
            audio == spec_audio(Seq::empty()),
    {
        Audio { sample_rate: FloatBits::Double(0), channels: 0, bit_depth: None }
    }

    /// Builds audio settings from the children of an Audio element.
    pub fn build(elements: Vec<Element>) -> (audio: Audio)
        ensures
            audio == spec_audio(models(elements@)),
    {
        let ghost es = elements@;
        let mut audio = Audio::new();
        proof {
            assert(es.take(0) =~= Seq::<Element>::empty());
        }
        for e in it: elements
            invariant
                it.seq() == es,
                audio == spec_audio(models(es.take(it.index() as int))),
        {
            proof {
                lemma_models_take(es, it.index() as int);
            }
            let Element { id, size: _, val } = e;
            match val {
                ElementType::Float(f) => {
                    if id == SAMPLINGFREQUENCY {
                        audio.sample_rate = f;
                    }
                },
                ElementType::UInt(v) => {
                    if id == CHANNELS {
                        audio.channels = v;
                    } else if id == BITDEPTH {
                        audio.bit_depth = Some(v);
                    }
                },
                _ => {},
            }
        }
        proof {
            assert(es.take(es.len() as int) =~= es);
        }
        audio
    }
}

/// The settings a track may have
#[derive(Debug, Clone, Copy, PartialEq, Eq, Structural)]
pub enum Settings {
    /// No settings (for non audio/video tracks)
    NoSettings,
    /// Video settings
    Video(Video),
    /// Audio settings
    Audio(Audio),
}

/// The settings that a TrackEntry element's children describe: those of the last Video or
/// Audio element, or none.
pub open spec fn spec_settings(es: Seq<ElementModel>) -> Settings
    decreases es.len(),
{
    if es.len() == 0 {
        Settings::NoSettings
    } else {
        match es.last().val {
            ValueModel::Master(c) if es.last().id == VIDEO => Settings::Video(spec_video(c)),
            ValueModel::Master(c) if es.last().id == AUDIO => Settings::Audio(spec_audio(c)),
            _ => spec_settings(es.drop_last()),
        }
    }
}

/// A TrackEntry segment in the Tracks segment container
#[derive(Debug)]
pub struct Track {
    /// The track number, starting from 1
    pub number: u64,
    /// The track's UID
    pub uid: u64,
    /// The track's type
    pub tracktype: Tracktype,
    /// If the track is usable
    pub enabled: bool,
    /// If the track should be active if no other preferences found
    pub default: bool,
    /// If the track *must* be active during playback
    pub forced: bool,
    /// If the track contains blocks using lacing
    pub interlaced: bool,
    /// Duration of each frame, in nanoseconds
    pub defaultduration: Option<i64>,
    /// A human-readable track name
    pub name: Option<String>,
    /// The track's language
    pub language: Option<String>,
    /// The track's codec's ID
    pub codec_id: String,
    /// The track's codec's human-readable name
    pub codec_name: Option<String>,
    /// The track's audio or video settings
    pub settings: Settings,
}

/// A track, as a mathematical object.
pub struct TrackView {
    pub number: u64,
    pub uid: u64,
    pub tracktype: Tracktype,
    pub enabled: bool,
    pub default: bool,
    pub forced: bool,
    pub interlaced: bool,
    pub defaultduration: Option<i64>,
    pub name: Option<Seq<char>>,
    pub language: Option<Seq<char>>,
    pub codec_id: Seq<char>,
    pub codec_name: Option<Seq<char>>,
    pub settings: Settings,
}

/// The text of an optional string.
pub open spec fn opt_text(s: Option<String>) -> Option<Seq<char>> {
    match s {
        Some(t) => Some(t@),
        None => None,
    }
}

impl View for Track {
    type V = TrackView;

    open spec fn view(&self) -> TrackView {
        TrackView {
            number: self.number,
            uid: self.uid,
            tracktype: self.tracktype,
            enabled: self.enabled,
            default: self.default,
            forced: self.forced,
            interlaced: self.interlaced,
            defaultduration: self.defaultduration,
            name: opt_text(self.name),
            language: opt_text(self.language),
            codec_id: self.codec_id@,
            codec_name: opt_text(self.codec_name),
            settings: self.settings,
        }
    }
}

/// The track that a TrackEntry element's children describe. Each field is given by the
/// last child with its ID: the number and UID are zero when absent, the type unknown, the
/// flags Enabled, Default and Lacing true and Forced false, the default duration is the
/// DefaultDuration as signed nanoseconds, the codec ID is empty, and the settings are
/// those of the last Video or Audio child.
pub open spec fn spec_track(es: Seq<ElementModel>) -> TrackView {
    TrackView {
        number: uint_or_zero(last_uint(es, TRACKNUMBER)),
        uid: uint_or_zero(last_uint(es, TRACKUID)),
        tracktype: match last_uint(es, TRACKTYPE) {
            Some(v) => spec_tracktype(v),
            None => Tracktype::Unknown,
        },
        enabled: flag_or(last_uint(es, FLAGENABLED), true),
        default: flag_or(last_uint(es, FLAGDEFAULT), true),
        forced: flag_or(last_uint(es, FLAGFORCED), false),
        interlaced: flag_or(last_uint(es, FLAGLACING), true),
        defaultduration: match last_uint(es, DEFAULTDURATION) {
            Some(v) => Some(v as i64),
            None => None,
        },
        name: last_utf8(es, NAME),
        language: last_string(es, LANGUAGE),
        codec_id: text_or_empty(last_string(es, CODEC_ID)),
        codec_name: last_utf8(es, CODEC_NAME),
        settings: spec_settings(es),
    }
}

/// The tracks that a Tracks element's children describe: one for each TrackEntry, in order.
pub open spec fn spec_tracks(es: Seq<ElementModel>) -> Seq<TrackView> {
    masters(es, TRACKENTRY).map_values(|c: Seq<ElementModel>| spec_track(c))
}

impl Track {
    /// A track of unknown type, enabled, default and laced, with nothing else set.
    pub fn new() -> (track: Track)
        ensures
            track@ == spec_track(Seq::empty()),
    {
        Track {
            number: 0,
            uid: 0,
            tracktype: Tracktype::Unknown,
            enabled: true,
            default: true,
            forced: false,
            interlaced: true,
            defaultduration: None,
            name: None,
            language: None,
            codec_id: String::new(),
            codec_name: None,
            settings: Settings::NoSettings,
        }
    }

    /// Reads the tracks held in the body of a Tracks element.
    pub fn parse(data: &[u8]) -> (res: Result<Vec<Track>, MatroskaError>)
        ensures
            match spec_parse_master(data@) {
                Ok(es) => res matches Ok(v) && v@.map_values(|t: Track| t@) == spec_tracks(es),
                Err(e) => res == Err::<Vec<Track>, MatroskaError>(e),
            },
    {
        let elements = match Element::parse_master(data) {
            Ok(elements) => elements,
            Err(e) => return Err(e),
        };
        let ghost es = elements@;
        let mut tracks: Vec<Track> = Vec::new();
        proof {
            assert(es.take(0) =~= Seq::<Element>::empty());
            assert(tracks@.map_values(|t: Track| t@) =~= spec_tracks(models(es.take(0))));
        }
        for e in it: elements
            invariant
                it.seq() == es,
                tracks@.map_values(|t: Track| t@) == spec_tracks(models(es.take(it.index() as int))),
        {
            proof {
                lemma_models_take(es, it.index() as int);
            }
            let ghost old_tracks = tracks@;
            let Element { id, size: _, val } = e;
            match val {
                ElementType::Master(sub) => {
                    if id == TRACKENTRY {
                        let track = Track::build_entry(sub);
                        tracks.push(track);
                        proof {
                            let ms = masters(models(es.take(it.index() as int)), TRACKENTRY);
                            let f = |c: Seq<ElementModel>| spec_track(c);
                            assert(ms.push(models(sub@)).map_values(f) =~= ms.map_values(f).push(
                                f(models(sub@)),
                            ));
                            assert(tracks@.map_values(|t: Track| t@) =~= old_tracks.map_values(
                                |t: Track| t@,
                            ).push(track@));
                        }
                    }
                },
                _ => {},
            }
        }
        proof {
            assert(es.take(es.len() as int) =~= es);
        }
        Ok(tracks)
    }

    /// Builds a track from the children of a TrackEntry element.
    pub fn build_entry(elements: Vec<Element>) -> (track: Track)
        ensures
            track@ == spec_track(models(elements@)),
    {
        let ghost es = elements@;
        let mut track = Track::new();
        proof {
            assert(es.take(0) =~= Seq::<Element>::empty());
        }
        for e in it: elements
            invariant
                it.seq() == es,
                track@ == spec_track(models(es.take(it.index() as int))),
        {
            proof {
                lemma_models_take(es, it.index() as int);
            }
            let Element { id, size: _, val } = e;
            match val {
                ElementType::UInt(v) => {
                    if id == TRACKNUMBER {
                        track.number = v;
                    } else if id == TRACKUID {
                        track.uid = v;
                    } else if id == TRACKTYPE {
                        track.tracktype = Tracktype::new(v);
                    } else if id == FLAGENABLED {
                        track.enabled = v != 0;
                    } else if id == FLAGDEFAULT {
                        track.default = v != 0;
                    } else if id == FLAGFORCED {
                        track.forced = v != 0;
                    } else if id == FLAGLACING {
                        track.interlaced = v != 0;
                    } else if id == DEFAULTDURATION {
                        track.defaultduration = Some(#[verifier::truncate] (v as i64));
                    }
                },
                ElementType::UTF8(s) => {
                    if id == NAME {
                        track.name = Some(s);
                    } else if id == CODEC_NAME {
                        track.codec_name = Some(s);
                    }
                },
                ElementType::String(s) => {
                    if id == LANGUAGE {
                        track.language = Some(s);
                    } else if id == CODEC_ID {
                        track.codec_id = s;
                    }
                },
                ElementType::Master(sub) => {
                    if id == VIDEO {
                        track.settings = Settings::Video(Video::build(sub));
                    } else if id == AUDIO {
                        track.settings = Settings::Audio(Audio::build(sub));
                    }
                },
                _ => {},
            }
        }
        proof {
            assert(es.take(es.len() as int) =~= es);
        }
        track
    }
}

/// Video settings are read from their pixel and display size children only: a child with
/// any other ID leaves them unchanged.
pub proof fn lemma_video_reads_own_children(es: Seq<ElementModel>, e: ElementModel)
    requires
        e.id != PIXELWIDTH,
        e.id != PIXELHEIGHT,
        e.id != DISPLAYWIDTH,
        e.id != DISPLAYHEIGHT,
    ensures
        spec_video(es.push(e)) == spec_video(es),
{
    lemma_other_id_ignored(es, e, PIXELWIDTH);
    lemma_other_id_ignored(es, e, PIXELHEIGHT);
    lemma_other_id_ignored(es, e, DISPLAYWIDTH);
    lemma_other_id_ignored(es, e, DISPLAYHEIGHT);
}

/// Audio settings are read from their SamplingFrequency, Channels and BitDepth children
/// only: a child with any other ID leaves them unchanged.
pub proof fn lemma_audio_reads_own_children(es: Seq<ElementModel>, e: ElementModel)
    requires
        e.id != SAMPLINGFREQUENCY,
        e.id != CHANNELS,
        e.id != BITDEPTH,
    ensures
        spec_audio(es.push(e)) == spec_audio(es),
{
    lemma_other_id_ignored(es, e, SAMPLINGFREQUENCY);
    lemma_other_id_ignored(es, e, CHANNELS);
    lemma_other_id_ignored(es, e, BITDEPTH);
}

/// A track is read from the children of its TrackEntry that carry its fields only: a child
/// with any other ID leaves it unchanged.
pub proof fn lemma_track_reads_own_children(es: Seq<ElementModel>, e: ElementModel)
    requires
        e.id != TRACKNUMBER,
        e.id != TRACKUID,
        e.id != TRACKTYPE,
        e.id != FLAGENABLED,
        e.id != FLAGDEFAULT,
        e.id != FLAGFORCED,
        e.id != FLAGLACING,
        e.id != DEFAULTDURATION,
        e.id != NAME,
        e.id != LANGUAGE,
        e.id != CODEC_ID,
        e.id != CODEC_NAME,
        e.id != VIDEO,
        e.id != AUDIO,
    ensures
        spec_track(es.push(e)) == spec_track(es),
{
    lemma_other_id_ignored(es, e, TRACKNUMBER);
    lemma_other_id_ignored(es, e, TRACKUID);
    lemma_other_id_ignored(es, e, TRACKTYPE);
    lemma_other_id_ignored(es, e, FLAGENABLED);
    lemma_other_id_ignored(es, e, FLAGDEFAULT);
    lemma_other_id_ignored(es, e, FLAGFORCED);
    lemma_other_id_ignored(es, e, FLAGLACING);
    lemma_other_id_ignored(es, e, DEFAULTDURATION);
    lemma_other_id_ignored(es, e, NAME);
    lemma_other_id_ignored(es, e, LANGUAGE);
    lemma_other_id_ignored(es, e, CODEC_ID);
    lemma_other_id_ignored(es, e, CODEC_NAME);
    lemma_other_id_ignored(es, e, VIDEO);
    lemma_other_id_ignored(es, e, AUDIO);
    assert(es.push(e).drop_last() =~= es);
}

/// The tracks of a Tracks element are read from its TrackEntry children only: a child with
/// any other ID leaves them unchanged.
pub proof fn lemma_tracks_read_own_children(es: Seq<ElementModel>, e: ElementModel)
    requires
        e.id != TRACKENTRY,
    ensures
        spec_tracks(es.push(e)) == spec_tracks(es),
{
    lemma_other_id_ignored(es, e, TRACKENTRY);
}

/// Video settings take each field from the last child with its ID: the pixel width and
/// height (zero when there is none), and the display width and height (absent when there is
/// none).
pub proof fn lemma_video_fields(es: Seq<ElementModel>)
    ensures
        forall|i: int| #[trigger] is_last_with_id(es, PIXELWIDTH, i) && es[i].val is UInt
            ==> spec_video(es).pixel_width == es[i].val->UInt_0,
        has_no_id(es, PIXELWIDTH) ==> spec_video(es).pixel_width == 0,
        forall|i: int| #[trigger] is_last_with_id(es, PIXELHEIGHT, i) && es[i].val is UInt
            ==> spec_video(es).pixel_height == es[i].val->UInt_0,
        has_no_id(es, PIXELHEIGHT) ==> spec_video(es).pixel_height == 0,
        forall|i: int| #[trigger] is_last_with_id(es, DISPLAYWIDTH, i) && es[i].val is UInt
            ==> spec_video(es).display_width == Some(es[i].val->UInt_0),
        has_no_id(es, DISPLAYWIDTH) ==> spec_video(es).display_width is None,
        forall|i: int| #[trigger] is_last_with_id(es, DISPLAYHEIGHT, i) && es[i].val is UInt
            ==> spec_video(es).display_height == Some(es[i].val->UInt_0),
        has_no_id(es, DISPLAYHEIGHT) ==> spec_video(es).display_height is None,
{
    assert forall|i: int| #[trigger] is_last_with_id(es, PIXELWIDTH, i) && es[i].val is UInt
        implies spec_video(es).pixel_width == es[i].val->UInt_0 by {
        lemma_last_value(es, PIXELWIDTH, i);
    }
    assert forall|i: int| #[trigger] is_last_with_id(es, PIXELHEIGHT, i) && es[i].val is UInt
        implies spec_video(es).pixel_height == es[i].val->UInt_0 by {
        lemma_last_value(es, PIXELHEIGHT, i);
    }
    assert forall|i: int| #[trigger] is_last_with_id(es, DISPLAYWIDTH, i) && es[i].val is UInt
        implies spec_video(es).display_width == Some(es[i].val->UInt_0) by {
        lemma_last_value(es, DISPLAYWIDTH, i);
    }
    assert forall|i: int| #[trigger] is_last_with_id(es, DISPLAYHEIGHT, i) && es[i].val is UInt
        implies spec_video(es).display_height == Some(es[i].val->UInt_0) by {
        lemma_last_value(es, DISPLAYHEIGHT, i);
    }
    if has_no_id(es, PIXELWIDTH) {
        lemma_no_value(es, PIXELWIDTH);
    }
    if has_no_id(es, PIXELHEIGHT) {
        lemma_no_value(es, PIXELHEIGHT);
    }
    if has_no_id(es, DISPLAYWIDTH) {
        lemma_no_value(es, DISPLAYWIDTH);
    }
    if has_no_id(es, DISPLAYHEIGHT) {
        lemma_no_value(es, DISPLAYHEIGHT);
    }
}

/// Audio settings take each field from the last child with its ID: the sampling
/// frequency, a float of either width (0.0 when there is none), the channels (zero when
/// there are none) and the bit depth (absent when there is none).
pub proof fn lemma_audio_fields(es: Seq<ElementModel>)
    ensures
        forall|i: int| #[trigger] is_last_with_id(es, SAMPLINGFREQUENCY, i) && es[i].val is Float
            ==> spec_audio(es).sample_rate == es[i].val->Float_0,
        has_no_id(es, SAMPLINGFREQUENCY) ==> spec_audio(es).sample_rate == FloatBits::Double(0),
        forall|i: int| #[trigger] is_last_with_id(es, CHANNELS, i) && es[i].val is UInt
            ==> spec_audio(es).channels == es[i].val->UInt_0,
        has_no_id(es, CHANNELS) ==> spec_audio(es).channels == 0,
        forall|i: int| #[trigger] is_last_with_id(es, BITDEPTH, i) && es[i].val is UInt
            ==> spec_audio(es).bit_depth == Some(es[i].val->UInt_0),
        has_no_id(es, BITDEPTH) ==> spec_audio(es).bit_depth is None,
{
    assert forall|i: int| #[trigger] is_last_with_id(es, SAMPLINGFREQUENCY, i) && es[i].val is Float
        implies spec_audio(es).sample_rate == es[i].val->Float_0 by {
        lemma_last_value(es, SAMPLINGFREQUENCY, i);
    }
    assert forall|i: int| #[trigger] is_last_with_id(es, CHANNELS, i) && es[i].val is UInt
        implies spec_audio(es).channels == es[i].val->UInt_0 by {
        lemma_last_value(es, CHANNELS, i);
    }
    assert forall|i: int| #[trigger] is_last_with_id(es, BITDEPTH, i) && es[i].val is UInt
        implies spec_audio(es).bit_depth == Some(es[i].val->UInt_0) by {
        lemma_last_value(es, BITDEPTH, i);
    }
    if has_no_id(es, SAMPLINGFREQUENCY) {
        lemma_no_value(es, SAMPLINGFREQUENCY);
    }
    if has_no_id(es, CHANNELS) {
        lemma_no_value(es, CHANNELS);
    }
    if has_no_id(es, BITDEPTH) {
        lemma_no_value(es, BITDEPTH);
    }
}

/// A child that carries track settings: a Video or an Audio element.
pub open spec fn is_settings_id(id: u32) -> bool {
    id == VIDEO || id == AUDIO
}

/// A track's settings are those of its last Video or Audio child, built from that child's
/// own children, and there are none when it has neither.
pub proof fn lemma_track_settings(es: Seq<ElementModel>, i: int)
    requires
        0 <= i < es.len(),
        is_settings_id(es[i].id),
        es[i].val is Master,
        forall|k: int| i < k < es.len() ==> !is_settings_id(#[trigger] es[k].id),
    ensures
        spec_settings(es) == if es[i].id == VIDEO {
            Settings::Video(spec_video(es[i].val->Master_0))
        } else {
            Settings::Audio(spec_audio(es[i].val->Master_0))
        },
    decreases es.len(),
{
    assert(es.last() == es[es.len() - 1]);
    if i < es.len() - 1 {
        let rest = es.drop_last();
        assert(!is_settings_id(es[es.len() - 1].id));
        assert forall|k: int| i < k < rest.len() implies !is_settings_id(#[trigger] rest[k].id) by {
            assert(rest[k] == es[k]);
        }
        lemma_track_settings(rest, i);
    }
}

/// A track without Video or Audio children has no settings.
pub proof fn lemma_track_no_settings(es: Seq<ElementModel>)
    requires
        forall|k: int| 0 <= k < es.len() ==> !is_settings_id(#[trigger] es[k].id),
    ensures
        spec_settings(es) == Settings::NoSettings,
    decreases es.len(),
{
    if es.len() > 0 {
        assert(es.last() == es[es.len() - 1]);
        assert(!is_settings_id(es[es.len() - 1].id));
        let rest = es.drop_last();
        assert forall|k: int| 0 <= k < rest.len() implies !is_settings_id(#[trigger] rest[k].id) by {
            assert(rest[k] == es[k]);
        }
        lemma_track_no_settings(rest);
    }
}

/// A track takes each field from the last child of its TrackEntry with that field's ID:
/// the number and UID (zero when there is none), the type its code stands for (unknown
/// when there is none), each flag true when its value is not zero (Enabled, Default and
/// Lacing true when there is none, Forced false), the default duration, the name, the
/// language and the codec name (absent when there is none), and the codec ID (empty when
/// there is none).
pub proof fn lemma_track_fields(es: Seq<ElementModel>)
    ensures
        forall|i: int| #[trigger] is_last_with_id(es, TRACKNUMBER, i) && es[i].val is UInt
            ==> spec_track(es).number == es[i].val->UInt_0,
        has_no_id(es, TRACKNUMBER) ==> spec_track(es).number == 0,
        forall|i: int| #[trigger] is_last_with_id(es, TRACKUID, i) && es[i].val is UInt
            ==> spec_track(es).uid == es[i].val->UInt_0,
        has_no_id(es, TRACKUID) ==> spec_track(es).uid == 0,
        forall|i: int| #[trigger] is_last_with_id(es, TRACKTYPE, i) && es[i].val is UInt
            ==> spec_track(es).tracktype == spec_tracktype(es[i].val->UInt_0),
        has_no_id(es, TRACKTYPE) ==> spec_track(es).tracktype == Tracktype::Unknown,
        forall|i: int| #[trigger] is_last_with_id(es, FLAGENABLED, i) && es[i].val is UInt
            ==> spec_track(es).enabled == (es[i].val->UInt_0 != 0),
        has_no_id(es, FLAGENABLED) ==> spec_track(es).enabled,
        forall|i: int| #[trigger] is_last_with_id(es, FLAGDEFAULT, i) && es[i].val is UInt
            ==> spec_track(es).default == (es[i].val->UInt_0 != 0),
        has_no_id(es, FLAGDEFAULT) ==> spec_track(es).default,
        forall|i: int| #[trigger] is_last_with_id(es, FLAGFORCED, i) && es[i].val is UInt
            ==> spec_track(es).forced == (es[i].val->UInt_0 != 0),
        has_no_id(es, FLAGFORCED) ==> !spec_track(es).forced,
        forall|i: int| #[trigger] is_last_with_id(es, FLAGLACING, i) && es[i].val is UInt
            ==> spec_track(es).interlaced == (es[i].val->UInt_0 != 0),
        has_no_id(es, FLAGLACING) ==> spec_track(es).interlaced,
        forall|i: int| #[trigger] is_last_with_id(es, DEFAULTDURATION, i) && es[i].val is UInt
            ==> spec_track(es).defaultduration == Some(es[i].val->UInt_0 as i64),
        has_no_id(es, DEFAULTDURATION) ==> spec_track(es).defaultduration is None,
        forall|i: int| #[trigger] is_last_with_id(es, NAME, i) && es[i].val is Utf8
            ==> spec_track(es).name == Some(es[i].val->Utf8_0),
        has_no_id(es, NAME) ==> spec_track(es).name is None,
        forall|i: int| #[trigger] is_last_with_id(es, LANGUAGE, i) && es[i].val is Str
            ==> spec_track(es).language == Some(es[i].val->Str_0),
        has_no_id(es, LANGUAGE) ==> spec_track(es).language is None,
        forall|i: int| #[trigger] is_last_with_id(es, CODEC_ID, i) && es[i].val is Str
            ==> spec_track(es).codec_id == es[i].val->Str_0,
        has_no_id(es, CODEC_ID) ==> spec_track(es).codec_id.len() == 0,
        forall|i: int| #[trigger] is_last_with_id(es, CODEC_NAME, i) && es[i].val is Utf8
            ==> spec_track(es).codec_name == Some(es[i].val->Utf8_0),
        has_no_id(es, CODEC_NAME) ==> spec_track(es).codec_name is None,
{
    assert forall|i: int| #[trigger] is_last_with_id(es, TRACKNUMBER, i) && es[i].val is UInt
        implies spec_track(es).number == es[i].val->UInt_0 by {
        lemma_last_value(es, TRACKNUMBER, i);
    }
    assert forall|i: int| #[trigger] is_last_with_id(es, TRACKUID, i) && es[i].val is UInt
        implies spec_track(es).uid == es[i].val->UInt_0 by {
        lemma_last_value(es, TRACKUID, i);
    }
    assert forall|i: int| #[trigger] is_last_with_id(es, TRACKTYPE, i) && es[i].val is UInt
        implies spec_track(es).tracktype == spec_tracktype(es[i].val->UInt_0) by {
        lemma_last_value(es, TRACKTYPE, i);
    }
    assert forall|i: int| #[trigger] is_last_with_id(es, FLAGENABLED, i) && es[i].val is UInt
        implies spec_track(es).enabled == (es[i].val->UInt_0 != 0) by {
        lemma_last_value(es, FLAGENABLED, i);
    }
    assert forall|i: int| #[trigger] is_last_with_id(es, FLAGDEFAULT, i) && es[i].val is UInt
        implies spec_track(es).default == (es[i].val->UInt_0 != 0) by {
        lemma_last_value(es, FLAGDEFAULT, i);
    }
    assert forall|i: int| #[trigger] is_last_with_id(es, FLAGFORCED, i) && es[i].val is UInt
        implies spec_track(es).forced == (es[i].val->UInt_0 != 0) by {
        lemma_last_value(es, FLAGFORCED, i);
    }
    assert forall|i: int| #[trigger] is_last_with_id(es, FLAGLACING, i) && es[i].val is UInt
        implies spec_track(es).interlaced == (es[i].val->UInt_0 != 0) by {
        lemma_last_value(es, FLAGLACING, i);
    }
    assert forall|i: int| #[trigger] is_last_with_id(es, DEFAULTDURATION, i) && es[i].val is UInt
        implies spec_track(es).defaultduration == Some(es[i].val->UInt_0 as i64) by {
        lemma_last_value(es, DEFAULTDURATION, i);
    }
    assert forall|i: int| #[trigger] is_last_with_id(es, NAME, i) && es[i].val is Utf8
        implies spec_track(es).name == Some(es[i].val->Utf8_0) by {
        lemma_last_value(es, NAME, i);
    }
    assert forall|i: int| #[trigger] is_last_with_id(es, LANGUAGE, i) && es[i].val is Str
        implies spec_track(es).language == Some(es[i].val->Str_0) by {
        lemma_last_value(es, LANGUAGE, i);
    }
    assert forall|i: int| #[trigger] is_last_with_id(es, CODEC_ID, i) && es[i].val is Str
        implies spec_track(es).codec_id == es[i].val->Str_0 by {
        lemma_last_value(es, CODEC_ID, i);
    }
    assert forall|i: int| #[trigger] is_last_with_id(es, CODEC_NAME, i) && es[i].val is Utf8
        implies spec_track(es).codec_name == Some(es[i].val->Utf8_0) by {
        lemma_last_value(es, CODEC_NAME, i);
    }
    if has_no_id(es, TRACKNUMBER) {
        lemma_no_value(es, TRACKNUMBER);
    }
    if has_no_id(es, TRACKUID) {
        lemma_no_value(es, TRACKUID);
    }
    if has_no_id(es, TRACKTYPE) {
        lemma_no_value(es, TRACKTYPE);
    }
    if has_no_id(es, FLAGENABLED) {
        lemma_no_value(es, FLAGENABLED);
    }
    if has_no_id(es, FLAGDEFAULT) {
        lemma_no_value(es, FLAGDEFAULT);
    }
    if has_no_id(es, FLAGFORCED) {
        lemma_no_value(es, FLAGFORCED);
    }
    if has_no_id(es, FLAGLACING) {
        lemma_no_value(es, FLAGLACING);
    }
    if has_no_id(es, DEFAULTDURATION) {
        lemma_no_value(es, DEFAULTDURATION);
    }
    if has_no_id(es, NAME) {
        lemma_no_value(es, NAME);
    }
    if has_no_id(es, LANGUAGE) {
        lemma_no_value(es, LANGUAGE);
    }
    if has_no_id(es, CODEC_ID) {
        lemma_no_value(es, CODEC_ID);
    }
    if has_no_id(es, CODEC_NAME) {
        lemma_no_value(es, CODEC_NAME);
    }
}

/// A Tracks element gives one track for each TrackEntry child, in order, built from that
/// entry's children: none for no children, one more for one more TrackEntry, and as many
/// as there are TrackEntry children.
pub proof fn lemma_tracks_entries(es: Seq<ElementModel>, e: ElementModel)
    ensures
        spec_tracks(Seq::empty()).len() == 0,
        spec_tracks(es.push(e)) == if is_master_with_id(e, TRACKENTRY) {
            spec_tracks(es).push(spec_track(e.val->Master_0))
        } else {
            spec_tracks(es)
        },
        spec_tracks(es).len() == es.filter(|x: ElementModel| is_master_with_id(x, TRACKENTRY)).len(),
{
    lemma_no_value(Seq::empty(), TRACKENTRY);
    lemma_masters_push(es, e, TRACKENTRY);
    lemma_masters_count(es, TRACKENTRY);
    let f = |c: Seq<ElementModel>| spec_track(c);
    if is_master_with_id(e, TRACKENTRY) {
        assert(masters(es, TRACKENTRY).push(e.val->Master_0).map_values(f) =~= masters(es, TRACKENTRY).map_values(f).push(
            f(e.val->Master_0),
        ));
    }
}

} // verus!
