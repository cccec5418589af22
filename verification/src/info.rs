//! The Info segment: information about the whole file.
use vstd::prelude::*;
use crate::ebml::{models, lemma_models_take, Element, ElementModel, ElementType, FloatBits, MatroskaError, spec_parse_master};
use crate::fields::{lemma_other_id_ignored, lemma_last_by_id, with_id, is_last_with_id, has_no_id, lemma_last_value, lemma_no_value, last_uint, last_float, last_date, last_utf8, text_or_empty};
use crate::ids::{TITLE, TIMECODESCALE, DURATION, DATEUTC, MUXINGAPP, WRITINGAPP};
use crate::tracks::opt_text;

verus! {

/// A duration as Matroska stores it: a number of ticks, given as the bits of a
/// floating-point number, each tick lasting `timecode_scale` nanoseconds.
#[derive(Debug, Clone, Copy, PartialEq, Eq, Structural)]
pub struct ScaledDuration {
    /// The number of ticks
    pub ticks: FloatBits,
    /// The length of a tick in nanoseconds
    pub timecode_scale: u64,
}

/// An Info segment with information pertaining to the entire file
#[derive(Debug)]
pub struct Info {
    /// The file's title
    pub title: Option<String>,
    /// The file's duration
    pub duration: Option<ScaledDuration>,
    /// Production date, in nanoseconds since 2001-01-01T00:00:00 UTC
    pub date_utc: Option<i64>,
    /// The muxing application or library
    pub muxing_app: String,
    /// The writing application
    pub writing_app: String,
}

/// An Info segment, as a mathematical object.
pub struct InfoView {
    pub title: Option<Seq<char>>,
    pub duration: Option<ScaledDuration>,
    pub date_utc: Option<i64>,
    pub muxing_app: Seq<char>,
    pub writing_app: Seq<char>,
}

impl View for Info {
    type V = InfoView;

    open spec fn view(&self) -> InfoView {
        InfoView {
            title: opt_text(self.title),
            duration: self.duration,
            date_utc: self.date_utc,
            muxing_app: self.muxing_app@,
            writing_app: self.writing_app@,
        }
    }
}

/// The information that an Info element's children describe: the last Title and DateUTC,
/// the last MuxingApp and WritingApp (each empty when absent), and a duration when there
/// is both a Duration and a TimecodeScale, made of the last of each.
pub open spec fn spec_info(es: Seq<ElementModel>) -> InfoView {
    InfoView {
        title: last_utf8(es, TITLE),
        duration: match (last_float(es, DURATION), last_uint(es, TIMECODESCALE)) {
            (Some(d), Some(t)) => Some(ScaledDuration { ticks: d, timecode_scale: t }),
            _ => None,
        },
        date_utc: last_date(es, DATEUTC),
        muxing_app: text_or_empty(last_utf8(es, MUXINGAPP)),
        writing_app: text_or_empty(last_utf8(es, WRITINGAPP)),
    }
}

impl Info {
    /// Information with no title, duration or date, and empty application names.
    pub fn new() -> (info: Info)
        ensures
            info@ == spec_info(Seq::empty()),
    {
        Info {
            title: None,
            duration: None,
            date_utc: None,
            muxing_app: String::new(),
            writing_app: String::new(),
        }
    }

    /// Reads the information held in the body of an Info element.
    pub fn parse(data: &[u8]) -> (res: Result<Info, MatroskaError>)
        ensures
            match spec_parse_master(data@) {
                Ok(es) => res matches Ok(info) && info@ == spec_info(es),
                Err(e) => res == Err::<Info, MatroskaError>(e),
            },
    {
        let elements = match Element::parse_master(data) {
            Ok(elements) => elements,
            Err(e) => return Err(e),
        };
        let ghost es = elements@;
        let mut info = Info::new();
        let mut timecode_scale: Option<u64> = None;
        let mut duration: Option<FloatBits> = None;
        proof {
            assert(es.take(0) =~= Seq::<Element>::empty());
        }
        for e in it: elements
            invariant
                it.seq() == es,
                opt_text(info.title) == spec_info(models(es.take(it.index() as int))).title,
                info.date_utc == spec_info(models(es.take(it.index() as int))).date_utc,
                info.muxing_app@ == spec_info(models(es.take(it.index() as int))).muxing_app,
                info.writing_app@ == spec_info(models(es.take(it.index() as int))).writing_app,
                info.duration is None,
                timecode_scale == last_uint(models(es.take(it.index() as int)), TIMECODESCALE),
                duration == last_float(models(es.take(it.index() as int)), DURATION),
        {
            proof {
                lemma_models_take(es, it.index() as int);
            }
            let Element { id, size: _, val } = e;
            match val {
                ElementType::UTF8(s) => {
                    if id == TITLE {
                        info.title = Some(s);
                    } else if id == MUXINGAPP {
                        info.muxing_app = s;
                    } else if id == WRITINGAPP {
                        info.writing_app = s;
                    }
                },
                ElementType::UInt(v) => {
                    if id == TIMECODESCALE {
                        timecode_scale = Some(v);
                    }
                },
                ElementType::Float(f) => {
                    if id == DURATION {
                        duration = Some(f);
                    }
                },
                ElementType::Date(d) => {
                    if id == DATEUTC {
                        info.date_utc = Some(d);
                    }
                },
                _ => {},
            }
        }
        proof {
            assert(es.take(es.len() as int) =~= es);
        }
        if let Some(d) = duration {
            if let Some(t) = timecode_scale {
                info.duration = Some(ScaledDuration { ticks: d, timecode_scale: t });
            }
        }
        Ok(info)
    }
}

/// The file information is read from its Title, TimecodeScale, Duration, DateUTC,
/// MuxingApp and WritingApp children only: a child with any other ID leaves it unchanged.
pub proof fn lemma_info_reads_own_children(es: Seq<ElementModel>, e: ElementModel)
    requires
        e.id != TITLE,
        e.id != TIMECODESCALE,
        e.id != DURATION,
        e.id != DATEUTC,
        e.id != MUXINGAPP,
        e.id != WRITINGAPP,
    ensures
        spec_info(es.push(e)) == spec_info(es),
{
    lemma_other_id_ignored(es, e, TITLE);
    lemma_other_id_ignored(es, e, TIMECODESCALE);
    lemma_other_id_ignored(es, e, DURATION);
    lemma_other_id_ignored(es, e, DATEUTC);
    lemma_other_id_ignored(es, e, MUXINGAPP);
    lemma_other_id_ignored(es, e, WRITINGAPP);
}

/// The file information does not depend on how children of different IDs are interleaved:
/// two sequences of children that hold, for every ID, the same elements in the same order
/// (a TimecodeScale before or after the Duration, say) describe the same information.
pub proof fn lemma_info_ignores_interleaving(es1: Seq<ElementModel>, es2: Seq<ElementModel>)
    requires
        forall|id: u32| #[trigger] with_id(es1, id) == with_id(es2, id),
    ensures
        spec_info(es1) == spec_info(es2),
{
    assert(with_id(es1, TITLE) == with_id(es2, TITLE));
    lemma_last_by_id(es1, TITLE);
    lemma_last_by_id(es2, TITLE);
    assert(with_id(es1, TIMECODESCALE) == with_id(es2, TIMECODESCALE));
    lemma_last_by_id(es1, TIMECODESCALE);
    lemma_last_by_id(es2, TIMECODESCALE);
    assert(with_id(es1, DURATION) == with_id(es2, DURATION));
    lemma_last_by_id(es1, DURATION);
    lemma_last_by_id(es2, DURATION);
    assert(with_id(es1, DATEUTC) == with_id(es2, DATEUTC));
    lemma_last_by_id(es1, DATEUTC);
    lemma_last_by_id(es2, DATEUTC);
    assert(with_id(es1, MUXINGAPP) == with_id(es2, MUXINGAPP));
    lemma_last_by_id(es1, MUXINGAPP);
    lemma_last_by_id(es2, MUXINGAPP);
    assert(with_id(es1, WRITINGAPP) == with_id(es2, WRITINGAPP));
    lemma_last_by_id(es1, WRITINGAPP);
    lemma_last_by_id(es2, WRITINGAPP);
}

/// Each field of the file information is given by the last child with its ID: the title,
/// the date and the application names by the last Title, DateUTC, MuxingApp and
/// WritingApp, and the duration by the last Duration, a float of either width, with the
/// last TimecodeScale. A field whose ID no child has is absent (an application name is then
/// empty), and so is the duration when either of its two IDs is missing.
pub proof fn lemma_info_fields(es: Seq<ElementModel>)
    ensures
        forall|i: int| #[trigger] is_last_with_id(es, TITLE, i) && es[i].val is Utf8
            ==> spec_info(es).title == Some(es[i].val->Utf8_0),
        has_no_id(es, TITLE) ==> spec_info(es).title is None,
        forall|i: int, j: int|
            #[trigger] is_last_with_id(es, DURATION, i) && #[trigger] is_last_with_id(es, TIMECODESCALE, j)
                && es[i].val is Float && es[j].val is UInt ==> spec_info(es).duration == Some(
                ScaledDuration { ticks: es[i].val->Float_0, timecode_scale: es[j].val->UInt_0 },
            ),
        has_no_id(es, DURATION) || has_no_id(es, TIMECODESCALE) ==> spec_info(es).duration is None,
        forall|i: int| #[trigger] is_last_with_id(es, DATEUTC, i) && es[i].val is Date
            ==> spec_info(es).date_utc == Some(es[i].val->Date_0),
        has_no_id(es, DATEUTC) ==> spec_info(es).date_utc is None,
        forall|i: int| #[trigger] is_last_with_id(es, MUXINGAPP, i) && es[i].val is Utf8
            ==> spec_info(es).muxing_app == es[i].val->Utf8_0,
        has_no_id(es, MUXINGAPP) ==> spec_info(es).muxing_app.len() == 0,
        forall|i: int| #[trigger] is_last_with_id(es, WRITINGAPP, i) && es[i].val is Utf8
            ==> spec_info(es).writing_app == es[i].val->Utf8_0,
        has_no_id(es, WRITINGAPP) ==> spec_info(es).writing_app.len() == 0,
{
    assert forall|i: int| #[trigger] is_last_with_id(es, TITLE, i) && es[i].val is Utf8
        implies spec_info(es).title == Some(es[i].val->Utf8_0) by {
        lemma_last_value(es, TITLE, i);
    }
    assert forall|i: int, j: int|
        #[trigger] is_last_with_id(es, DURATION, i) && #[trigger] is_last_with_id(es, TIMECODESCALE, j)
            && es[i].val is Float && es[j].val is UInt implies spec_info(es).duration == Some(
            ScaledDuration { ticks: es[i].val->Float_0, timecode_scale: es[j].val->UInt_0 },
        ) by {
        lemma_last_value(es, DURATION, i);
        lemma_last_value(es, TIMECODESCALE, j);
    }
    assert forall|i: int| #[trigger] is_last_with_id(es, DATEUTC, i) && es[i].val is Date
        implies spec_info(es).date_utc == Some(es[i].val->Date_0) by {
        lemma_last_value(es, DATEUTC, i);
    }
    assert forall|i: int| #[trigger] is_last_with_id(es, MUXINGAPP, i) && es[i].val is Utf8
        implies spec_info(es).muxing_app == es[i].val->Utf8_0 by {
        lemma_last_value(es, MUXINGAPP, i);
    }
    assert forall|i: int| #[trigger] is_last_with_id(es, WRITINGAPP, i) && es[i].val is Utf8
        implies spec_info(es).writing_app == es[i].val->Utf8_0 by {
        lemma_last_value(es, WRITINGAPP, i);
    }
    if has_no_id(es, TITLE) {
        lemma_no_value(es, TITLE);
    }
    if has_no_id(es, DURATION) {
        lemma_no_value(es, DURATION);
    }
    if has_no_id(es, TIMECODESCALE) {
        lemma_no_value(es, TIMECODESCALE);
    }
    if has_no_id(es, DATEUTC) {
        lemma_no_value(es, DATEUTC);
    }
    if has_no_id(es, MUXINGAPP) {
        lemma_no_value(es, MUXINGAPP);
    }
    if has_no_id(es, WRITINGAPP) {
        lemma_no_value(es, WRITINGAPP);
    }
}

} // verus!
