//! Chapters: editions, chapter points and their display strings.
use vstd::prelude::*;
use crate::ebml::{models, lemma_models_take, Element, ElementModel, ElementType, MatroskaError, spec_parse_master};
use crate::fields::{lemma_other_id_ignored, is_last_with_id, has_no_id, is_master_with_id, lemma_last_value, lemma_no_value, lemma_masters_push, lemma_masters_count, last_uint, last_utf8, last_string, masters, flag_or, text_or_empty};
use crate::ids::{CHAPSTRING, CHAPLANGUAGE, CHAPTERTIMESTART, CHAPTERTIMEEND, CHAPTERFLAGHIDDEN, CHAPTERFLAGENABLED, CHAPTERDISPLAY, EDITIONFLAGHIDDEN, EDITIONFLAGDEFAULT, EDITIONFLAGORDERED, CHAPTERATOM, EDITIONENTRY};

verus! {

/// The display string for a chapter point entry
#[derive(Debug)]
pub struct ChapterDisplay {
    /// The user interface string
    pub string: String,
    /// The string's language
    pub language: String,
}

/// A chapter display string, as a mathematical object.
pub struct ChapterDisplayView {
    pub string: Seq<char>,
    pub language: Seq<char>,
}

impl View for ChapterDisplay {
    type V = ChapterDisplayView;

    open spec fn view(&self) -> ChapterDisplayView {
        ChapterDisplayView { string: self.string@, language: self.language@ }
    }
}

/// The display string that a ChapterDisplay element's children describe: the last
/// ChapString and the last ChapLanguage, each empty when absent.
pub open spec fn spec_chapter_display(es: Seq<ElementModel>) -> ChapterDisplayView {
    ChapterDisplayView {
        string: text_or_empty(last_utf8(es, CHAPSTRING)),
        language: text_or_empty(last_string(es, CHAPLANGUAGE)),
    }
}

impl ChapterDisplay {
    /// An empty display string in no language.
    pub fn new() -> (display: ChapterDisplay)
        ensures
            display@ == spec_chapter_display(Seq::empty()),
    {
        ChapterDisplay { string: String::new(), language: String::new() }
    }

    /// Builds a display string from the children of a ChapterDisplay element.
    pub fn build(elements: Vec<Element>) -> (display: ChapterDisplay)
        ensures
            display@ == spec_chapter_display(models(elements@)),
    {
        let ghost es = elements@;
        let mut display = ChapterDisplay::new();
        proof {
            assert(es.take(0) =~= Seq::<Element>::empty());
        }
        for e in it: elements
            invariant
                it.seq() == es,
                display@ == spec_chapter_display(models(es.take(it.index() as int))),
        {
            proof {
                lemma_models_take(es, it.index() as int);
            }
            let Element { id, size: _, val } = e;
            match val {
                ElementType::UTF8(s) => {
                    if id == CHAPSTRING {
                        display.string = s;
                    }
                },
                ElementType::String(s) => {
                    if id == CHAPLANGUAGE {
                        display.language = s;
                    }
                },
                _ => {},
            }
        }
        proof {
            assert(es.take(es.len() as int) =~= es);
        }
        display
    }
}

/// An individual chapter point
#[derive(Debug)]
pub struct Chapter {
    /// Timestamp of the start of the chapter, in nanoseconds
    pub time_start: i64,
    /// Timestamp of the end of the chapter, in nanoseconds
    pub time_end: Option<i64>,
    /// Whether the chapter point should be hidden in the user interface
    pub hidden: bool,
    /// Whether the chapter point should be enabled in the user interface
    pub enabled: bool,
    /// Contains all strings to use for displaying chapter
    pub display: Vec<ChapterDisplay>,
}

/// A chapter point, as a mathematical object.
pub struct ChapterView {
    pub time_start: i64,
    pub time_end: Option<i64>,
    pub hidden: bool,
    pub enabled: bool,
    pub display: Seq<ChapterDisplayView>,
}

impl View for Chapter {
    type V = ChapterView;

    open spec fn view(&self) -> ChapterView {
        ChapterView {
            time_start: self.time_start,
            time_end: self.time_end,
            hidden: self.hidden,
            enabled: self.enabled,
            display: self.display@.map_values(|d: ChapterDisplay| d@),
        }
    }
}

/// The chapter point that a ChapterAtom element's children describe. The times are the
/// last ChapterTimeStart and ChapterTimeEnd as signed nanoseconds (the start is zero when
/// absent), the flags the last ChapterFlagHidden and ChapterFlagEnabled (false when absent),
/// and the display strings those of every ChapterDisplay, in order.
pub open spec fn spec_chapter(es: Seq<ElementModel>) -> ChapterView {
    ChapterView {
        time_start: match last_uint(es, CHAPTERTIMESTART) {
            Some(v) => v as i64,
            None => 0,
        },
        time_end: match last_uint(es, CHAPTERTIMEEND) {
            Some(v) => Some(v as i64),
            None => None,
        },
        hidden: flag_or(last_uint(es, CHAPTERFLAGHIDDEN), false),
        enabled: flag_or(last_uint(es, CHAPTERFLAGENABLED), false),
        display: masters(es, CHAPTERDISPLAY).map_values(|c: Seq<ElementModel>| spec_chapter_display(c)),
    }
}

impl Chapter {
    /// A chapter point at time zero, without end, display strings or flags.
    pub fn new() -> (chapter: Chapter)
        ensures
            chapter@ == spec_chapter(Seq::empty()),
    {
        let chapter = Chapter {
            time_start: 0,
            time_end: None,
            hidden: false,
            enabled: false,
            display: Vec::new(),
        };
        proof {
            assert(chapter@.display =~= spec_chapter(Seq::empty()).display);
        }
        chapter
    }

    /// Builds a chapter point from the children of a ChapterAtom element.
    pub fn build(elements: Vec<Element>) -> (chapter: Chapter)
        ensures
            chapter@ == spec_chapter(models(elements@)),
    {
        let ghost es = elements@;
        let mut chapter = Chapter::new();
        proof {
            assert(es.take(0) =~= Seq::<Element>::empty());
        }
        for e in it: elements
            invariant
                it.seq() == es,
                chapter@ == spec_chapter(models(es.take(it.index() as int))),
        {
            proof {
                lemma_models_take(es, it.index() as int);
            }
            let ghost old_display = chapter.display@;
            let Element { id, size: _, val } = e;
            match val {
                ElementType::UInt(v) => {
                    if id == CHAPTERTIMESTART {
                        chapter.time_start = #[verifier::truncate] (v as i64);
                    } else if id == CHAPTERTIMEEND {
                        chapter.time_end = Some(#[verifier::truncate] (v as i64));
                    } else if id == CHAPTERFLAGHIDDEN {
                        chapter.hidden = v != 0;
                    } else if id == CHAPTERFLAGENABLED {
                        chapter.enabled = v != 0;
                    }
                },
                ElementType::Master(sub) => {
                    if id == CHAPTERDISPLAY {
                        let d = ChapterDisplay::build(sub);
                        chapter.display.push(d);
                        proof {
                            let ms = masters(models(es.take(it.index() as int)), CHAPTERDISPLAY);
                            let f = |c: Seq<ElementModel>| spec_chapter_display(c);
                            assert(ms.push(models(sub@)).map_values(f) =~= ms.map_values(f).push(
                                f(models(sub@)),
                            ));
                            assert(chapter.display@.map_values(|d: ChapterDisplay| d@) =~= old_display.map_values(
                                |d: ChapterDisplay| d@,
                            ).push(d@));
                        }
                    }
                },
                _ => {},
            }
        }
        proof {
            assert(es.take(es.len() as int) =~= es);
        }
        chapter
    }
}

/// A complete set of chapters
#[derive(Debug)]
pub struct ChapterEdition {
    /// Whether the chapters should be hidden in the user interface
    pub hidden: bool,
    /// Whether the chapters should be the default
    pub default: bool,
    /// Whether the order to play chapters is enforced
    pub ordered: bool,
    /// The individual chapter entries
    pub chapters: Vec<Chapter>,
}

/// A chapter edition, as a mathematical object.
pub struct ChapterEditionView {
    pub hidden: bool,
    pub default: bool,
    pub ordered: bool,
    pub chapters: Seq<ChapterView>,
}

impl View for ChapterEdition {
    type V = ChapterEditionView;

    open spec fn view(&self) -> ChapterEditionView {
        ChapterEditionView {
            hidden: self.hidden,
            default: self.default,
            ordered: self.ordered,
            chapters: self.chapters@.map_values(|c: Chapter| c@),
        }
    }
}

/// The edition that an EditionEntry element's children describe: the last of each
/// EditionFlag element (false when absent) and the chapter points of every ChapterAtom,
/// in order.
pub open spec fn spec_chapter_edition(es: Seq<ElementModel>) -> ChapterEditionView {
    ChapterEditionView {
        hidden: flag_or(last_uint(es, EDITIONFLAGHIDDEN), false),
        default: flag_or(last_uint(es, EDITIONFLAGDEFAULT), false),
        ordered: flag_or(last_uint(es, EDITIONFLAGORDERED), false),
        chapters: masters(es, CHAPTERATOM).map_values(|c: Seq<ElementModel>| spec_chapter(c)),
    }
}

/// The editions that a Chapters element's children describe: one for each EditionEntry,
/// in order.
pub open spec fn spec_chapter_editions(es: Seq<ElementModel>) -> Seq<ChapterEditionView> {
    masters(es, EDITIONENTRY).map_values(|c: Seq<ElementModel>| spec_chapter_edition(c))
}

impl ChapterEdition {
    /// An edition without flags or chapters.
    pub fn new() -> (edition: ChapterEdition)
        ensures
            edition@ == spec_chapter_edition(Seq::empty()),
    {
        let edition = ChapterEdition { hidden: false, default: false, ordered: false, chapters: Vec::new() };
        proof {
            assert(edition@.chapters =~= spec_chapter_edition(Seq::empty()).chapters);
        }
        edition
    }

    /// Reads the editions held in the body of a Chapters element.
    pub fn parse(data: &[u8]) -> (res: Result<Vec<ChapterEdition>, MatroskaError>)
        ensures
            match spec_parse_master(data@) {
                Ok(es) => res matches Ok(v) && v@.map_values(|c: ChapterEdition| c@) == spec_chapter_editions(es),
                Err(e) => res == Err::<Vec<ChapterEdition>, MatroskaError>(e),
            },
    {
        let elements = match Element::parse_master(data) {
            Ok(elements) => elements,
            Err(e) => return Err(e),
        };
        let ghost es = elements@;
        let mut editions: Vec<ChapterEdition> = Vec::new();
        proof {
            assert(es.take(0) =~= Seq::<Element>::empty());
            assert(editions@.map_values(|c: ChapterEdition| c@) =~= spec_chapter_editions(models(es.take(0))));
        }
        for e in it: elements
            invariant
                it.seq() == es,
                editions@.map_values(|c: ChapterEdition| c@) == spec_chapter_editions(models(es.take(it.index() as int))),
        {
            proof {
                lemma_models_take(es, it.index() as int);
            }
            let ghost old_editions = editions@;
            let Element { id, size: _, val } = e;
            match val {
                ElementType::Master(sub) => {
                    if id == EDITIONENTRY {
                        let edition = ChapterEdition::build_entry(sub);
                        editions.push(edition);
                        proof {
                            assert(editions@.map_values(|c: ChapterEdition| c@) =~= old_editions.map_values(
                                |c: ChapterEdition| c@,
                            ).push(edition@));
                        }
                    }
                },
                _ => {},
            }
        }
        proof {
            assert(es.take(es.len() as int) =~= es);
        }
        Ok(editions)
    }

    /// Builds an edition from the children of an EditionEntry element.
    pub fn build_entry(elements: Vec<Element>) -> (edition: ChapterEdition)
        ensures
            edition@ == spec_chapter_edition(models(elements@)),
    {
        let ghost es = elements@;
        let mut edition = ChapterEdition::new();
        proof {
            assert(es.take(0) =~= Seq::<Element>::empty());
        }
        for e in it: elements
            invariant
                it.seq() == es,
                edition@ == spec_chapter_edition(models(es.take(it.index() as int))),
        {
            proof {
                lemma_models_take(es, it.index() as int);
            }
            let ghost old_chapters = edition.chapters@;
            let Element { id, size: _, val } = e;
            match val {
                ElementType::UInt(v) => {
                    if id == EDITIONFLAGHIDDEN {
                        edition.hidden = v != 0;
                    } else if id == EDITIONFLAGDEFAULT {
                        edition.default = v != 0;
                    } else if id == EDITIONFLAGORDERED {
                        edition.ordered = v != 0;
                    }
                },
                ElementType::Master(sub) => {
                    if id == CHAPTERATOM {
                        let chapter = Chapter::build(sub);
                        edition.chapters.push(chapter);
                        proof {
                            let ms = masters(models(es.take(it.index() as int)), CHAPTERATOM);
                            let f = |c: Seq<ElementModel>| spec_chapter(c);
                            assert(ms.push(models(sub@)).map_values(f) =~= ms.map_values(f).push(
                                f(models(sub@)),
                            ));
                            assert(edition.chapters@.map_values(|c: Chapter| c@) =~= old_chapters.map_values(
                                |c: Chapter| c@,
                            ).push(chapter@));
                        }
                    }
                },
                _ => {},
            }
        }
        proof {
            assert(es.take(es.len() as int) =~= es);
        }
        edition
    }
}

/// A display string is read from its ChapString and ChapLanguage children only: a child
/// with any other ID leaves it unchanged.
pub proof fn lemma_chapter_display_reads_own_children(es: Seq<ElementModel>, e: ElementModel)
    requires
        e.id != CHAPSTRING,
        e.id != CHAPLANGUAGE,
    ensures
        spec_chapter_display(es.push(e)) == spec_chapter_display(es),
{
    lemma_other_id_ignored(es, e, CHAPSTRING);
    lemma_other_id_ignored(es, e, CHAPLANGUAGE);
}

/// A chapter point is read from its time, flag and ChapterDisplay children only: a child
/// with any other ID leaves it unchanged.
pub proof fn lemma_chapter_reads_own_children(es: Seq<ElementModel>, e: ElementModel)
    requires
        e.id != CHAPTERTIMESTART,
        e.id != CHAPTERTIMEEND,
        e.id != CHAPTERFLAGHIDDEN,
        e.id != CHAPTERFLAGENABLED,
        e.id != CHAPTERDISPLAY,
    ensures
        spec_chapter(es.push(e)) == spec_chapter(es),
{
    lemma_other_id_ignored(es, e, CHAPTERTIMESTART);
    lemma_other_id_ignored(es, e, CHAPTERTIMEEND);
    lemma_other_id_ignored(es, e, CHAPTERFLAGHIDDEN);
    lemma_other_id_ignored(es, e, CHAPTERFLAGENABLED);
    lemma_other_id_ignored(es, e, CHAPTERDISPLAY);
}

/// An edition is read from its flag and ChapterAtom children only: a child with any other
/// ID leaves it unchanged.
pub proof fn lemma_chapter_edition_reads_own_children(es: Seq<ElementModel>, e: ElementModel)
    requires
        e.id != EDITIONFLAGHIDDEN,
        e.id != EDITIONFLAGDEFAULT,
        e.id != EDITIONFLAGORDERED,
        e.id != CHAPTERATOM,
    ensures
        spec_chapter_edition(es.push(e)) == spec_chapter_edition(es),
{
    lemma_other_id_ignored(es, e, EDITIONFLAGHIDDEN);
    lemma_other_id_ignored(es, e, EDITIONFLAGDEFAULT);
    lemma_other_id_ignored(es, e, EDITIONFLAGORDERED);
    lemma_other_id_ignored(es, e, CHAPTERATOM);
}

/// The editions of a Chapters element are read from its EditionEntry children only: a
/// child with any other ID leaves them unchanged.
pub proof fn lemma_chapter_editions_read_own_children(es: Seq<ElementModel>, e: ElementModel)
    requires
        e.id != EDITIONENTRY,
    ensures
        spec_chapter_editions(es.push(e)) == spec_chapter_editions(es),
{
    lemma_other_id_ignored(es, e, EDITIONENTRY);
}

/// A display string takes its text from the last ChapString and its language from the last
/// ChapLanguage, each empty when there is none.
pub proof fn lemma_chapter_display_fields(es: Seq<ElementModel>)
    ensures
        forall|i: int| #[trigger] is_last_with_id(es, CHAPSTRING, i) && es[i].val is Utf8
            ==> spec_chapter_display(es).string == es[i].val->Utf8_0,
        has_no_id(es, CHAPSTRING) ==> spec_chapter_display(es).string.len() == 0,
        forall|i: int| #[trigger] is_last_with_id(es, CHAPLANGUAGE, i) && es[i].val is Str
            ==> spec_chapter_display(es).language == es[i].val->Str_0,
        has_no_id(es, CHAPLANGUAGE) ==> spec_chapter_display(es).language.len() == 0,
{
    assert forall|i: int| #[trigger] is_last_with_id(es, CHAPSTRING, i) && es[i].val is Utf8
        implies spec_chapter_display(es).string == es[i].val->Utf8_0 by {
        lemma_last_value(es, CHAPSTRING, i);
    }
    assert forall|i: int| #[trigger] is_last_with_id(es, CHAPLANGUAGE, i) && es[i].val is Str
        implies spec_chapter_display(es).language == es[i].val->Str_0 by {
        lemma_last_value(es, CHAPLANGUAGE, i);
    }
    if has_no_id(es, CHAPSTRING) {
        lemma_no_value(es, CHAPSTRING);
    }
    if has_no_id(es, CHAPLANGUAGE) {
        lemma_no_value(es, CHAPLANGUAGE);
    }
}

/// A chapter point takes its start and end from the last ChapterTimeStart and
/// ChapterTimeEnd, as signed nanoseconds (the start zero and the end absent when there is
/// none), and each flag is true exactly when the last element of its ID holds a value that
/// is not zero.
pub proof fn lemma_chapter_fields(es: Seq<ElementModel>)
    ensures
        forall|i: int| #[trigger] is_last_with_id(es, CHAPTERTIMESTART, i) && es[i].val is UInt
            ==> spec_chapter(es).time_start == es[i].val->UInt_0 as i64,
        has_no_id(es, CHAPTERTIMESTART) ==> spec_chapter(es).time_start == 0,
        forall|i: int| #[trigger] is_last_with_id(es, CHAPTERTIMEEND, i) && es[i].val is UInt
            ==> spec_chapter(es).time_end == Some(es[i].val->UInt_0 as i64),
        has_no_id(es, CHAPTERTIMEEND) ==> spec_chapter(es).time_end is None,
        forall|i: int| #[trigger] is_last_with_id(es, CHAPTERFLAGHIDDEN, i) && es[i].val is UInt
            ==> spec_chapter(es).hidden == (es[i].val->UInt_0 != 0),
        has_no_id(es, CHAPTERFLAGHIDDEN) ==> !spec_chapter(es).hidden,
        forall|i: int| #[trigger] is_last_with_id(es, CHAPTERFLAGENABLED, i) && es[i].val is UInt
            ==> spec_chapter(es).enabled == (es[i].val->UInt_0 != 0),
        has_no_id(es, CHAPTERFLAGENABLED) ==> !spec_chapter(es).enabled,
{
    assert forall|i: int| #[trigger] is_last_with_id(es, CHAPTERTIMESTART, i) && es[i].val is UInt
        implies spec_chapter(es).time_start == es[i].val->UInt_0 as i64 by {
        lemma_last_value(es, CHAPTERTIMESTART, i);
    }
    assert forall|i: int| #[trigger] is_last_with_id(es, CHAPTERTIMEEND, i) && es[i].val is UInt
        implies spec_chapter(es).time_end == Some(es[i].val->UInt_0 as i64) by {
        lemma_last_value(es, CHAPTERTIMEEND, i);
    }
    assert forall|i: int| #[trigger] is_last_with_id(es, CHAPTERFLAGHIDDEN, i) && es[i].val is UInt
        implies spec_chapter(es).hidden == (es[i].val->UInt_0 != 0) by {
        lemma_last_value(es, CHAPTERFLAGHIDDEN, i);
    }
    assert forall|i: int| #[trigger] is_last_with_id(es, CHAPTERFLAGENABLED, i) && es[i].val is UInt
        implies spec_chapter(es).enabled == (es[i].val->UInt_0 != 0) by {
        lemma_last_value(es, CHAPTERFLAGENABLED, i);
    }
    if has_no_id(es, CHAPTERTIMESTART) {
        lemma_no_value(es, CHAPTERTIMESTART);
    }
    if has_no_id(es, CHAPTERTIMEEND) {
        lemma_no_value(es, CHAPTERTIMEEND);
    }
    if has_no_id(es, CHAPTERFLAGHIDDEN) {
        lemma_no_value(es, CHAPTERFLAGHIDDEN);
    }
    if has_no_id(es, CHAPTERFLAGENABLED) {
        lemma_no_value(es, CHAPTERFLAGENABLED);
    }
}

/// A chapter point has one display string for each ChapterDisplay child, in order, built
/// from that child's children: none for no children, one more for one more ChapterDisplay,
/// and as many as there are ChapterDisplay children.
pub proof fn lemma_chapter_displays(es: Seq<ElementModel>, e: ElementModel)
    ensures
        spec_chapter(Seq::empty()).display.len() == 0,
        spec_chapter(es.push(e)).display == if is_master_with_id(e, CHAPTERDISPLAY) {
            spec_chapter(es).display.push(spec_chapter_display(e.val->Master_0))
        } else {
            spec_chapter(es).display
        },
        spec_chapter(es).display.len() == es.filter(|x: ElementModel| is_master_with_id(x, CHAPTERDISPLAY)).len(),
{
    lemma_no_value(Seq::empty(), CHAPTERDISPLAY);
    lemma_masters_push(es, e, CHAPTERDISPLAY);
    lemma_masters_count(es, CHAPTERDISPLAY);
    let f = |c: Seq<ElementModel>| spec_chapter_display(c);
    if is_master_with_id(e, CHAPTERDISPLAY) {
        assert(masters(es, CHAPTERDISPLAY).push(e.val->Master_0).map_values(f) =~= masters(es, CHAPTERDISPLAY).map_values(
            f,
        ).push(f(e.val->Master_0)));
    }
}

/// Each flag of an edition is true exactly when the last element of its ID holds a value
/// that is not zero, and false when there is none.
pub proof fn lemma_chapter_edition_flags(es: Seq<ElementModel>)
    ensures
        forall|i: int| #[trigger] is_last_with_id(es, EDITIONFLAGHIDDEN, i) && es[i].val is UInt
            ==> spec_chapter_edition(es).hidden == (es[i].val->UInt_0 != 0),
        has_no_id(es, EDITIONFLAGHIDDEN) ==> !spec_chapter_edition(es).hidden,
        forall|i: int| #[trigger] is_last_with_id(es, EDITIONFLAGDEFAULT, i) && es[i].val is UInt
            ==> spec_chapter_edition(es).default == (es[i].val->UInt_0 != 0),
        has_no_id(es, EDITIONFLAGDEFAULT) ==> !spec_chapter_edition(es).default,
        forall|i: int| #[trigger] is_last_with_id(es, EDITIONFLAGORDERED, i) && es[i].val is UInt
            ==> spec_chapter_edition(es).ordered == (es[i].val->UInt_0 != 0),
        has_no_id(es, EDITIONFLAGORDERED) ==> !spec_chapter_edition(es).ordered,
{
    assert forall|i: int| #[trigger] is_last_with_id(es, EDITIONFLAGHIDDEN, i) && es[i].val is UInt
        implies spec_chapter_edition(es).hidden == (es[i].val->UInt_0 != 0) by {
        lemma_last_value(es, EDITIONFLAGHIDDEN, i);
    }
    assert forall|i: int| #[trigger] is_last_with_id(es, EDITIONFLAGDEFAULT, i) && es[i].val is UInt
        implies spec_chapter_edition(es).default == (es[i].val->UInt_0 != 0) by {
        lemma_last_value(es, EDITIONFLAGDEFAULT, i);
    }
    assert forall|i: int| #[trigger] is_last_with_id(es, EDITIONFLAGORDERED, i) && es[i].val is UInt
        implies spec_chapter_edition(es).ordered == (es[i].val->UInt_0 != 0) by {
        lemma_last_value(es, EDITIONFLAGORDERED, i);
    }
    if has_no_id(es, EDITIONFLAGHIDDEN) {
        lemma_no_value(es, EDITIONFLAGHIDDEN);
    }
    if has_no_id(es, EDITIONFLAGDEFAULT) {
        lemma_no_value(es, EDITIONFLAGDEFAULT);
    }
    if has_no_id(es, EDITIONFLAGORDERED) {
        lemma_no_value(es, EDITIONFLAGORDERED);
    }
}

/// An edition has one chapter point for each ChapterAtom child, in order, built from that
/// child's children: none for no children, one more for one more ChapterAtom, and as many
/// as there are ChapterAtom children.
pub proof fn lemma_chapter_edition_atoms(es: Seq<ElementModel>, e: ElementModel)
    ensures
        spec_chapter_edition(Seq::empty()).chapters.len() == 0,
        spec_chapter_edition(es.push(e)).chapters == if is_master_with_id(e, CHAPTERATOM) {
            spec_chapter_edition(es).chapters.push(spec_chapter(e.val->Master_0))
        } else {
            spec_chapter_edition(es).chapters
        },
        spec_chapter_edition(es).chapters.len() == es.filter(|x: ElementModel| is_master_with_id(x, CHAPTERATOM)).len(),
{
    lemma_no_value(Seq::empty(), CHAPTERATOM);
    lemma_masters_push(es, e, CHAPTERATOM);
    lemma_masters_count(es, CHAPTERATOM);
    let f = |c: Seq<ElementModel>| spec_chapter(c);
    if is_master_with_id(e, CHAPTERATOM) {
        assert(masters(es, CHAPTERATOM).push(e.val->Master_0).map_values(f) =~= masters(es, CHAPTERATOM).map_values(
            f,
        ).push(f(e.val->Master_0)));
    }
}

/// A Chapters element gives one edition for each EditionEntry child, in order, built from
/// that entry's children: none for no children, one more for one more EditionEntry, and as
/// many as there are EditionEntry children.
pub proof fn lemma_chapter_editions_entries(es: Seq<ElementModel>, e: ElementModel)
    ensures
        spec_chapter_editions(Seq::empty()).len() == 0,
        spec_chapter_editions(es.push(e)) == if is_master_with_id(e, EDITIONENTRY) {
            spec_chapter_editions(es).push(spec_chapter_edition(e.val->Master_0))
        } else {
            spec_chapter_editions(es)
        },
        spec_chapter_editions(es).len() == es.filter(|x: ElementModel| is_master_with_id(x, EDITIONENTRY)).len(),
{
    lemma_no_value(Seq::empty(), EDITIONENTRY);
    lemma_masters_push(es, e, EDITIONENTRY);
    lemma_masters_count(es, EDITIONENTRY);
    let f = |c: Seq<ElementModel>| spec_chapter_edition(c);
    if is_master_with_id(e, EDITIONENTRY) {
        assert(masters(es, EDITIONENTRY).push(e.val->Master_0).map_values(f) =~= masters(es, EDITIONENTRY).map_values(
            f,
        ).push(f(e.val->Master_0)));
    }
}

} // verus!
