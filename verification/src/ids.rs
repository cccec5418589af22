//! Matroska element IDs, written with their length markers as they appear in a file,
//! and the kind of value that each element carries.
use vstd::prelude::*;

verus! {

pub const EBML: u32 = 0x1A45DFA3;
pub const SEGMENT: u32 = 0x18538067;

pub const SEEKHEAD: u32 = 0x114D9B74;
pub const SEEK: u32 = 0x4DBB;
pub const SEEKID: u32 = 0x53AB;
pub const SEEKPOSITION: u32 = 0x53AC;

pub const INFO: u32 = 0x1549A966;
pub const TITLE: u32 = 0x7BA9;
pub const TIMECODESCALE: u32 = 0x2AD7B1;
pub const DURATION: u32 = 0x4489;
pub const DATEUTC: u32 = 0x4461;
pub const MUXINGAPP: u32 = 0x4D80;
pub const WRITINGAPP: u32 = 0x5741;

pub const TRACKS: u32 = 0x1654AE6B;
pub const TRACKENTRY: u32 = 0xAE;
pub const TRACKNUMBER: u32 = 0xD7;
pub const TRACKUID: u32 = 0x73C5;
pub const TRACKTYPE: u32 = 0x83;
pub const FLAGENABLED: u32 = 0xB9;
pub const FLAGDEFAULT: u32 = 0x88;
pub const FLAGFORCED: u32 = 0x55AA;
pub const FLAGLACING: u32 = 0x9C;
pub const DEFAULTDURATION: u32 = 0x23E383;
pub const NAME: u32 = 0x536E;
pub const LANGUAGE: u32 = 0x22B59C;
pub const CODEC_ID: u32 = 0x86;
pub const CODEC_NAME: u32 = 0x258688;
pub const VIDEO: u32 = 0xE0;
pub const PIXELWIDTH: u32 = 0xB0;
pub const PIXELHEIGHT: u32 = 0xBA;
pub const DISPLAYWIDTH: u32 = 0x54B0;
pub const DISPLAYHEIGHT: u32 = 0x54BA;
pub const AUDIO: u32 = 0xE1;
pub const SAMPLINGFREQUENCY: u32 = 0xB5;
pub const CHANNELS: u32 = 0x9F;
pub const BITDEPTH: u32 = 0x6264;

pub const ATTACHMENTS: u32 = 0x1941A469;
pub const ATTACHEDFILE: u32 = 0x61A7;
pub const FILEDESCRIPTION: u32 = 0x467E;
pub const FILENAME: u32 = 0x466E;
pub const FILEMIMETYPE: u32 = 0x4660;
pub const FILEDATA: u32 = 0x465C;

pub const CHAPTERS: u32 = 0x1043A770;
pub const EDITIONENTRY: u32 = 0x45B9;
pub const EDITIONFLAGHIDDEN: u32 = 0x45BD;
pub const EDITIONFLAGDEFAULT: u32 = 0x45DB;
pub const EDITIONFLAGORDERED: u32 = 0x45DD;
pub const CHAPTERATOM: u32 = 0xB6;
pub const CHAPTERTIMESTART: u32 = 0x91;
pub const CHAPTERTIMEEND: u32 = 0x92;
pub const CHAPTERFLAGHIDDEN: u32 = 0x98;
pub const CHAPTERFLAGENABLED: u32 = 0x4598;
pub const CHAPTERDISPLAY: u32 = 0x80;
pub const CHAPSTRING: u32 = 0x85;
pub const CHAPLANGUAGE: u32 = 0x437C;

/// The kind of value an element carries, which decides how its body is read.
#[derive(Debug, Clone, Copy, PartialEq, Eq, Structural)]
pub enum ElementKind {
    UInt,
    Float,
    Date,
    String,
    UTF8,
    Master,
    Binary,
}

/// The elements that hold other elements.
pub open spec fn is_master_id(id: u32) -> bool {
    id == EBML || id == SEGMENT || id == SEEKHEAD || id == SEEK || id == INFO || id == TRACKS
        || id == TRACKENTRY || id == VIDEO || id == AUDIO || id == ATTACHMENTS
        || id == ATTACHEDFILE || id == CHAPTERS || id == EDITIONENTRY || id == CHAPTERATOM
        || id == CHAPTERDISPLAY
}

/// The elements that hold an unsigned integer.
pub open spec fn is_uint_id(id: u32) -> bool {
    id == SEEKPOSITION || id == TIMECODESCALE || id == TRACKNUMBER || id == TRACKUID
        || id == TRACKTYPE || id == FLAGENABLED || id == FLAGDEFAULT || id == FLAGFORCED
        || id == FLAGLACING || id == DEFAULTDURATION || id == PIXELWIDTH || id == PIXELHEIGHT
        || id == DISPLAYWIDTH || id == DISPLAYHEIGHT || id == CHANNELS || id == BITDEPTH
        || id == EDITIONFLAGHIDDEN || id == EDITIONFLAGDEFAULT || id == EDITIONFLAGORDERED
        || id == CHAPTERTIMESTART || id == CHAPTERTIMEEND || id == CHAPTERFLAGHIDDEN
        || id == CHAPTERFLAGENABLED
}

/// The elements that hold UTF-8 text.
pub open spec fn is_utf8_id(id: u32) -> bool {
    id == TITLE || id == MUXINGAPP || id == WRITINGAPP || id == NAME || id == CODEC_NAME
        || id == FILEDESCRIPTION || id == FILENAME || id == CHAPSTRING
}

/// The elements that hold ASCII text.
pub open spec fn is_string_id(id: u32) -> bool {
    id == LANGUAGE || id == CODEC_ID || id == FILEMIMETYPE || id == CHAPLANGUAGE
}

/// The kind of each element ID; an ID this library does not know is read as raw bytes.
pub open spec fn spec_kind_of(id: u32) -> ElementKind {
    if is_master_id(id) {
        ElementKind::Master
    } else if is_uint_id(id) {
        ElementKind::UInt
    } else if is_utf8_id(id) {
        ElementKind::UTF8
    } else if is_string_id(id) {
        ElementKind::String
    } else if id == DURATION || id == SAMPLINGFREQUENCY {
        ElementKind::Float
    } else if id == DATEUTC {
        ElementKind::Date
    } else {
        ElementKind::Binary
    }
}

/// Returns the kind of value that the element with the given ID carries.
pub fn kind_of(id: u32) -> (kind: ElementKind)
    ensures
        kind == spec_kind_of(id),
{
    if id == EBML || id == SEGMENT || id == SEEKHEAD || id == SEEK || id == INFO || id == TRACKS
        || id == TRACKENTRY || id == VIDEO || id == AUDIO || id == ATTACHMENTS
        || id == ATTACHEDFILE || id == CHAPTERS || id == EDITIONENTRY || id == CHAPTERATOM
        || id == CHAPTERDISPLAY {
        ElementKind::Master
    } else if id == SEEKPOSITION || id == TIMECODESCALE || id == TRACKNUMBER || id == TRACKUID
        || id == TRACKTYPE || id == FLAGENABLED || id == FLAGDEFAULT || id == FLAGFORCED
        || id == FLAGLACING || id == DEFAULTDURATION || id == PIXELWIDTH || id == PIXELHEIGHT
        || id == DISPLAYWIDTH || id == DISPLAYHEIGHT || id == CHANNELS || id == BITDEPTH
        || id == EDITIONFLAGHIDDEN || id == EDITIONFLAGDEFAULT || id == EDITIONFLAGORDERED
        || id == CHAPTERTIMESTART || id == CHAPTERTIMEEND || id == CHAPTERFLAGHIDDEN
        || id == CHAPTERFLAGENABLED {
        ElementKind::UInt
    } else if id == TITLE || id == MUXINGAPP || id == WRITINGAPP || id == NAME
        || id == CODEC_NAME || id == FILEDESCRIPTION || id == FILENAME || id == CHAPSTRING {
        ElementKind::UTF8
    } else if id == LANGUAGE || id == CODEC_ID || id == FILEMIMETYPE || id == CHAPLANGUAGE {
        ElementKind::String
    } else if id == DURATION || id == SAMPLINGFREQUENCY {
        ElementKind::Float
    } else if id == DATEUTC {
        ElementKind::Date
    } else {
        ElementKind::Binary
    }
}

/// Each field that the parts of a file read is decoded as the kind of value that part reads
/// it as: counts, sizes, times and flags as unsigned integers, names and titles as UTF-8
/// text, languages, codec IDs and MIME types as ASCII text, the duration and the sampling
/// frequency as floats, the production date as a date, and the groups of fields as master
/// elements.
pub proof fn lemma_field_kinds()
    ensures
        spec_kind_of(SEEKPOSITION) == ElementKind::UInt,
        spec_kind_of(TIMECODESCALE) == ElementKind::UInt,
        spec_kind_of(TRACKNUMBER) == ElementKind::UInt,
        spec_kind_of(TRACKUID) == ElementKind::UInt,
        spec_kind_of(TRACKTYPE) == ElementKind::UInt,
        spec_kind_of(FLAGENABLED) == ElementKind::UInt,
        spec_kind_of(FLAGDEFAULT) == ElementKind::UInt,
        spec_kind_of(FLAGFORCED) == ElementKind::UInt,
        spec_kind_of(FLAGLACING) == ElementKind::UInt,
        spec_kind_of(DEFAULTDURATION) == ElementKind::UInt,
        spec_kind_of(PIXELWIDTH) == ElementKind::UInt,
        spec_kind_of(PIXELHEIGHT) == ElementKind::UInt,
        spec_kind_of(DISPLAYWIDTH) == ElementKind::UInt,
        spec_kind_of(DISPLAYHEIGHT) == ElementKind::UInt,
        spec_kind_of(CHANNELS) == ElementKind::UInt,
        spec_kind_of(BITDEPTH) == ElementKind::UInt,
        spec_kind_of(EDITIONFLAGHIDDEN) == ElementKind::UInt,
        spec_kind_of(EDITIONFLAGDEFAULT) == ElementKind::UInt,
        spec_kind_of(EDITIONFLAGORDERED) == ElementKind::UInt,
        spec_kind_of(CHAPTERTIMESTART) == ElementKind::UInt,
        spec_kind_of(CHAPTERTIMEEND) == ElementKind::UInt,
        spec_kind_of(CHAPTERFLAGHIDDEN) == ElementKind::UInt,
        spec_kind_of(CHAPTERFLAGENABLED) == ElementKind::UInt,
        spec_kind_of(TITLE) == ElementKind::UTF8,
        spec_kind_of(MUXINGAPP) == ElementKind::UTF8,
        spec_kind_of(WRITINGAPP) == ElementKind::UTF8,
        spec_kind_of(NAME) == ElementKind::UTF8,
        spec_kind_of(CODEC_NAME) == ElementKind::UTF8,
        spec_kind_of(FILEDESCRIPTION) == ElementKind::UTF8,
        spec_kind_of(FILENAME) == ElementKind::UTF8,
        spec_kind_of(CHAPSTRING) == ElementKind::UTF8,
        spec_kind_of(LANGUAGE) == ElementKind::String,
        spec_kind_of(CODEC_ID) == ElementKind::String,
        spec_kind_of(FILEMIMETYPE) == ElementKind::String,
        spec_kind_of(CHAPLANGUAGE) == ElementKind::String,
        spec_kind_of(DURATION) == ElementKind::Float,
        spec_kind_of(SAMPLINGFREQUENCY) == ElementKind::Float,
        spec_kind_of(DATEUTC) == ElementKind::Date,
        spec_kind_of(SEEKID) == ElementKind::Binary,
        spec_kind_of(FILEDATA) == ElementKind::Binary,
        spec_kind_of(SEEKHEAD) == ElementKind::Master,
        spec_kind_of(SEEK) == ElementKind::Master,
        spec_kind_of(INFO) == ElementKind::Master,
        spec_kind_of(TRACKS) == ElementKind::Master,
        spec_kind_of(TRACKENTRY) == ElementKind::Master,
        spec_kind_of(VIDEO) == ElementKind::Master,
        spec_kind_of(AUDIO) == ElementKind::Master,
        spec_kind_of(ATTACHMENTS) == ElementKind::Master,
        spec_kind_of(ATTACHEDFILE) == ElementKind::Master,
        spec_kind_of(CHAPTERS) == ElementKind::Master,
        spec_kind_of(EDITIONENTRY) == ElementKind::Master,
        spec_kind_of(CHAPTERATOM) == ElementKind::Master,
        spec_kind_of(CHAPTERDISPLAY) == ElementKind::Master,
{
}

} // verus!
