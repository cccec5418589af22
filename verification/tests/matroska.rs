use matroska::{
    Action, Attachment, Audio, ChapterDisplay, ChapterEdition, Element, FloatBits, Info, Matroska,
    MatroskaError, MatroskaReader, Seek, Seektable, Settings, Track, Tracktype, Video,
};
use matroska::ids;

/// An element with a size that takes one byte.
fn el(id: &[u8], body: &[u8]) -> Vec<u8> {
    assert!(body.len() < 127);
    let mut v = id.to_vec();
    v.push(0x80 | body.len() as u8);
    v.extend_from_slice(body);
    v
}

/// An element with a size that takes eight bytes.
fn el8(id: &[u8], body: &[u8]) -> Vec<u8> {
    let mut v = id.to_vec();
    let n = body.len() as u64;
    v.push(0x01);
    for i in (0..7).rev() {
        v.push((n >> (8 * i)) as u8);
    }
    v.extend_from_slice(body);
    v
}

fn uint(id: &[u8], v: u64) -> Vec<u8> {
    el(id, &v.to_be_bytes())
}

fn text(id: &[u8], s: &str) -> Vec<u8> {
    el(id, s.as_bytes())
}

fn id_bytes(id: u32) -> Vec<u8> {
    let b = id.to_be_bytes();
    let skip = b.iter().position(|x| *x != 0).unwrap();
    b[skip..].to_vec()
}

fn ebml_header() -> Vec<u8> {
    el(&[0x1A, 0x45, 0xDF, 0xA3], &text(&[0x42, 0x82], "matroska"))
}

fn info_body() -> Vec<u8> {
    [
        uint(&[0x2A, 0xD7, 0xB1], 1_000_000),
        el(&[0x44, 0x89], &2500.0f64.to_bits().to_be_bytes()),
        text(&[0x7B, 0xA9], "A Title"),
        text(&[0x4D, 0x80], "libebml"),
        text(&[0x57, 0x41], "mkvmerge"),
        el(&[0x44, 0x61], &1_000_000_000i64.to_be_bytes()),
    ]
    .concat()
}

fn video_entry() -> Vec<u8> {
    el(
        &[0xAE],
        &[
            uint(&[0xD7], 1),
            uint(&[0x73, 0xC5], 12345),
            uint(&[0x83], 1),
            text(&[0x86], "V_MPEG4/ISO/AVC"),
            uint(&[0x23, 0xE3, 0x83], 41_708_333),
            el(&[0xE0], &[uint(&[0xB0], 1920), uint(&[0xBA], 1080), uint(&[0x54, 0xB0], 1440)].concat()),
        ]
        .concat(),
    )
}

fn audio_entry() -> Vec<u8> {
    el(
        &[0xAE],
        &[
            uint(&[0xD7], 2),
            uint(&[0x83], 2),
            text(&[0x86], "A_AAC"),
            text(&[0x22, 0xB5, 0x9C], "eng"),
            text(&[0x53, 0x6E], "Stereo"),
            el(&[0xE1], &[el(&[0xB5], &48000.0f64.to_bits().to_be_bytes()), uint(&[0x9F], 2), uint(&[0x62, 0x64], 16)].concat()),
        ]
        .concat(),
    )
}

fn subtitle_entry() -> Vec<u8> {
    el(
        &[0xAE],
        &[uint(&[0xD7], 3), uint(&[0x83], 0x11), uint(&[0x88], 0), uint(&[0x55, 0xAA], 1), uint(&[0x9C], 0), text(&[0x86], "S_TEXT/UTF8")].concat(),
    )
}

fn tracks_body() -> Vec<u8> {
    [video_entry(), audio_entry(), subtitle_entry()].concat()
}

fn attachments_body() -> Vec<u8> {
    el(
        &[0x61, 0xA7],
        &[
            text(&[0x46, 0x7E], "Cover"),
            text(&[0x46, 0x6E], "cover.jpg"),
            text(&[0x46, 0x60], "image/jpeg"),
            el(&[0x46, 0x5C], &[0xFF, 0xD8, 0xFF]),
        ]
        .concat(),
    )
}

fn chapters_body() -> Vec<u8> {
    let display = el(&[0x80], &[text(&[0x85], "Intro"), text(&[0x43, 0x7C], "eng")].concat());
    let atom1 = el(&[0xB6], &[uint(&[0x91], 0), uint(&[0x92], 5_000_000_000), uint(&[0x45, 0x98], 1), display].concat());
    let atom2 = el(&[0xB6], &[uint(&[0x91], 5_000_000_000), uint(&[0x98], 1)].concat());
    el(&[0x45, 0xB9], &[uint(&[0x45, 0xBD], 0), uint(&[0x45, 0xDB], 1), atom1, atom2].concat())
}

fn check_info(info: &Info) {
    assert_eq!(info.title.as_deref(), Some("A Title"));
    assert_eq!(info.muxing_app, "libebml");
    assert_eq!(info.writing_app, "mkvmerge");
    assert_eq!(info.date_utc, Some(1_000_000_000));
    let d = info.duration.unwrap();
    assert_eq!(d.timecode_scale, 1_000_000);
    assert_eq!(d.ticks, FloatBits::Double(2500.0f64.to_bits()));
}

fn check_tracks(tracks: &[Track]) {
    assert_eq!(tracks.len(), 3);
    let v = &tracks[0];
    assert_eq!((v.number, v.uid, v.tracktype), (1, 12345, Tracktype::Video));
    assert_eq!(v.codec_id, "V_MPEG4/ISO/AVC");
    assert_eq!(v.defaultduration, Some(41_708_333));
    assert!(v.enabled && v.default && !v.forced && v.interlaced);
    assert_eq!(v.name, None);
    assert_eq!(
        v.settings,
        Settings::Video(Video { pixel_width: 1920, pixel_height: 1080, display_width: Some(1440), display_height: None })
    );
    let a = &tracks[1];
    assert_eq!((a.number, a.uid, a.tracktype), (2, 0, Tracktype::Audio));
    assert_eq!(a.language.as_deref(), Some("eng"));
    assert_eq!(a.name.as_deref(), Some("Stereo"));
    assert_eq!(
        a.settings,
        Settings::Audio(Audio { sample_rate: FloatBits::Double(48000.0f64.to_bits()), channels: 2, bit_depth: Some(16) })
    );
    let s = &tracks[2];
    assert_eq!(s.tracktype, Tracktype::Subtitle);
    assert!(!s.default && s.forced && !s.interlaced && s.enabled);
    assert_eq!(s.settings, Settings::NoSettings);
}

fn check_attachments(attachments: &[Attachment]) {
    assert_eq!(attachments.len(), 1);
    assert_eq!(attachments[0].description.as_deref(), Some("Cover"));
    assert_eq!(attachments[0].name, "cover.jpg");
    assert_eq!(attachments[0].mime_type, "image/jpeg");
    assert_eq!(attachments[0].data, vec![0xFF, 0xD8, 0xFF]);
}

fn check_chapters(chapters: &[ChapterEdition]) {
    assert_eq!(chapters.len(), 1);
    let e = &chapters[0];
    assert!(!e.hidden && e.default && !e.ordered);
    assert_eq!(e.chapters.len(), 2);
    let c = &e.chapters[0];
    assert_eq!((c.time_start, c.time_end, c.hidden, c.enabled), (0, Some(5_000_000_000), false, true));
    assert_eq!(c.display.len(), 1);
    assert_eq!(c.display[0].string, "Intro");
    assert_eq!(c.display[0].language, "eng");
    let c = &e.chapters[1];
    assert_eq!((c.time_start, c.time_end, c.hidden, c.enabled), (5_000_000_000, None, true, false));
    assert!(c.display.is_empty());
}

/// A file whose segment holds its parts in place, with a cluster in between.
fn file_in_place() -> Vec<u8> {
    let segment = [
        el8(&[0x15, 0x49, 0xA9, 0x66], &info_body()),
        el8(&[0x16, 0x54, 0xAE, 0x6B], &tracks_body()),
        el8(&[0x1F, 0x43, 0xB6, 0x75], &[0xE7, 0x81, 0x00, 0xA3, 0x84, 1, 2, 3, 4]),
        el8(&[0x19, 0x41, 0xA4, 0x69], &attachments_body()),
        el8(&[0x10, 0x43, 0xA7, 0x70], &chapters_body()),
    ]
    .concat();
    [ebml_header(), el8(&[0x18, 0x53, 0x80, 0x67], &segment)].concat()
}

fn seek_entry(id: u32, pos: u64) -> Vec<u8> {
    el(&[0x4D, 0xBB], &[el(&[0x53, 0xAB], &id_bytes(id)), uint(&[0x53, 0xAC], pos)].concat())
}

/// A file whose segment starts with a seek table that points at its parts.
fn file_with_seek_table() -> Vec<u8> {
    let info = el8(&[0x15, 0x49, 0xA9, 0x66], &info_body());
    let tracks = el8(&[0x16, 0x54, 0xAE, 0x6B], &tracks_body());
    let chapters = el8(&[0x10, 0x43, 0xA7, 0x70], &chapters_body());
    let attachments = el8(&[0x19, 0x41, 0xA4, 0x69], &attachments_body());
    // the seek head has a fixed size, so the positions can be computed first
    let seek_head_len = el8(&[0x11, 0x4D, 0x9B, 0x74], &[seek_entry(ids::INFO, 0), seek_entry(ids::TRACKS, 0), seek_entry(ids::CHAPTERS, 0), seek_entry(ids::ATTACHMENTS, 0)].concat()).len() as u64;
    let p_tracks = seek_head_len;
    let p_info = p_tracks + tracks.len() as u64;
    let p_chapters = p_info + info.len() as u64;
    let p_attachments = p_chapters + chapters.len() as u64;
    let seek_head = el8(
        &[0x11, 0x4D, 0x9B, 0x74],
        &[seek_entry(ids::INFO, p_info), seek_entry(ids::TRACKS, p_tracks), seek_entry(ids::CHAPTERS, p_chapters), seek_entry(ids::ATTACHMENTS, p_attachments)].concat(),
    );
    assert_eq!(seek_head.len() as u64, seek_head_len);
    let segment = [seek_head, tracks, info, chapters, attachments].concat();
    [ebml_header(), el8(&[0x18, 0x53, 0x80, 0x67], &segment)].concat()
}

#[test]
fn reads_a_file_with_its_parts_in_place() {
    let m = Matroska::parse(&file_in_place()).unwrap();
    check_info(&m.info);
    check_tracks(&m.tracks);
    check_attachments(&m.attachments);
    check_chapters(&m.chapters);
}

#[test]
fn reads_a_file_through_its_seek_table() {
    let m = Matroska::parse(&file_with_seek_table()).unwrap();
    check_info(&m.info);
    check_tracks(&m.tracks);
    check_attachments(&m.attachments);
    check_chapters(&m.chapters);
}

#[test]
fn seek_table_pointing_elsewhere_is_an_error() {
    let info = el8(&[0x15, 0x49, 0xA9, 0x66], &info_body());
    let head = el8(&[0x11, 0x4D, 0x9B, 0x74], &seek_entry(ids::INFO, 0));
    let segment = [head, info].concat();
    let file = [ebml_header(), el8(&[0x18, 0x53, 0x80, 0x67], &segment)].concat();
    assert_eq!(
        Matroska::parse(&file).unwrap_err(),
        MatroskaError::UnexpectedElement { expected: ids::INFO, found: ids::SEEKHEAD }
    );
}

#[test]
fn seek_table_only_reads_what_it_lists() {
    let tracks = el8(&[0x16, 0x54, 0xAE, 0x6B], &tracks_body());
    let info = el8(&[0x15, 0x49, 0xA9, 0x66], &info_body());
    let head_len = el8(&[0x11, 0x4D, 0x9B, 0x74], &seek_entry(ids::TRACKS, 0)).len() as u64;
    let head = el8(&[0x11, 0x4D, 0x9B, 0x74], &seek_entry(ids::TRACKS, head_len));
    let segment = [head, tracks, info].concat();
    let file = [ebml_header(), el8(&[0x18, 0x53, 0x80, 0x67], &segment)].concat();
    let m = Matroska::parse(&file).unwrap();
    check_tracks(&m.tracks);
    assert_eq!(m.info.title, None);
    assert_eq!(m.info.muxing_app, "");
}

#[test]
fn file_without_segment_ends_early() {
    assert_eq!(Matroska::parse(&ebml_header()).unwrap_err(), MatroskaError::UnexpectedEof);
    assert_eq!(Matroska::parse(&[]).unwrap_err(), MatroskaError::UnexpectedEof);
}

#[test]
fn empty_segment_gives_defaults() {
    let file = [ebml_header(), el(&[0x18, 0x53, 0x80, 0x67], &[])].concat();
    let m = Matroska::parse(&file).unwrap();
    assert_eq!(m.info.title, None);
    assert_eq!(m.info.duration, None);
    assert!(m.tracks.is_empty() && m.attachments.is_empty() && m.chapters.is_empty());
}

#[test]
fn truncated_file_is_an_error() {
    let mut file = file_in_place();
    file.truncate(file.len() - 10);
    assert_eq!(Matroska::parse(&file).unwrap_err(), MatroskaError::UnexpectedEof);
}

#[test]
fn child_running_past_the_segment_is_an_error() {
    let info = el8(&[0x15, 0x49, 0xA9, 0x66], &info_body());
    // a segment that claims 3 bytes, followed by a whole Info element
    let file = [ebml_header(), vec![0x18, 0x53, 0x80, 0x67, 0x83], info].concat();
    assert_eq!(Matroska::parse(&file).unwrap_err(), MatroskaError::InvalidSize);
}

#[test]
fn reader_asks_for_headers_then_bodies() {
    let file = file_in_place();
    let mut reader = MatroskaReader::new();
    assert_eq!(reader.action(), Action::Read { offset: 0, length: 12 });
    reader.feed(&file[0..12]);
    let header_len = ebml_header().len() as u64;
    assert_eq!(reader.action(), Action::Read { offset: header_len, length: 12 });
    reader.feed(&file[header_len as usize..header_len as usize + 12]);
    // the segment header took 12 bytes; the Info header is next
    let seg_start = header_len + 12;
    assert_eq!(reader.action(), Action::Read { offset: seg_start, length: 12 });
    reader.feed(&file[seg_start as usize..seg_start as usize + 12]);
    // the Info body follows its 12-byte header
    assert_eq!(reader.action(), Action::Read { offset: seg_start + 12, length: info_body().len() as u64 });
    let mut steps = 3;
    loop {
        match reader.action() {
            Action::Finish => break,
            Action::Read { offset, length } => {
                let start = (offset as usize).min(file.len());
                let end = (start + length as usize).min(file.len());
                reader.feed(&file[start..end]);
            }
        }
        steps += 1;
    }
    assert!(steps < 20);
    assert_eq!(steps, 11);
    let m = reader.finish().unwrap();
    check_info(&m.info);
    check_chapters(&m.chapters);
}

#[test]
fn finished_reader_stays_finished() {
    let mut reader = MatroskaReader::new();
    reader.feed(&[]);
    assert_eq!(reader.action(), Action::Finish);
    reader.feed(&file_in_place());
    assert_eq!(reader.action(), Action::Finish);
    assert_eq!(reader.finish().unwrap_err(), MatroskaError::UnexpectedEof);
}

#[test]
fn track_lists_by_type() {
    let m = Matroska::parse(&file_in_place()).unwrap();
    let v = m.video_tracks();
    let a = m.audio_tracks();
    let s = m.subtitle_tracks();
    assert_eq!(v.iter().map(|t| t.number).collect::<Vec<_>>(), vec![1]);
    assert_eq!(a.iter().map(|t| t.number).collect::<Vec<_>>(), vec![2]);
    assert_eq!(s.iter().map(|t| t.number).collect::<Vec<_>>(), vec![3]);
    assert!(v.len() + a.len() + s.len() <= m.tracks.len());
}

#[test]
fn track_lists_keep_order_and_skip_others() {
    let body = [
        el(&[0xAE], &[uint(&[0xD7], 1), uint(&[0x83], 2)].concat()),
        el(&[0xAE], &[uint(&[0xD7], 2), uint(&[0x83], 0x10)].concat()),
        el(&[0xAE], &[uint(&[0xD7], 3), uint(&[0x83], 2)].concat()),
    ]
    .concat();
    let m = Matroska { info: Info::new(), tracks: Track::parse(&body).unwrap(), attachments: Vec::new(), chapters: Vec::new() };
    assert_eq!(m.audio_tracks().iter().map(|t| t.number).collect::<Vec<_>>(), vec![1, 3]);
    assert!(m.video_tracks().is_empty());
    assert!(m.subtitle_tracks().is_empty());
}

#[test]
fn tracktype_codes() {
    assert_eq!(Tracktype::new(0x01), Tracktype::Video);
    assert_eq!(Tracktype::new(0x02), Tracktype::Audio);
    assert_eq!(Tracktype::new(0x03), Tracktype::Complex);
    assert_eq!(Tracktype::new(0x10), Tracktype::Logo);
    assert_eq!(Tracktype::new(0x11), Tracktype::Subtitle);
    assert_eq!(Tracktype::new(0x12), Tracktype::Buttons);
    assert_eq!(Tracktype::new(0x20), Tracktype::Control);
    assert_eq!(Tracktype::new(0x00), Tracktype::Unknown);
    assert_eq!(Tracktype::new(0x04), Tracktype::Unknown);
    assert_eq!(Tracktype::new(u64::MAX), Tracktype::Unknown);
}

#[test]
fn track_defaults() {
    let t = Track::new();
    assert_eq!((t.number, t.uid, t.tracktype), (0, 0, Tracktype::Unknown));
    assert!(t.enabled && t.default && !t.forced && t.interlaced);
    assert_eq!(t.codec_id, "");
    assert_eq!(t.settings, Settings::NoSettings);
    let t = Track::build_entry(Vec::new());
    assert_eq!(t.tracktype, Tracktype::Unknown);
}

#[test]
fn later_element_replaces_earlier_one() {
    let body = [uint(&[0xB0], 640), uint(&[0xBA], 480), uint(&[0xB0], 800)].concat();
    let v = Video::build(Element::parse_master(&body).unwrap());
    assert_eq!(v, Video { pixel_width: 800, pixel_height: 480, display_width: None, display_height: None });
    // the last of a Video and an Audio element gives the settings
    let entry = [el(&[0xE0], &uint(&[0xB0], 1)), el(&[0xE1], &uint(&[0x9F], 6))].concat();
    let t = Track::build_entry(Element::parse_master(&entry).unwrap());
    assert_eq!(t.settings, Settings::Audio(Audio { sample_rate: FloatBits::Double(0), channels: 6, bit_depth: None }));
}

#[test]
fn elements_with_other_ids_are_ignored() {
    let plain = [uint(&[0xB0], 640), uint(&[0xBA], 480)].concat();
    let with_others = [uint(&[0xB0], 640), uint(&[0x9F], 2), el(&[0xEC], &[0; 4]), uint(&[0xBA], 480), text(&[0x86], "X")].concat();
    assert_eq!(
        Video::build(Element::parse_master(&plain).unwrap()),
        Video::build(Element::parse_master(&with_others).unwrap())
    );
    let a = Attachment::build_entry(Element::parse_master(&[text(&[0x46, 0x6E], "a.txt"), uint(&[0xD7], 9)].concat()).unwrap());
    assert_eq!(a.name, "a.txt");
    assert_eq!(a.description, None);
    assert_eq!(a.mime_type, "");
    assert!(a.data.is_empty());
}

#[test]
fn video_and_audio_defaults() {
    assert_eq!(Video::new(), Video { pixel_width: 0, pixel_height: 0, display_width: None, display_height: None });
    assert_eq!(Audio::new(), Audio { sample_rate: FloatBits::Double(0.0f64.to_bits()), channels: 0, bit_depth: None });
    let a = Audio::build(Element::parse_master(&el(&[0xB5], &44100.0f32.to_bits().to_be_bytes())).unwrap());
    assert_eq!(a.sample_rate, FloatBits::Single(44100.0f32.to_bits()));
}

#[test]
fn info_without_scale_has_no_duration() {
    let body = [el(&[0x44, 0x89], &10.0f64.to_bits().to_be_bytes()), text(&[0x7B, 0xA9], "T")].concat();
    let info = Info::parse(&body).unwrap();
    assert_eq!(info.duration, None);
    assert_eq!(info.title.as_deref(), Some("T"));
    let info = Info::parse(&uint(&[0x2A, 0xD7, 0xB1], 1000)).unwrap();
    assert_eq!(info.duration, None);
    assert_eq!(Info::parse(&el(&[0x7B, 0xA9], &[0xC0])).unwrap_err(), MatroskaError::Utf8);
}

#[test]
fn attachments_parse() {
    let list = Attachment::parse(&[attachments_body(), attachments_body(), uint(&[0xD7], 1)].concat()).unwrap();
    assert_eq!(list.len(), 2);
    check_attachments(&list[1..]);
    let empty = Attachment::new();
    assert_eq!((empty.description, empty.name.as_str(), empty.mime_type.as_str(), empty.data.len()), (None, "", "", 0));
    assert_eq!(Attachment::parse(&[0x61, 0xA7, 0x85]).unwrap_err(), MatroskaError::InvalidSize);
}

#[test]
fn chapter_displays_and_editions() {
    let d = ChapterDisplay::build(Element::parse_master(&[text(&[0x43, 0x7C], "fre"), text(&[0x85], "Début")].concat()).unwrap());
    assert_eq!((d.string.as_str(), d.language.as_str()), ("Début", "fre"));
    let d = ChapterDisplay::new();
    assert_eq!((d.string.as_str(), d.language.as_str()), ("", ""));
    let editions = ChapterEdition::parse(&chapters_body()).unwrap();
    check_chapters(&editions);
    let e = ChapterEdition::new();
    assert!(!e.hidden && !e.default && !e.ordered && e.chapters.is_empty());
    // a chapter start of 2^63 nanoseconds or more wraps to a negative count
    let c = matroska::Chapter::build(Element::parse_master(&el(&[0x91], &u64::MAX.to_be_bytes())).unwrap());
    assert_eq!(c.time_start, -1);
}

#[test]
fn seek_ids_and_tables() {
    let s = Seek { id: vec![0x15, 0x49, 0xA9, 0x66], position: 7 };
    assert_eq!(s.id(), ids::INFO);
    // only the lowest four bytes count
    let s = Seek { id: vec![0xAB, 0x15, 0x49, 0xA9, 0x66], position: 7 };
    assert_eq!(s.id(), 0x1549A966);
    assert_eq!(Seek::new().id(), 0);
    let built = Seek::build(Element::parse_master(&[el(&[0x53, 0xAB], &[0xAE]), uint(&[0x53, 0xAC], 99)].concat()).unwrap());
    assert_eq!((built.id(), built.position), (0xAE, 99));
    let body = [seek_entry(ids::INFO, 10), seek_entry(ids::TRACKS, 20), seek_entry(ids::INFO, 30), uint(&[0xD7], 1)].concat();
    let table = Seektable::parse(&body).unwrap();
    assert_eq!(table.get(ids::INFO), Some(30));
    assert_eq!(table.get(ids::TRACKS), Some(20));
    assert_eq!(table.get(ids::CHAPTERS), None);
    assert_eq!(Seektable::new().get(ids::INFO), None);
}

#[test]
fn seek_id_names_the_element_written_with_those_bytes() {
    for id in [0xAEu32, 0x4DBB, 0x2AD7B1, 0x18538067] {
        let bytes = id_bytes(id);
        let (read, n) = matroska::ebml::read_element_id(&bytes, 0, bytes.len()).unwrap();
        assert_eq!(read, id);
        assert_eq!(n, bytes.len());
        assert_eq!(Seek { id: bytes, position: 0 }.id(), read);
    }
}

#[test]
fn seek_position_beyond_64_bits_is_an_error() {
    let head = el8(&[0x11, 0x4D, 0x9B, 0x74], &seek_entry(ids::INFO, u64::MAX));
    let file = [ebml_header(), el8(&[0x18, 0x53, 0x80, 0x67], &head)].concat();
    assert_eq!(Matroska::parse(&file).unwrap_err(), MatroskaError::PositionOverflow);
}

#[test]
fn invalid_header_in_the_file_is_an_error() {
    assert_eq!(Matroska::parse(&[0x08, 0, 0, 0, 0x81, 0]).unwrap_err(), MatroskaError::InvalidId);
    assert_eq!(Matroska::parse(&[0x1A, 0x45, 0xDF, 0xA3, 0x00, 0]).unwrap_err(), MatroskaError::InvalidSize);
    let segment = el(&[0x15, 0x49, 0xA9, 0x66], &el(&[0x2A, 0xD7, 0xB1], &[0; 9]));
    let file = [ebml_header(), el(&[0x18, 0x53, 0x80, 0x67], &segment)].concat();
    assert_eq!(Matroska::parse(&file).unwrap_err(), MatroskaError::InvalidUint);
}

#[test]
fn new_file_is_empty() {
    let m = Matroska::new();
    assert_eq!(m.info.title, None);
    assert_eq!(m.info.date_utc, None);
    assert!(m.tracks.is_empty() && m.attachments.is_empty() && m.chapters.is_empty());
    assert!(m.video_tracks().is_empty());
}

#[test]
fn elements_before_the_segment_change_nothing() {
    let header_len = ebml_header().len();
    let bare = file_in_place()[header_len..].to_vec();
    let void = el(&[0xEC], &[0; 5]);
    for file in [file_in_place(), bare.clone(), [void.clone(), ebml_header(), bare.clone()].concat()] {
        let m = Matroska::parse(&file).unwrap();
        assert_eq!(format!("{:?}", m), format!("{:?}", Matroska::parse(&bare).unwrap()));
        check_info(&m.info);
        check_tracks(&m.tracks);
    }
    // positions in a seek table count from the segment, wherever it starts
    let sought = file_with_seek_table()[header_len..].to_vec();
    let behind = [void.clone(), void.clone(), sought.clone()].concat();
    assert_eq!(
        format!("{:?}", Matroska::parse(&behind).unwrap()),
        format!("{:?}", Matroska::parse(&sought).unwrap())
    );
    // a file that fails fails behind leading elements too
    let mut cut = bare.clone();
    cut.truncate(cut.len() - 10);
    assert!(Matroska::parse(&cut).is_err());
    assert!(Matroska::parse(&[ebml_header(), cut].concat()).is_err());
}

#[test]
fn info_children_of_different_ids_can_come_in_any_order() {
    let scale = uint(&[0x2A, 0xD7, 0xB1], 1_000_000);
    let duration = el(&[0x44, 0x89], &2500.0f64.to_bits().to_be_bytes());
    let title = text(&[0x7B, 0xA9], "A Title");
    let apps = [text(&[0x4D, 0x80], "libebml"), text(&[0x57, 0x41], "mkvmerge")].concat();
    let date = el(&[0x44, 0x61], &1_000_000_000i64.to_be_bytes());
    let reordered = [duration, apps, title, date, scale].concat();
    let a = Info::parse(&info_body()).unwrap();
    let b = Info::parse(&reordered).unwrap();
    assert_eq!(format!("{:?}", a), format!("{:?}", b));
    check_info(&b);
    // the order among children of one ID does matter: the last one counts
    let two_titles = [text(&[0x7B, 0xA9], "first"), text(&[0x7B, 0xA9], "second")].concat();
    let swapped = [text(&[0x7B, 0xA9], "second"), text(&[0x7B, 0xA9], "first")].concat();
    assert_eq!(Info::parse(&two_titles).unwrap().title.as_deref(), Some("second"));
    assert_eq!(Info::parse(&swapped).unwrap().title.as_deref(), Some("first"));
}
