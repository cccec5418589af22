use matroska::ebml::{read_element_id, read_element_id_size, read_element_size};
use matroska::{Element, ElementType, FloatBits, MatroskaError};

/// The bytes of an element: its ID, its size as an eight-byte variable-size integer, its body.
fn el(id: &[u8], body: &[u8]) -> Vec<u8> {
    let mut v = id.to_vec();
    let n = body.len() as u64;
    v.push(0x01);
    for i in (0..7).rev() {
        v.push((n >> (8 * i)) as u8);
    }
    v.extend_from_slice(body);
    v
}

/// An element with a one-byte size.
fn el1(id: &[u8], body: &[u8]) -> Vec<u8> {
    assert!(body.len() < 127);
    let mut v = id.to_vec();
    v.push(0x80 | body.len() as u8);
    v.extend_from_slice(body);
    v
}

#[test]
fn reads_ids_of_each_length() {
    assert_eq!(read_element_id(&[0xAE], 0, 1), Ok((0xAE, 1)));
    assert_eq!(read_element_id(&[0x42, 0x82, 0x00], 0, 3), Ok((0x4282, 2)));
    assert_eq!(read_element_id(&[0x2A, 0xD7, 0xB1], 0, 3), Ok((0x2AD7B1, 3)));
    assert_eq!(read_element_id(&[0x1A, 0x45, 0xDF, 0xA3], 0, 4), Ok((0x1A45DFA3, 4)));
    assert_eq!(read_element_id(&[0x00, 0x1A, 0x45, 0xDF, 0xA3], 1, 5), Ok((0x1A45DFA3, 4)));
}

#[test]
fn rejects_ids_longer_than_four_bytes() {
    assert_eq!(read_element_id(&[0x08, 0, 0, 0, 0], 0, 5), Err(MatroskaError::InvalidId));
    assert_eq!(read_element_id(&[0x00], 0, 1), Err(MatroskaError::InvalidId));
}

#[test]
fn truncated_id_is_end_of_data() {
    assert_eq!(read_element_id(&[], 0, 0), Err(MatroskaError::UnexpectedEof));
    assert_eq!(read_element_id(&[0x1A, 0x45, 0xDF], 0, 3), Err(MatroskaError::UnexpectedEof));
    // the end given cuts the ID short even where the data goes on
    assert_eq!(read_element_id(&[0x1A, 0x45, 0xDF, 0xA3], 0, 2), Err(MatroskaError::UnexpectedEof));
}

#[test]
fn reads_sizes_without_their_marker() {
    assert_eq!(read_element_size(&[0x81], 0, 1), Ok((1, 1)));
    assert_eq!(read_element_size(&[0xFF], 0, 1), Ok((127, 1)));
    assert_eq!(read_element_size(&[0x40, 0x02], 0, 2), Ok((2, 2)));
    assert_eq!(read_element_size(&[0x41, 0x00], 0, 2), Ok((256, 2)));
    assert_eq!(read_element_size(&[0x20, 0x01, 0x00], 0, 3), Ok((256, 3)));
    assert_eq!(read_element_size(&[0x10, 0x12, 0x34, 0x56], 0, 4), Ok((0x123456, 4)));
    assert_eq!(
        read_element_size(&[0x01, 0xFF, 0xFF, 0xFF, 0xFF, 0xFF, 0xFF, 0xFF], 0, 8),
        Ok((0x00FF_FFFF_FFFF_FFFF, 8))
    );
    assert_eq!(read_element_size(&[0x01, 0, 0, 0, 0, 0, 0, 5], 0, 8), Ok((5, 8)));
}

#[test]
fn rejects_sizes_longer_than_eight_bytes() {
    assert_eq!(read_element_size(&[0x00, 1, 2, 3, 4, 5, 6, 7, 8], 0, 9), Err(MatroskaError::InvalidSize));
    assert_eq!(read_element_size(&[0x40], 0, 1), Err(MatroskaError::UnexpectedEof));
}

#[test]
fn reads_a_header() {
    let data = [0x18, 0x53, 0x80, 0x67, 0x42, 0x10, 0xFF];
    assert_eq!(read_element_id_size(&data, 0, 7), Ok((0x18538067, 0x210, 6)));
    assert_eq!(read_element_id_size(&data, 0, 5), Err(MatroskaError::UnexpectedEof));
}

#[test]
fn reads_values_by_kind() {
    let mut body = Vec::new();
    body.extend(el1(&[0xD7], &[0x01, 0x00])); // TrackNumber, unsigned
    body.extend(el1(&[0xB5], &48000.0f32.to_bits().to_be_bytes())); // SamplingFrequency, 4-byte float
    body.extend(el1(&[0x44, 0x89], &1234.5f64.to_bits().to_be_bytes())); // Duration, 8-byte float
    body.extend(el1(&[0x44, 0x61], &(-5i64).to_be_bytes())); // DateUTC
    body.extend(el1(&[0x7B, 0xA9], "Tëst".as_bytes())); // Title, UTF-8
    body.extend(el1(&[0x86], b"V_VP9")); // CodecID, ASCII
    body.extend(el1(&[0xEC], &[1, 2, 3])); // Void, raw bytes
    body.extend(el1(&[0xE0], &el1(&[0xB0], &[0x07, 0x80]))); // Video holding PixelWidth
    let es = Element::parse_master(&body).unwrap();
    assert_eq!(es.len(), 8);
    assert!(matches!(es[0].val, ElementType::UInt(256)));
    assert_eq!((es[0].id, es[0].size), (0xD7, 2));
    assert!(matches!(es[1].val, ElementType::Float(FloatBits::Single(b)) if f32::from_bits(b) == 48000.0));
    assert!(matches!(es[2].val, ElementType::Float(FloatBits::Double(b)) if f64::from_bits(b) == 1234.5));
    assert!(matches!(es[3].val, ElementType::Date(-5)));
    assert!(matches!(&es[4].val, ElementType::UTF8(s) if s == "Tëst"));
    assert!(matches!(&es[5].val, ElementType::String(s) if s == "V_VP9"));
    assert!(matches!(&es[6].val, ElementType::Binary(b) if b == &vec![1, 2, 3]));
    match &es[7].val {
        ElementType::Master(children) => {
            assert_eq!(children.len(), 1);
            assert_eq!(children[0].id, 0xB0);
            assert!(matches!(children[0].val, ElementType::UInt(1920)));
        }
        _ => panic!("Video is a master element"),
    }
}

#[test]
fn empty_values_read_as_zero() {
    let mut body = Vec::new();
    body.extend(el1(&[0xD7], &[]));
    body.extend(el1(&[0x44, 0x89], &[]));
    body.extend(el1(&[0x44, 0x61], &[]));
    body.extend(el1(&[0x7B, 0xA9], &[]));
    let es = Element::parse_master(&body).unwrap();
    assert!(matches!(es[0].val, ElementType::UInt(0)));
    assert!(matches!(es[1].val, ElementType::Float(FloatBits::Double(0))));
    assert!(matches!(es[2].val, ElementType::Date(0)));
    assert!(matches!(&es[3].val, ElementType::UTF8(s) if s.is_empty()));
}

#[test]
fn eight_byte_unsigned_integer() {
    let body = el1(&[0x73, 0xC5], &[0xFF; 8]);
    let es = Element::parse_master(&body).unwrap();
    assert!(matches!(es[0].val, ElementType::UInt(u64::MAX)));
}

#[test]
fn invalid_values_are_errors() {
    assert_eq!(Element::parse_master(&el1(&[0xD7], &[0; 9])).unwrap_err(), MatroskaError::InvalidUint);
    assert_eq!(Element::parse_master(&el1(&[0x44, 0x89], &[0; 3])).unwrap_err(), MatroskaError::InvalidFloat);
    assert_eq!(Element::parse_master(&el1(&[0x44, 0x61], &[0; 4])).unwrap_err(), MatroskaError::InvalidDate);
    assert_eq!(Element::parse_master(&el1(&[0x7B, 0xA9], &[0xFF, 0xFE])).unwrap_err(), MatroskaError::Utf8);
    assert_eq!(Element::parse_master(&el1(&[0x86], &[0xC3])).unwrap_err(), MatroskaError::Utf8);
}

#[test]
fn element_running_past_its_parent_is_an_error() {
    // a size of 5 with only 2 bytes of body left
    let body = [0xD7, 0x85, 0x01, 0x02];
    assert_eq!(Element::parse_master(&body).unwrap_err(), MatroskaError::InvalidSize);
    // a child running past the end of its master
    let inner = [0xD7, 0x83, 0x01];
    let outer = el1(&[0xE0], &inner);
    assert_eq!(Element::parse_master(&outer).unwrap_err(), MatroskaError::InvalidSize);
    // a header cut short by the end of the body
    assert_eq!(Element::parse_master(&[0x2A, 0xD7]).unwrap_err(), MatroskaError::UnexpectedEof);
}

#[test]
fn long_sizes_are_read_too() {
    let body = el(&[0xEC], &[9; 300]);
    let es = Element::parse_master(&body).unwrap();
    assert_eq!(es[0].size, 300);
    assert!(matches!(&es[0].val, ElementType::Binary(b) if b.len() == 300));
}

#[test]
fn master_body_is_its_elements_in_turn() {
    // reading two bodies written one after the other gives the elements of both, in order
    let a = [el1(&[0xD7], &[3]), el1(&[0xEC], &[])].concat();
    let b = el1(&[0x86], b"A_OPUS");
    let ab = [a.clone(), b.clone()].concat();
    let ea = Element::parse_master(&a).unwrap();
    let eb = Element::parse_master(&b).unwrap();
    let eab = Element::parse_master(&ab).unwrap();
    assert_eq!(eab.len(), ea.len() + eb.len());
    let ids: Vec<u32> = eab.iter().map(|e| e.id).collect();
    let expected: Vec<u32> = ea.iter().chain(eb.iter()).map(|e| e.id).collect();
    assert_eq!(ids, expected);
    assert!(Element::parse_master(&[]).unwrap().is_empty());
}
