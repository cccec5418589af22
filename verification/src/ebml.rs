//! EBML, the binary format that Matroska files are written in: variable-size integers,
//! element headers, element values and the tree of elements inside a master element.
use vstd::prelude::*;
use crate::ids::{ElementKind, kind_of, spec_kind_of};

verus! {

/// Errors in reading a Matroska file.
#[derive(Debug, Clone, Copy, PartialEq, Eq, Structural)]
pub enum MatroskaError {
    /// The data ended before the element being read.
    UnexpectedEof,
    /// An element ID whose first byte announces more than four bytes.
    InvalidId,
    /// An element size whose first byte announces more than eight bytes,
    /// or an element that runs past the end of the element that holds it.
    InvalidSize,
    /// An unsigned integer element longer than eight bytes.
    InvalidUint,
    /// A float element whose length is neither 0, 4 nor 8 bytes.
    InvalidFloat,
    /// A date element whose length is neither 0 nor 8 bytes.
    InvalidDate,
    /// A text element that is not valid UTF-8.
    Utf8,
    /// The seek table sent the reader to an element with another ID.
    UnexpectedElement { expected: u32, found: u32 },
    /// A file position computed from the seek table does not fit in 64 bits.
    PositionOverflow,
}

/// The bits of a floating-point element, as stored: a 32-bit or a 64-bit IEEE 754 number.
#[derive(Debug, Clone, Copy, PartialEq, Eq, Structural)]
pub enum FloatBits {
    Single(u32),
    Double(u64),
}

/// The value of an element, as a mathematical object.
pub enum ValueModel {
    UInt(u64),
    Float(FloatBits),
    Date(i64),
    Str(Seq<char>),
    Utf8(Seq<char>),
    Master(Seq<ElementModel>),
    Binary(Seq<u8>),
}

/// An element, as a mathematical object.
pub struct ElementModel {
    pub id: u32,
    pub size: u64,
    pub val: ValueModel,
}

/// The value of an element.
#[derive(Debug)]
pub enum ElementType {
    UInt(u64),
    Float(FloatBits),
    /// Nanoseconds since 2001-01-01T00:00:00 UTC.
    Date(i64),
    String(String),
    UTF8(String),
    Master(Vec<Element>),
    Binary(Vec<u8>),
}

/// An element: its ID, the size of its body in bytes, and its value.
#[derive(Debug)]
pub struct Element {
    pub id: u32,
    pub size: u64,
    pub val: ElementType,
}

/// The mathematical value of an element value.
pub open spec fn value_model(v: ElementType) -> ValueModel
    decreases v,
{
    match v {
        ElementType::UInt(u) => ValueModel::UInt(u),
        ElementType::Float(f) => ValueModel::Float(f),
        ElementType::Date(d) => ValueModel::Date(d),
        ElementType::String(s) => ValueModel::Str(s@),
        ElementType::UTF8(s) => ValueModel::Utf8(s@),
        ElementType::Master(children) => ValueModel::Master(models(children@)),
        ElementType::Binary(b) => ValueModel::Binary(b@),
    }
}

/// The mathematical values of a sequence of elements.
pub open spec fn models(es: Seq<Element>) -> Seq<ElementModel>
    decreases es,
{
    if es.len() == 0 {
        Seq::empty()
    } else {
        models(es.drop_last()).push(
            ElementModel { id: es.last().id, size: es.last().size, val: value_model(es.last().val) },
        )
    }
}

impl Element {
    /// The element as a mathematical object.
    pub open spec fn model(self) -> ElementModel {
        ElementModel { id: self.id, size: self.size, val: value_model(self.val) }
    }
}

pub proof fn lemma_models_push(es: Seq<Element>, e: Element)
    ensures
        models(es.push(e)) == models(es).push(e.model()),
{
    assert(es.push(e).drop_last() =~= es);
}

/// Extending a sequence of elements by one element, in terms of prefixes.
pub proof fn lemma_models_take(es: Seq<Element>, i: int)
    requires
        0 <= i < es.len(),
    ensures
        models(es.take(i + 1)) == models(es.take(i)).push(es[i].model()),
        models(es.take(i + 1)).drop_last() == models(es.take(i)),
        models(es.take(i + 1)).last() == es[i].model(),
{
    assert(es.take(i + 1) =~= es.take(i).push(es[i]));
    lemma_models_push(es.take(i), es[i]);
    assert(models(es.take(i + 1)).drop_last() =~= models(es.take(i)));
}

/// The number that a sequence of bytes writes in big-endian order.
pub open spec fn be_value(bytes: Seq<u8>) -> nat
    decreases bytes.len(),
{
    if bytes.len() == 0 {
        0
    } else {
        be_value(bytes.drop_last()) * 256 + bytes.last() as nat
    }
}

/// 256 to the power `n`.
pub open spec fn pow256(n: nat) -> nat
    decreases n,
{
    if n == 0 {
        1
    } else {
        256 * pow256((n - 1) as nat)
    }
}

pub proof fn lemma_be_value_bound(s: Seq<u8>)
    ensures
        be_value(s) < pow256(s.len()),
    decreases s.len(),
{
    if s.len() > 0 {
        lemma_be_value_bound(s.drop_last());
    }
}

pub proof fn lemma_pow256_mono(a: nat, b: nat)
    requires
        a <= b,
    ensures
        pow256(a) <= pow256(b),
    decreases b,
{
    if a < b {
        lemma_pow256_mono(a, (b - 1) as nat);
    }
}

/// A sequence of at most eight bytes writes a number that fits in 64 bits,
/// and one of at most four bytes a number that fits in 32 bits.
pub proof fn lemma_be_value_fits(s: Seq<u8>)
    requires
        s.len() <= 8,
    ensures
        be_value(s) <= u64::MAX,
        s.len() <= 4 ==> be_value(s) <= u32::MAX,
{
    lemma_be_value_bound(s);
    lemma_pow256_mono(s.len(), 8);
    if s.len() <= 4 {
        lemma_pow256_mono(s.len(), 4);
    }
    reveal_with_fuel(pow256, 9);
}

/// The length in bytes of a variable-size integer, read off its first byte: one more than
/// the number of zero bits before the first set bit (9 when the byte is zero).
pub open spec fn vint_length(first: u8) -> nat {
    if first >= 0x80 {
        1
    } else if first >= 0x40 {
        2
    } else if first >= 0x20 {
        3
    } else if first >= 0x10 {
        4
    } else if first >= 0x08 {
        5
    } else if first >= 0x04 {
        6
    } else if first >= 0x02 {
        7
    } else if first >= 0x01 {
        8
    } else {
        9
    }
}

/// The length marker of a variable-size integer of `len` bytes: the set bit of the first
/// byte that ends the leading zeros.
pub open spec fn vint_marker(len: nat) -> u8 {
    if len == 1 {
        0x80
    } else if len == 2 {
        0x40
    } else if len == 3 {
        0x20
    } else if len == 4 {
        0x10
    } else if len == 5 {
        0x08
    } else if len == 6 {
        0x04
    } else if len == 7 {
        0x02
    } else {
        0x01
    }
}

/// An element ID at the start of `s`, and its length in bytes: one to four bytes,
/// read big-endian with the length marker kept.
pub open spec fn spec_read_id(s: Seq<u8>) -> Result<(u32, nat), MatroskaError> {
    if s.len() == 0 {
        Err(MatroskaError::UnexpectedEof)
    } else if vint_length(s[0]) > 4 {
        Err(MatroskaError::InvalidId)
    } else if s.len() < vint_length(s[0]) {
        Err(MatroskaError::UnexpectedEof)
    } else {
        Ok((be_value(s.take(vint_length(s[0]) as int)) as u32, vint_length(s[0])))
    }
}

/// An element size at the start of `s`, and its length in bytes: one to eight bytes,
/// read big-endian once the length marker is cleared from the first byte.
pub open spec fn spec_read_size(s: Seq<u8>) -> Result<(u64, nat), MatroskaError> {
    if s.len() == 0 {
        Err(MatroskaError::UnexpectedEof)
    } else if vint_length(s[0]) > 8 {
        Err(MatroskaError::InvalidSize)
    } else if s.len() < vint_length(s[0]) {
        Err(MatroskaError::UnexpectedEof)
    } else {
        let n = vint_length(s[0]);
        Ok(
            (
                be_value(seq![(s[0] - vint_marker(n)) as u8] + s.subrange(1, n as int)) as u64,
                n,
            ),
        )
    }
}

/// An element header at the start of `s`: the element's ID, the size of its body, and the
/// length of the header in bytes.
pub open spec fn spec_read_header(s: Seq<u8>) -> Result<(u32, u64, nat), MatroskaError> {
    match spec_read_id(s) {
        Err(e) => Err(e),
        Ok((id, n1)) => match spec_read_size(s.skip(n1 as int)) {
            Err(e) => Err(e),
            Ok((size, n2)) => Ok((id, size, n1 + n2)),
        },
    }
}

pub proof fn lemma_header_len(s: Seq<u8>)
    ensures
        spec_read_header(s) matches Ok((id, size, n)) ==> 2 <= n <= 12 && n <= s.len(),
{
}

fn vint_length_of(first: u8) -> (n: usize)
    ensures
        n == vint_length(first),
{
    if first >= 0x80 {
        1
    } else if first >= 0x40 {
        2
    } else if first >= 0x20 {
        3
    } else if first >= 0x10 {
        4
    } else if first >= 0x08 {
        5
    } else if first >= 0x04 {
        6
    } else if first >= 0x02 {
        7
    } else if first >= 0x01 {
        8
    } else {
        9
    }
}

fn vint_marker_of(len: usize) -> (m: u8)
    ensures
        m == vint_marker(len as nat),
{
    if len == 1 {
        0x80
    } else if len == 2 {
        0x40
    } else if len == 3 {
        0x20
    } else if len == 4 {
        0x10
    } else if len == 5 {
        0x08
    } else if len == 6 {
        0x04
    } else if len == 7 {
        0x02
    } else {
        0x01
    }
}

/// Reads `len` bytes at `start` as a big-endian number, the first byte taken as `first`.
fn read_be(data: &[u8], start: usize, len: usize, first: u8) -> (v: u64)
    requires
        1 <= len <= 8,
        start + len <= data.len(),
    ensures
        v == be_value(seq![first] + data@.subrange(start + 1, start + len)),
{
    let mut v: u64 = first as u64;
    let mut i: usize = 1;
    proof {
        assert(seq![first] + data@.subrange(start + 1, start + 1) =~= seq![first]);
        assert(seq![first].drop_last() =~= Seq::<u8>::empty());
        assert(be_value(Seq::<u8>::empty()) == 0);
        assert(be_value(seq![first]) == first);
    }
    while i < len
        invariant
            1 <= i <= len,
            len <= 8,
            start + len <= data.len(),
            v == be_value(seq![first] + data@.subrange(start + 1, start + i)),
        decreases len - i,
    {
        proof {
            let t = seq![first] + data@.subrange(start + 1, start + i + 1);
            assert(t.drop_last() =~= seq![first] + data@.subrange(start + 1, start + i));
            assert(t.last() == data@[start + i]);
            lemma_be_value_fits(t);
        }
        v = v * 256 + data[start + i] as u64;
        i += 1;
    }
    v
}

/// Reads the element ID that starts at `pos`, within the bytes before `end`.
/// Returns the ID and its length in bytes.
pub fn read_element_id(data: &[u8], pos: usize, end: usize) -> (res: Result<(u32, usize), MatroskaError>)
    requires
        pos <= end <= data.len(),
    ensures
        match spec_read_id(data@.subrange(pos as int, end as int)) {
            Ok((id, n)) => res == Ok::<(u32, usize), MatroskaError>((id, n as usize)),
            Err(e) => res == Err::<(u32, usize), MatroskaError>(e),
        },
{
    let ghost s = data@.subrange(pos as int, end as int);
    if pos == end {
        return Err(MatroskaError::UnexpectedEof);
    }
    let n = vint_length_of(data[pos]);
    if n > 4 {
        return Err(MatroskaError::InvalidId);
    }
    if end - pos < n {
        return Err(MatroskaError::UnexpectedEof);
    }
    let v = read_be(data, pos, n, data[pos]);
    proof {
        assert(seq![data@[pos as int]] + data@.subrange(pos + 1, pos + n) =~= s.take(n as int));
        lemma_be_value_fits(s.take(n as int));
    }
    Ok((v as u32, n))
}

/// Reads the element size that starts at `pos`, within the bytes before `end`.
/// Returns the size and its length in bytes.
pub fn read_element_size(data: &[u8], pos: usize, end: usize) -> (res: Result<(u64, usize), MatroskaError>)
    requires
        pos <= end <= data.len(),
    ensures
        match spec_read_size(data@.subrange(pos as int, end as int)) {
            Ok((size, n)) => res == Ok::<(u64, usize), MatroskaError>((size, n as usize)),
            Err(e) => res == Err::<(u64, usize), MatroskaError>(e),
        },
{
    let ghost s = data@.subrange(pos as int, end as int);
    if pos == end {
        return Err(MatroskaError::UnexpectedEof);
    }
    let n = vint_length_of(data[pos]);
    if n > 8 {
        return Err(MatroskaError::InvalidSize);
    }
    if end - pos < n {
        return Err(MatroskaError::UnexpectedEof);
    }
    let marker = vint_marker_of(n);
    let v = read_be(data, pos, n, data[pos] - marker);
    proof {
        assert(data@.subrange(pos + 1, pos + n) =~= s.subrange(1, n as int));
        lemma_be_value_fits(seq![(s[0] - marker) as u8] + s.subrange(1, n as int));
    }
    Ok((v, n))
}

/// Reads the element header that starts at `pos`, within the bytes before `end`.
/// Returns the element's ID, the size of its body and the length of the header.
pub fn read_element_id_size(data: &[u8], pos: usize, end: usize) -> (res: Result<
    (u32, u64, usize),
    MatroskaError,
>)
    requires
        pos <= end <= data.len(),
    ensures
        match spec_read_header(data@.subrange(pos as int, end as int)) {
            Ok((id, size, n)) => res == Ok::<(u32, u64, usize), MatroskaError>((id, size, n as usize)),
            Err(e) => res == Err::<(u32, u64, usize), MatroskaError>(e),
        },
{
    let ghost s = data@.subrange(pos as int, end as int);
    let (id, n1) = match read_element_id(data, pos, end) {
        Ok(r) => r,
        Err(e) => return Err(e),
    };
    let (size, n2) = match read_element_size(data, pos + n1, end) {
        Ok(r) => r,
        Err(e) => {
            proof {
                assert(data@.subrange(pos + n1, end as int) =~= s.skip(n1 as int));
            }
            return Err(e);
        },
    };
    proof {
        assert(data@.subrange(pos + n1, end as int) =~= s.skip(n1 as int));
    }
    Ok((id, size, n1 + n2))
}

/// The value of an element of the given kind, read from its body. A master element's
/// value is read by [`spec_parse_body`].
pub open spec fn spec_decode(kind: ElementKind, body: Seq<u8>) -> Result<ValueModel, MatroskaError> {
    match kind {
        ElementKind::UInt => if body.len() <= 8 {
            Ok(ValueModel::UInt(be_value(body) as u64))
        } else {
            Err(MatroskaError::InvalidUint)
        },
        ElementKind::Float => if body.len() == 0 {
            Ok(ValueModel::Float(FloatBits::Double(0)))
        } else if body.len() == 4 {
            Ok(ValueModel::Float(FloatBits::Single(be_value(body) as u32)))
        } else if body.len() == 8 {
            Ok(ValueModel::Float(FloatBits::Double(be_value(body) as u64)))
        } else {
            Err(MatroskaError::InvalidFloat)
        },
        ElementKind::Date => if body.len() == 0 {
            Ok(ValueModel::Date(0))
        } else if body.len() == 8 {
            Ok(ValueModel::Date((be_value(body) as u64) as i64))
        } else {
            Err(MatroskaError::InvalidDate)
        },
        ElementKind::String => if vstd::utf8::valid_utf8(body) {
            Ok(ValueModel::Str(vstd::utf8::decode_utf8(body)))
        } else {
            Err(MatroskaError::Utf8)
        },
        ElementKind::UTF8 => if vstd::utf8::valid_utf8(body) {
            Ok(ValueModel::Utf8(vstd::utf8::decode_utf8(body)))
        } else {
            Err(MatroskaError::Utf8)
        },
        ElementKind::Binary => Ok(ValueModel::Binary(body)),
        ElementKind::Master => Ok(ValueModel::Binary(body)),
    }
}

/// The value of the element with ID `id` whose body is `body`.
pub open spec fn spec_parse_body(id: u32, body: Seq<u8>) -> Result<ValueModel, MatroskaError>
    decreases body.len(), 1nat,
{
    if spec_kind_of(id) == ElementKind::Master {
        match spec_parse_master(body) {
            Ok(es) => Ok(ValueModel::Master(es)),
            Err(e) => Err(e),
        }
    } else {
        spec_decode(spec_kind_of(id), body)
    }
}

/// The elements that `s` holds, one after the other, until it ends. Each element is a
/// header followed by a body of the size the header gives, which must lie within `s`.
pub open spec fn spec_parse_master(s: Seq<u8>) -> Result<Seq<ElementModel>, MatroskaError>
    decreases s.len(), 0nat,
{
    if s.len() == 0 {
        Ok(Seq::empty())
    } else {
        match spec_read_header(s) {
            Err(e) => Err(e),
            Ok((id, size, n)) => if size > s.len() - n {
                Err(MatroskaError::InvalidSize)
            } else {
                match spec_parse_body(id, s.subrange(n as int, n + size)) {
                    Err(e) => Err(e),
                    Ok(v) => match spec_parse_master(s.skip(n + size)) {
                        Err(e) => Err(e),
                        Ok(rest) => Ok(seq![ElementModel { id, size, val: v }] + rest),
                    },
                }
            },
        }
    }
}

/// `acc` put in front of the elements of `r`, when `r` holds elements.
pub open spec fn prepend(acc: Seq<ElementModel>, r: Result<Seq<ElementModel>, MatroskaError>) -> Result<
    Seq<ElementModel>,
    MatroskaError,
> {
    match r {
        Ok(rest) => Ok(acc + rest),
        Err(e) => Err(e),
    }
}

/// `res` holds the value that `spec` describes, or the same error.
pub open spec fn value_result_matches(
    res: Result<ElementType, MatroskaError>,
    spec: Result<ValueModel, MatroskaError>,
) -> bool {
    match spec {
        Ok(v) => res matches Ok(t) && value_model(t) == v,
        Err(e) => res == Err::<ElementType, MatroskaError>(e),
    }
}

/// `res` holds the elements that `spec` describes, or the same error.
pub open spec fn elements_result_matches(
    res: Result<Vec<Element>, MatroskaError>,
    spec: Result<Seq<ElementModel>, MatroskaError>,
) -> bool {
    match spec {
        Ok(es) => res matches Ok(v) && models(v@) == es,
        Err(e) => res == Err::<Vec<Element>, MatroskaError>(e),
    }
}

/// Copies the bytes from `start` to `end`.
fn copy_bytes(data: &[u8], start: usize, end: usize) -> (v: Vec<u8>)
    requires
        start <= end <= data.len(),
    ensures
        v@ == data@.subrange(start as int, end as int),
{
    let mut v: Vec<u8> = Vec::with_capacity(end - start);
    let mut i = start;
    while i < end
        invariant
            start <= i <= end <= data.len(),
            v@ == data@.subrange(start as int, i as int),
        decreases end - i,
    {
        v.push(data[i]);
        i += 1;
        proof {
            assert(v@ =~= data@.subrange(start as int, i as int));
        }
    }
    v
}

/// Decodes the text held in `bytes`, or gives `None` where they are not UTF-8.
#[verifier::external_body]
fn utf8_string(bytes: Vec<u8>) -> (res: Option<String>)
    ensures
        res is Some <==> vstd::utf8::valid_utf8(bytes@),
        res matches Some(s) ==> s@ == vstd::utf8::decode_utf8(bytes@),
{
    String::from_utf8(bytes).ok()
}

/// Reads the body from `start` to `end` as a value of the given kind, other than master.
fn decode_value(kind: ElementKind, data: &[u8], start: usize, end: usize) -> (res: Result<
    ElementType,
    MatroskaError,
>)
    requires
        start <= end <= data.len(),
        kind != ElementKind::Master,
    ensures
        value_result_matches(res, spec_decode(kind, data@.subrange(start as int, end as int))),
{
    let ghost body = data@.subrange(start as int, end as int);
    let len = end - start;
    proof {
        if len > 0 {
            assert(seq![data@[start as int]] + data@.subrange(start + 1, start + len) =~= body);
        }
        assert(body.len() == 0 ==> body =~= Seq::<u8>::empty());
        assert(be_value(Seq::<u8>::empty()) == 0);
        if len <= 8 {
            lemma_be_value_fits(body);
        }
    }
    match kind {
        ElementKind::UInt => {
            if len > 8 {
                Err(MatroskaError::InvalidUint)
            } else if len == 0 {
                Ok(ElementType::UInt(0))
            } else {
                Ok(ElementType::UInt(read_be(data, start, len, data[start])))
            }
        },
        ElementKind::Float => {
            if len == 0 {
                Ok(ElementType::Float(FloatBits::Double(0)))
            } else if len == 4 {
                let v = read_be(data, start, len, data[start]);
                Ok(ElementType::Float(FloatBits::Single(v as u32)))
            } else if len == 8 {
                Ok(ElementType::Float(FloatBits::Double(read_be(data, start, len, data[start]))))
            } else {
                Err(MatroskaError::InvalidFloat)
            }
        },
        ElementKind::Date => {
            if len == 0 {
                Ok(ElementType::Date(0))
            } else if len == 8 {
                let v = read_be(data, start, len, data[start]);
                Ok(ElementType::Date(v as i64))
            } else {
                Err(MatroskaError::InvalidDate)
            }
        },
        ElementKind::String => {
            match utf8_string(copy_bytes(data, start, end)) {
                Some(s) => Ok(ElementType::String(s)),
                None => Err(MatroskaError::Utf8),
            }
        },
        ElementKind::UTF8 => {
            match utf8_string(copy_bytes(data, start, end)) {
                Some(s) => Ok(ElementType::UTF8(s)),
                None => Err(MatroskaError::Utf8),
            }
        },
        _ => Ok(ElementType::Binary(copy_bytes(data, start, end))),
    }
}

/// Reads the body from `start` to `end` as the value of an element with ID `id`.
fn parse_body(id: u32, data: &[u8], start: usize, end: usize) -> (res: Result<
    ElementType,
    MatroskaError,
>)
    requires
        start <= end <= data.len(),
    ensures
        value_result_matches(res, spec_parse_body(id, data@.subrange(start as int, end as int))),
    decreases end - start, 1nat,
{
    let kind = kind_of(id);
    match kind {
        ElementKind::Master => match parse_master_in(data, start, end) {
            Ok(children) => Ok(ElementType::Master(children)),
            Err(e) => Err(e),
        },
        _ => decode_value(kind, data, start, end),
    }
}

/// Reads the elements that lie one after the other from `start` to `end`.
fn parse_master_in(data: &[u8], start: usize, end: usize) -> (res: Result<
    Vec<Element>,
    MatroskaError,
>)
    requires
        start <= end <= data.len(),
    ensures
        elements_result_matches(res, spec_parse_master(data@.subrange(start as int, end as int))),
    decreases end - start, 0nat,
{
    let mut elements: Vec<Element> = Vec::new();
    let mut pos = start;
    proof {
        assert(models(elements@) =~= Seq::<ElementModel>::empty());
        assert(Seq::<ElementModel>::empty() + Seq::<ElementModel>::empty() =~= Seq::<ElementModel>::empty());
    }
    while pos < end
        invariant
            start <= pos <= end <= data.len(),
            spec_parse_master(data@.subrange(start as int, end as int)) == prepend(
                models(elements@),
                spec_parse_master(data@.subrange(pos as int, end as int)),
            ),
        decreases end - pos,
    {
        let ghost s = data@.subrange(pos as int, end as int);
        let (id, size, n) = match read_element_id_size(data, pos, end) {
            Ok(h) => h,
            Err(e) => return Err(e),
        };
        proof {
            lemma_header_len(s);
        }
        if size > (end - pos - n) as u64 {
            return Err(MatroskaError::InvalidSize);
        }
        let body_end = pos + n + size as usize;
        proof {
            assert(s.subrange(n as int, n + size) =~= data@.subrange(pos + n, body_end as int));
            assert(s.skip(n + size) =~= data@.subrange(body_end as int, end as int));
        }
        let val = match parse_body(id, data, pos + n, body_end) {
            Ok(v) => v,
            Err(e) => return Err(e),
        };
        let ghost e_model = ElementModel { id, size, val: value_model(val) };
        let ghost old_elements = elements@;
        elements.push(Element { id, size, val });
        proof {
            lemma_models_push(old_elements, Element { id, size, val });
            match spec_parse_master(data@.subrange(body_end as int, end as int)) {
                Ok(rest) => {
                    assert(models(old_elements) + (seq![e_model] + rest) =~= models(elements@) + rest);
                },
                Err(_) => {},
            }
        }
        pos = body_end;
    }
    proof {
        assert(data@.subrange(pos as int, end as int) =~= Seq::<u8>::empty());
        assert(models(elements@) + Seq::<ElementModel>::empty() =~= models(elements@));
    }
    Ok(elements)
}

impl Element {
    /// Reads the elements that `data` holds one after the other, as in the body of a master
    /// element.
    pub fn parse_master(data: &[u8]) -> (res: Result<Vec<Element>, MatroskaError>)
        ensures
            elements_result_matches(res, spec_parse_master(data@)),
    {
        proof {
            assert(data@.subrange(0, data@.len() as int) =~= data@);
        }
        parse_master_in(data, 0, data.len())
    }
}

proof fn lemma_read_header_prefix(a: Seq<u8>, b: Seq<u8>)
    requires
        spec_read_header(a) is Ok,
    ensures
        spec_read_header(a + b) == spec_read_header(a),
{
    let n1 = vint_length(a[0]);
    assert((a + b)[0] == a[0]);
    assert((a + b).take(n1 as int) =~= a.take(n1 as int));
    let rest = a.skip(n1 as int);
    assert((a + b).skip(n1 as int) =~= rest + b);
    let n2 = vint_length(rest[0]);
    assert((rest + b)[0] == rest[0]);
    assert((rest + b).subrange(1, n2 as int) =~= rest.subrange(1, n2 as int));
}

/// A master element's body is its elements one after the other: reading two bodies
/// written one after the other gives the elements of the first, then those of the second.
pub proof fn lemma_parse_master_concat(a: Seq<u8>, b: Seq<u8>)
    ensures
        spec_parse_master(a) matches Ok(x) ==> spec_parse_master(b) matches Ok(y)
            ==> spec_parse_master(a + b) == Ok::<Seq<ElementModel>, MatroskaError>(x + y),
    decreases a.len(),
{
    if let Ok(x) = spec_parse_master(a) {
        if let Ok(y) = spec_parse_master(b) {
            if a.len() == 0 {
                assert(a + b =~= b);
                assert(x + y =~= y);
            } else {
                lemma_read_header_prefix(a, b);
                lemma_header_len(a);
                let (id, size, n) = spec_read_header(a)->Ok_0;
                assert((a + b).subrange(n as int, n + size) =~= a.subrange(n as int, n + size));
                assert((a + b).skip(n + size) =~= a.skip(n + size) + b);
                lemma_parse_master_concat(a.skip(n + size), b);
                let e = ElementModel { id, size, val: spec_parse_body(id, a.subrange(n as int, n + size))->Ok_0 };
                let ra = spec_parse_master(a.skip(n + size))->Ok_0;
                assert(seq![e] + ra + y =~= seq![e] + (ra + y));
            }
        }
    }
}

/// A header is read from its own bytes only: other bytes with the same beginning, as long
/// as the header, hold the same header.
pub proof fn lemma_read_header_stable(s: Seq<u8>, t: Seq<u8>)
    requires
        spec_read_header(s) is Ok,
        spec_read_header(s)->Ok_0.2 <= t.len(),
        t.take(spec_read_header(s)->Ok_0.2 as int) == s.take(spec_read_header(s)->Ok_0.2 as int),
    ensures
        spec_read_header(t) == spec_read_header(s),
{
    let n = spec_read_header(s)->Ok_0.2 as int;
    lemma_header_len(s);
    assert forall|i: int| 0 <= i < n implies t[i] == s[i] by {
        assert(t.take(n)[i] == s.take(n)[i]);
    }
    let n1 = vint_length(s[0]) as int;
    assert(t.take(n1) =~= s.take(n1));
    let rs = s.skip(n1);
    let rt = t.skip(n1);
    assert(rt[0] == rs[0]);
    let n2 = vint_length(rs[0]) as int;
    assert(rt.subrange(1, n2) =~= rs.subrange(1, n2));
}

/// The `n` bytes that write `v` in big-endian order, the higher bytes that do not fit
/// left out.
pub open spec fn be_bytes(v: nat, n: nat) -> Seq<u8>
    decreases n,
{
    if n == 0 {
        Seq::empty()
    } else {
        be_bytes(v / 256, (n - 1) as nat).push((v % 256) as u8)
    }
}

/// Bytes read back as written: the `n` big-endian bytes of `v` read as `v`, once the part
/// of it that does not fit in `n` bytes is left out.
pub proof fn lemma_be_round_trip(v: nat, n: nat)
    ensures
        be_bytes(v, n).len() == n,
        be_value(be_bytes(v, n)) == v % pow256(n),
    decreases n,
{
    if n > 0 {
        lemma_be_round_trip(v / 256, (n - 1) as nat);
        assert(be_bytes(v, n).drop_last() =~= be_bytes(v / 256, (n - 1) as nat));
        lemma_pow256_mono(0, (n - 1) as nat);
        vstd::arithmetic::div_mod::lemma_breakdown(v as int, 256, pow256((n - 1) as nat) as int);
    }
}

/// An unsigned integer element reads its body as a big-endian number of up to eight bytes:
/// a number written in `n` such bytes reads back as itself, an empty body as zero, and a
/// body longer than eight bytes is an error.
pub proof fn lemma_decode_uint(v: u64, n: nat)
    requires
        n <= 8,
        v < pow256(n),
    ensures
        spec_decode(ElementKind::UInt, be_bytes(v as nat, n)) == Ok::<ValueModel, MatroskaError>(ValueModel::UInt(v)),
        forall|body: Seq<u8>| body.len() > 8 ==> #[trigger] spec_decode(ElementKind::UInt, body)
            == Err::<ValueModel, MatroskaError>(MatroskaError::InvalidUint),
{
    lemma_be_round_trip(v as nat, n);
    vstd::arithmetic::div_mod::lemma_small_mod(v as nat, pow256(n));
}

/// A float element keeps the bits of its body, read big-endian: four bytes are a single-
/// and eight bytes a double-precision float, an empty body is 0.0, and a body of any other
/// length is an error.
pub proof fn lemma_decode_float(single: u32, double: u64)
    ensures
        spec_decode(ElementKind::Float, be_bytes(single as nat, 4)) == Ok::<ValueModel, MatroskaError>(
            ValueModel::Float(FloatBits::Single(single)),
        ),
        spec_decode(ElementKind::Float, be_bytes(double as nat, 8)) == Ok::<ValueModel, MatroskaError>(
            ValueModel::Float(FloatBits::Double(double)),
        ),
        spec_decode(ElementKind::Float, Seq::empty()) == Ok::<ValueModel, MatroskaError>(
            ValueModel::Float(FloatBits::Double(0)),
        ),
        forall|body: Seq<u8>| body.len() != 0 && body.len() != 4 && body.len() != 8
            ==> #[trigger] spec_decode(ElementKind::Float, body) == Err::<ValueModel, MatroskaError>(
            MatroskaError::InvalidFloat,
        ),
{
    lemma_be_round_trip(single as nat, 4);
    lemma_be_round_trip(double as nat, 8);
    reveal_with_fuel(pow256, 9);
    vstd::arithmetic::div_mod::lemma_small_mod(single as nat, pow256(4));
    vstd::arithmetic::div_mod::lemma_small_mod(double as nat, pow256(8));
}

/// A date element reads its eight-byte body as a signed big-endian number of nanoseconds:
/// the bytes of a date read back as that date, an empty body is the epoch, and a body of
/// any other length is an error.
pub proof fn lemma_decode_date(d: i64)
    ensures
        spec_decode(ElementKind::Date, be_bytes((d as u64) as nat, 8)) == Ok::<ValueModel, MatroskaError>(
            ValueModel::Date(d),
        ),
        spec_decode(ElementKind::Date, Seq::empty()) == Ok::<ValueModel, MatroskaError>(ValueModel::Date(0)),
        forall|body: Seq<u8>| body.len() != 0 && body.len() != 8 ==> #[trigger] spec_decode(ElementKind::Date, body)
            == Err::<ValueModel, MatroskaError>(MatroskaError::InvalidDate),
{
    let u = d as u64;
    lemma_be_round_trip(u as nat, 8);
    reveal_with_fuel(pow256, 9);
    vstd::arithmetic::div_mod::lemma_small_mod(u as nat, pow256(8));
    assert((u as i64) == d) by (bit_vector)
        requires
            u == d as u64,
    ;
}

/// `v` is a value of the kind `kind`.
pub open spec fn has_kind(v: ValueModel, kind: ElementKind) -> bool {
    match kind {
        ElementKind::UInt => v is UInt,
        ElementKind::Float => v is Float,
        ElementKind::Date => v is Date,
        ElementKind::String => v is Str,
        ElementKind::UTF8 => v is Utf8,
        ElementKind::Master => v is Master,
        ElementKind::Binary => v is Binary,
    }
}

/// A body read for an element ID gives a value of the kind that ID carries.
proof fn lemma_parse_body_kind(id: u32, body: Seq<u8>)
    ensures
        spec_parse_body(id, body) matches Ok(v) ==> has_kind(v, spec_kind_of(id)),
{
}

/// Every element read from a master element's body holds a value of the kind its ID
/// carries.
pub proof fn lemma_parse_master_kinds(s: Seq<u8>)
    ensures
        spec_parse_master(s) matches Ok(es) ==> forall|k: int| 0 <= k < es.len()
            ==> has_kind(#[trigger] es[k].val, spec_kind_of(es[k].id)),
    decreases s.len(),
{
    if s.len() > 0 {
        lemma_header_len(s);
        if let Ok((id, size, n)) = spec_read_header(s) {
            if size <= s.len() - n {
                lemma_parse_master_kinds(s.skip(n + size));
                if let Ok(es) = spec_parse_master(s) {
                    let rest = spec_parse_master(s.skip(n + size))->Ok_0;
                    assert forall|k: int| 0 <= k < es.len() implies has_kind(#[trigger] es[k].val, spec_kind_of(es[k].id)) by {
                        if k > 0 {
                            assert(es[k] == rest[k - 1]);
                        } else {
                            lemma_parse_body_kind(id, s.subrange(n as int, n + size));
                        }
                    }
                }
            }
        }
    }
}

/// A byte put in front of others is the highest digit of the number they write.
proof fn lemma_be_value_prepend(b: u8, t: Seq<u8>)
    ensures
        be_value(seq![b] + t) == b * pow256(t.len()) + be_value(t),
    decreases t.len(),
{
    let s = seq![b] + t;
    if t.len() == 0 {
        assert(s.drop_last() =~= Seq::<u8>::empty());
        assert(s.last() == b);
        assert(be_value(s) == be_value(s.drop_last()) * 256 + b);
        assert(be_value(Seq::<u8>::empty()) == 0);
        assert(pow256(0) == 1);
        assert(b * pow256(0) == b) by (nonlinear_arith)
            requires
                pow256(0) == 1,
        ;
    } else {
        assert(s.drop_last() =~= seq![b] + t.drop_last());
        lemma_be_value_prepend(b, t.drop_last());
        let p = pow256(t.drop_last().len());
        let x = be_value(t.drop_last());
        assert(s.last() == t.last());
        assert(pow256(t.len()) == 256 * p);
        assert(be_value(t) == x * 256 + t.last());
        assert((b * p + x) * 256 == b * (256 * p) + x * 256) by (nonlinear_arith);
        assert(be_value(s) == be_value(s.drop_last()) * 256 + s.last());
        assert(be_value(s.drop_last()) == b * p + x);
    }
}

/// The `n` big-endian bytes of a number that lies between the length marker of `n` bytes
/// and twice it, in units of the lower `n - 1` bytes: their first byte announces `n` bytes,
/// and they read back as the number.
proof fn lemma_marked_bytes(x: nat, n: nat)
    requires
        1 <= n <= 8,
        vint_marker(n) * pow256((n - 1) as nat) <= x < 2 * vint_marker(n) * pow256((n - 1) as nat),
    ensures
        be_bytes(x, n).len() == n,
        vint_length(be_bytes(x, n)[0]) == n,
        be_value(be_bytes(x, n)) == x,
        be_bytes(x, n)[0] * pow256((n - 1) as nat) + be_value(be_bytes(x, n).subrange(1, n as int)) == x,
{
    let b = be_bytes(x, n);
    let m = vint_marker(n) as int;
    let p = pow256((n - 1) as nat) as int;
    lemma_be_round_trip(x, n);
    assert(pow256(n) == 256 * p);
    assert(m <= 128);
    assert(2 * m * p <= 256 * p) by (nonlinear_arith)
        requires
            m <= 128,
            p >= 0,
    ;
    vstd::arithmetic::div_mod::lemma_small_mod(x, pow256(n));
    let tail = b.subrange(1, n as int);
    assert(b =~= seq![b[0]] + tail);
    lemma_be_value_prepend(b[0], tail);
    lemma_be_value_bound(tail);
    let f = b[0] as int;
    let t = be_value(tail) as int;
    assert(m <= f < 2 * m) by (nonlinear_arith)
        requires
            f * p + t == x,
            0 <= t < p,
            m * p <= x < 2 * m * p,
    ;
}

/// The `n` bytes that write the element size `v`: big-endian, with the length marker of
/// `n` bytes set in the first of them.
pub open spec fn size_bytes(v: nat, n: nat) -> Seq<u8> {
    be_bytes((v + vint_marker(n) * pow256((n - 1) as nat)) as nat, n)
}

/// A size written in `n` bytes, from one to eight, reads back as itself whatever follows
/// it, for every size that `n` bytes can hold.
pub proof fn lemma_size_round_trip(v: u64, n: nat, rest: Seq<u8>)
    requires
        1 <= n <= 8,
        v < vint_marker(n) * pow256((n - 1) as nat),
    ensures
        spec_read_size(size_bytes(v as nat, n) + rest) == Ok::<(u64, nat), MatroskaError>((v, n)),
{
    let m = vint_marker(n) as int;
    let p = pow256((n - 1) as nat) as int;
    let x = (v + m * p) as nat;
    assert(2 * m * p == m * p + m * p) by (nonlinear_arith);
    lemma_marked_bytes(x, n);
    let b = be_bytes(x, n);
    let s = b + rest;
    assert(s[0] == b[0]);
    assert(s.subrange(1, n as int) =~= b.subrange(1, n as int));
    lemma_be_value_prepend((s[0] - vint_marker(n)) as u8, s.subrange(1, n as int));
    assert((b[0] - m) * p == b[0] * p - m * p) by (nonlinear_arith);
}

/// An element ID written as its big-endian bytes, from one to four of them with the
/// length marker of that many bytes in the first, reads back as itself whatever follows it.
pub proof fn lemma_id_round_trip(id: u32, n: nat, rest: Seq<u8>)
    requires
        1 <= n <= 4,
        vint_marker(n) * pow256((n - 1) as nat) <= id < 2 * vint_marker(n) * pow256((n - 1) as nat),
    ensures
        spec_read_id(be_bytes(id as nat, n) + rest) == Ok::<(u32, nat), MatroskaError>((id, n)),
{
    lemma_marked_bytes(id as nat, n);
    let b = be_bytes(id as nat, n);
    let s = b + rest;
    assert(s[0] == b[0]);
    assert(s.take(n as int) =~= b);
}

/// An element header written as an ID in `n1` bytes followed by a size in `n2` bytes reads
/// back as that ID and size, `n1 + n2` bytes long, whatever follows it.
pub proof fn lemma_header_round_trip(id: u32, n1: nat, size: u64, n2: nat, rest: Seq<u8>)
    requires
        1 <= n1 <= 4,
        vint_marker(n1) * pow256((n1 - 1) as nat) <= id < 2 * vint_marker(n1) * pow256((n1 - 1) as nat),
        1 <= n2 <= 8,
        size < vint_marker(n2) * pow256((n2 - 1) as nat),
    ensures
        spec_read_header(be_bytes(id as nat, n1) + size_bytes(size as nat, n2) + rest)
            == Ok::<(u32, u64, nat), MatroskaError>((id, size, n1 + n2)),
{
    let ib = be_bytes(id as nat, n1);
    let sb = size_bytes(size as nat, n2);
    let s = ib + sb + rest;
    lemma_marked_bytes(id as nat, n1);
    assert(s =~= ib + (sb + rest));
    lemma_id_round_trip(id, n1, sb + rest);
    assert(s.skip(n1 as int) =~= sb + rest);
    lemma_size_round_trip(size, n2, rest);
}

/// The sizes that `n` bytes can write, from one to eight, all fit in 64 bits.
proof fn lemma_size_limit(n: nat)
    requires
        1 <= n <= 8,
    ensures
        vint_marker(n) * pow256((n - 1) as nat) <= u64::MAX,
{
    reveal_with_fuel(pow256, 8);
    if n == 1 {
    } else if n == 2 {
    } else if n == 3 {
    } else if n == 4 {
    } else if n == 5 {
    } else if n == 6 {
    } else if n == 7 {
    } else {
    }
}

/// An element written as its header, an ID in `n1` bytes and the body's size in `n2`
/// bytes, followed by its body reads back as that one element, holding the value its body
/// gives for its ID.
pub proof fn lemma_element_round_trip(id: u32, n1: nat, n2: nat, body: Seq<u8>)
    requires
        1 <= n1 <= 4,
        vint_marker(n1) * pow256((n1 - 1) as nat) <= id < 2 * vint_marker(n1) * pow256((n1 - 1) as nat),
        1 <= n2 <= 8,
        body.len() < vint_marker(n2) * pow256((n2 - 1) as nat),
        spec_parse_body(id, body) is Ok,
    ensures
        spec_parse_master(be_bytes(id as nat, n1) + size_bytes(body.len(), n2) + body)
            == Ok::<Seq<ElementModel>, MatroskaError>(
            seq![ElementModel { id, size: body.len() as u64, val: spec_parse_body(id, body)->Ok_0 }],
        ),
{
    lemma_size_limit(n2);
    let size = body.len() as u64;
    let s = be_bytes(id as nat, n1) + size_bytes(size as nat, n2) + body;
    lemma_be_round_trip((size + vint_marker(n2) * pow256((n2 - 1) as nat)) as nat, n2);
    lemma_header_round_trip(id, n1, size, n2, body);
    lemma_marked_bytes(id as nat, n1);
    lemma_size_round_trip(size, n2, Seq::empty());
    assert(size_bytes(size as nat, n2) + Seq::<u8>::empty() =~= size_bytes(size as nat, n2));
    let n = n1 + n2;
    assert(s.len() == n + size);
    assert(s.subrange(n as int, n + size) =~= body);
    assert(s.skip(n + size) =~= Seq::<u8>::empty());
    assert(spec_read_header(s) == Ok::<(u32, u64, nat), MatroskaError>((id, size, n)));
    assert(spec_parse_master(s.skip(n + size)) == Ok::<Seq<ElementModel>, MatroskaError>(Seq::empty()));
    assert(s == be_bytes(id as nat, n1) + size_bytes(body.len(), n2) + body);
    assert(seq![ElementModel { id, size, val: spec_parse_body(id, body)->Ok_0 }] + Seq::<ElementModel>::empty()
        =~= seq![ElementModel { id, size, val: spec_parse_body(id, body)->Ok_0 }]);
}

} // verus!
