//! What a master element's children say about one field: the value of the last child with
//! a given ID, or the children of all master children with a given ID, in order.
use vstd::prelude::*;
use crate::ebml::{ElementModel, FloatBits, ValueModel};

verus! {

/// The value of the last element of `es` with ID `id` that holds an unsigned integer.
pub open spec fn last_uint(es: Seq<ElementModel>, id: u32) -> Option<u64>
    decreases es.len(),
{
    if es.len() == 0 {
        None
    } else {
        match es.last().val {
            ValueModel::UInt(v) if es.last().id == id => Some(v),
            _ => last_uint(es.drop_last(), id),
        }
    }
}

/// The value of the last element of `es` with ID `id` that holds a float.
pub open spec fn last_float(es: Seq<ElementModel>, id: u32) -> Option<FloatBits>
    decreases es.len(),
{
    if es.len() == 0 {
        None
    } else {
        match es.last().val {
            ValueModel::Float(v) if es.last().id == id => Some(v),
            _ => last_float(es.drop_last(), id),
        }
    }
}

/// The value of the last element of `es` with ID `id` that holds a date.
pub open spec fn last_date(es: Seq<ElementModel>, id: u32) -> Option<i64>
    decreases es.len(),
{
    if es.len() == 0 {
        None
    } else {
        match es.last().val {
            ValueModel::Date(v) if es.last().id == id => Some(v),
            _ => last_date(es.drop_last(), id),
        }
    }
}

/// The text of the last element of `es` with ID `id` that holds UTF-8 text.
pub open spec fn last_utf8(es: Seq<ElementModel>, id: u32) -> Option<Seq<char>>
    decreases es.len(),
{
    if es.len() == 0 {
        None
    } else {
        match es.last().val {
            ValueModel::Utf8(v) if es.last().id == id => Some(v),
            _ => last_utf8(es.drop_last(), id),
        }
    }
}

/// The text of the last element of `es` with ID `id` that holds ASCII text.
pub open spec fn last_string(es: Seq<ElementModel>, id: u32) -> Option<Seq<char>>
    decreases es.len(),
{
    if es.len() == 0 {
        None
    } else {
        match es.last().val {
            ValueModel::Str(v) if es.last().id == id => Some(v),
            _ => last_string(es.drop_last(), id),
        }
    }
}

/// The bytes of the last element of `es` with ID `id` that holds raw bytes.
pub open spec fn last_binary(es: Seq<ElementModel>, id: u32) -> Option<Seq<u8>>
    decreases es.len(),
{
    if es.len() == 0 {
        None
    } else {
        match es.last().val {
            ValueModel::Binary(v) if es.last().id == id => Some(v),
            _ => last_binary(es.drop_last(), id),
        }
    }
}

/// The children of each master element of `es` with ID `id`, in order.
pub open spec fn masters(es: Seq<ElementModel>, id: u32) -> Seq<Seq<ElementModel>>
    decreases es.len(),
{
    if es.len() == 0 {
        Seq::empty()
    } else {
        match es.last().val {
            ValueModel::Master(children) if es.last().id == id => masters(es.drop_last(), id).push(
                children,
            ),
            _ => masters(es.drop_last(), id),
        }
    }
}

/// A flag: true when the integer is not zero, `default` when there is none.
pub open spec fn flag_or(v: Option<u64>, default: bool) -> bool {
    match v {
        Some(x) => x != 0,
        None => default,
    }
}

/// An integer, zero when there is none.
pub open spec fn uint_or_zero(v: Option<u64>) -> u64 {
    match v {
        Some(x) => x,
        None => 0,
    }
}

/// A text, empty when there is none.
pub open spec fn text_or_empty(v: Option<Seq<char>>) -> Seq<char> {
    match v {
        Some(x) => x,
        None => Seq::empty(),
    }
}

/// Bytes, none when there are none.
pub open spec fn bytes_or_empty(v: Option<Seq<u8>>) -> Seq<u8> {
    match v {
        Some(x) => x,
        None => Seq::empty(),
    }
}

/// An element whose ID differs from `id` leaves the last value with ID `id` unchanged.
pub proof fn lemma_other_id_ignored(es: Seq<ElementModel>, e: ElementModel, id: u32)
    requires
        e.id != id,
    ensures
        last_uint(es.push(e), id) == last_uint(es, id),
        last_float(es.push(e), id) == last_float(es, id),
        last_date(es.push(e), id) == last_date(es, id),
        last_utf8(es.push(e), id) == last_utf8(es, id),
        last_string(es.push(e), id) == last_string(es, id),
        last_binary(es.push(e), id) == last_binary(es, id),
        masters(es.push(e), id) == masters(es, id),
{
    assert(es.push(e).drop_last() =~= es);
}

/// The elements of `es` with ID `id`, in order.
pub open spec fn with_id(es: Seq<ElementModel>, id: u32) -> Seq<ElementModel> {
    es.filter(|e: ElementModel| e.id == id)
}

/// What the children say about the ID `id` depends only on the children with that ID, in
/// their order.
pub proof fn lemma_last_by_id(es: Seq<ElementModel>, id: u32)
    ensures
        last_uint(es, id) == last_uint(with_id(es, id), id),
        last_float(es, id) == last_float(with_id(es, id), id),
        last_date(es, id) == last_date(with_id(es, id), id),
        last_utf8(es, id) == last_utf8(with_id(es, id), id),
        last_string(es, id) == last_string(with_id(es, id), id),
        last_binary(es, id) == last_binary(with_id(es, id), id),
        masters(es, id) == masters(with_id(es, id), id),
    decreases es.len(),
{
    reveal(Seq::filter);
    if es.len() == 0 {
        assert(with_id(es, id) =~= Seq::<ElementModel>::empty());
    } else {
        lemma_last_by_id(es.drop_last(), id);
        let w = with_id(es.drop_last(), id);
        if es.last().id == id {
            assert(with_id(es, id) == w.push(es.last()));
            assert(w.push(es.last()).drop_last() =~= w);
            assert(w.push(es.last()).last() == es.last());
        } else {
            assert(with_id(es, id) == w);
        }
    }
}

/// `es[i]` is the last element of `es` with ID `id`.
pub open spec fn is_last_with_id(es: Seq<ElementModel>, id: u32, i: int) -> bool {
    &&& 0 <= i < es.len()
    &&& es[i].id == id
    &&& forall|k: int| i < k < es.len() ==> es[k].id != id
}

/// No element of `es` has ID `id`.
pub open spec fn has_no_id(es: Seq<ElementModel>, id: u32) -> bool {
    forall|k: int| 0 <= k < es.len() ==> es[k].id != id
}

/// An element with ID `id` whose value is a master element.
pub open spec fn is_master_with_id(e: ElementModel, id: u32) -> bool {
    e.id == id && e.val is Master
}

/// The field that a master's children give for an ID is the value of the last child with
/// that ID, whatever comes before it.
pub proof fn lemma_last_value(es: Seq<ElementModel>, id: u32, i: int)
    requires
        is_last_with_id(es, id, i),
    ensures
        es[i].val is UInt ==> last_uint(es, id) == Some(es[i].val->UInt_0),
        es[i].val is Float ==> last_float(es, id) == Some(es[i].val->Float_0),
        es[i].val is Date ==> last_date(es, id) == Some(es[i].val->Date_0),
        es[i].val is Utf8 ==> last_utf8(es, id) == Some(es[i].val->Utf8_0),
        es[i].val is Str ==> last_string(es, id) == Some(es[i].val->Str_0),
        es[i].val is Binary ==> last_binary(es, id) == Some(es[i].val->Binary_0),
    decreases es.len(),
{
    if i < es.len() - 1 {
        let rest = es.drop_last();
        assert(es.last() == es[es.len() - 1]);
        assert(is_last_with_id(rest, id, i));
        lemma_last_value(rest, id, i);
    }
}

/// Children without the ID `id` give no value for it, and no master children with it.
pub proof fn lemma_no_value(es: Seq<ElementModel>, id: u32)
    requires
        has_no_id(es, id),
    ensures
        last_uint(es, id) is None,
        last_float(es, id) is None,
        last_date(es, id) is None,
        last_utf8(es, id) is None,
        last_string(es, id) is None,
        last_binary(es, id) is None,
        masters(es, id).len() == 0,
    decreases es.len(),
{
    if es.len() > 0 {
        assert(es.last() == es[es.len() - 1]);
        lemma_no_value(es.drop_last(), id);
    }
}

/// One more child adds the children of one more master with ID `id` when it is such a
/// master, and nothing otherwise.
pub proof fn lemma_masters_push(es: Seq<ElementModel>, e: ElementModel, id: u32)
    ensures
        masters(es.push(e), id) == if is_master_with_id(e, id) {
            masters(es, id).push(e.val->Master_0)
        } else {
            masters(es, id)
        },
{
    assert(es.push(e).drop_last() =~= es);
    assert(es.push(e).last() == e);
}

/// There are as many masters with ID `id` as there are children that are such masters.
pub proof fn lemma_masters_count(es: Seq<ElementModel>, id: u32)
    ensures
        masters(es, id).len() == es.filter(|e: ElementModel| is_master_with_id(e, id)).len(),
    decreases es.len(),
{
    reveal(Seq::filter);
    if es.len() > 0 {
        lemma_masters_count(es.drop_last(), id);
        lemma_masters_push(es.drop_last(), es.last(), id);
        assert(es.drop_last().push(es.last()) =~= es);
    }
}

} // verus!
