//! The seek table: where in the segment the top-level elements start.
use vstd::prelude::*;
use std::collections::BTreeMap;
use crate::ebml::{be_value, lemma_be_value_fits, spec_read_id, models, lemma_models_take, Element, ElementModel, ElementType, MatroskaError, spec_parse_master, ValueModel};
use crate::fields::{lemma_other_id_ignored, is_last_with_id, has_no_id, is_master_with_id, lemma_last_value, lemma_no_value, last_uint, last_binary, uint_or_zero, bytes_or_empty};
use crate::ids::{SEEK, SEEKID, SEEKPOSITION};

verus! {

broadcast use vstd::laws_cmp::group_laws_cmp;

/// The element ID that a SeekID's bytes name: the bytes read big-endian, keeping the
/// lowest 32 bits.
pub open spec fn spec_seek_id(bytes: Seq<u8>) -> u32 {
    (be_value(bytes) % 0x1_0000_0000) as u32
}

/// One entry of the seek table
#[derive(Debug)]
pub struct Seek {
    /// The ID of the element, as written in the file
    pub id: Vec<u8>,
    /// The position of the element, counted from the start of the segment's body
    pub position: u64,
}

/// A seek table entry, as a mathematical object.
pub struct SeekView {
    pub id: Seq<u8>,
    pub position: u64,
}

impl View for Seek {
    type V = SeekView;

    open spec fn view(&self) -> SeekView {
        SeekView { id: self.id@, position: self.position }
    }
}

/// The entry that a Seek element's children describe: the last SeekID (empty when absent)
/// and the last SeekPosition (zero when absent).
pub open spec fn spec_seek(es: Seq<ElementModel>) -> SeekView {
    SeekView {
        id: bytes_or_empty(last_binary(es, SEEKID)),
        position: uint_or_zero(last_uint(es, SEEKPOSITION)),
    }
}

impl Seek {
    /// An entry with no ID, at position zero.
    pub fn new() -> (seek: Seek)
        ensures
            seek@ == spec_seek(Seq::empty()),
    {
        Seek { id: Vec::new(), position: 0 }
    }

    /// The element ID that this entry names.
    pub fn id(&self) -> (id: u32)
        ensures
            id == spec_seek_id(self.id@),
    {
        let mut acc: u32 = 0;
        let mut i: usize = 0;
        proof {
            assert(self.id@.take(0) =~= Seq::<u8>::empty());
        }
        while i < self.id.len()
            invariant
                i <= self.id@.len(),
                acc as int == be_value(self.id@.take(i as int)) % 0x1_0000_0000,
            decreases self.id@.len() - i,
        {
            let b = self.id[i];
            proof {
                let t = self.id@.take(i + 1);
                assert(t.drop_last() =~= self.id@.take(i as int));
                let x = be_value(self.id@.take(i as int));
                assert((((acc << 8u32) | (b as u32)) as int) == ((acc as int) * 256 + (b as int)) % 0x1_0000_0000) by (bit_vector);
                vstd::arithmetic::div_mod::lemma_mul_mod_noop_left(x as int, 256, 0x1_0000_0000);
                vstd::arithmetic::div_mod::lemma_add_mod_noop((x * 256) as int, b as int, 0x1_0000_0000);
                vstd::arithmetic::div_mod::lemma_add_mod_noop(((x % 0x1_0000_0000) * 256) as int, b as int, 0x1_0000_0000);
            }
            acc = (acc << 8) | (b as u32);
            i += 1;
        }
        proof {
            assert(self.id@.take(i as int) =~= self.id@);
        }
        acc
    }

    /// Builds an entry from the children of a Seek element.
    pub fn build(elements: Vec<Element>) -> (seek: Seek)
        ensures
            seek@ == spec_seek(models(elements@)),
    {
        let ghost es = elements@;
        let mut seek = Seek::new();
        proof {
            assert(es.take(0) =~= Seq::<Element>::empty());
        }
        for e in it: elements
            invariant
                it.seq() == es,
                seek@ == spec_seek(models(es.take(it.index() as int))),
        {
            proof {
                lemma_models_take(es, it.index() as int);
            }
            let Element { id, size: _, val } = e;
            match val {
                ElementType::Binary(b) => {
                    if id == SEEKID {
                        seek.id = b;
                    }
                },
                ElementType::UInt(v) => {
                    if id == SEEKPOSITION {
                        seek.position = v;
                    }
                },
                _ => {},
            }
        }
        proof {
            assert(es.take(es.len() as int) =~= es);
        }
        seek
    }
}

/// The seek table that a SeekHead element's children describe: each Seek entry, in order,
/// maps the ID it names to its position, a later entry replacing an earlier one.
pub open spec fn spec_seek_map(es: Seq<ElementModel>) -> Map<u32, u64>
    decreases es.len(),
{
    if es.len() == 0 {
        Map::empty()
    } else {
        match es.last().val {
            ValueModel::Master(c) if es.last().id == SEEK => spec_seek_map(es.drop_last()).insert(
                spec_seek_id(spec_seek(c).id),
                spec_seek(c).position,
            ),
            _ => spec_seek_map(es.drop_last()),
        }
    }
}

/// The seek table: for each element ID, where the element starts
#[derive(Debug)]
pub struct Seektable {
    /// Element ID to position, counted from the start of the segment's body
    pub seek: BTreeMap<u32, u64>,
}

impl View for Seektable {
    type V = Map<u32, u64>;

    open spec fn view(&self) -> Map<u32, u64> {
        self.seek@
    }
}

impl Seektable {
    /// An empty seek table.
    pub fn new() -> (table: Seektable)
        ensures
            table@ == Map::<u32, u64>::empty(),
    {
        Seektable { seek: BTreeMap::new() }
    }

    /// The position of the element with the given ID, if the table has one.
    pub fn get(&self, id: u32) -> (pos: Option<u64>)
        ensures
            pos == (if self@.contains_key(id) { Some(self@[id]) } else { None::<u64> }),
    {
        match self.seek.get(&id) {
            Some(p) => Some(*p),
            None => None,
        }
    }

    /// Reads the seek table held in the body of a SeekHead element.
    pub fn parse(data: &[u8]) -> (res: Result<Seektable, MatroskaError>)
        ensures
            match spec_parse_master(data@) {
                Ok(es) => res matches Ok(t) && t@ == spec_seek_map(es),
                Err(e) => res == Err::<Seektable, MatroskaError>(e),
            },
    {
        let elements = match Element::parse_master(data) {
            Ok(elements) => elements,
            Err(e) => return Err(e),
        };
        let ghost es = elements@;
        let mut table = Seektable::new();
        proof {
            assert(es.take(0) =~= Seq::<Element>::empty());
        }
        for e in it: elements
            invariant
                it.seq() == es,
                table@ == spec_seek_map(models(es.take(it.index() as int))),
        {
            proof {
                lemma_models_take(es, it.index() as int);
            }
            let Element { id, size: _, val } = e;
            match val {
                ElementType::Master(sub) => {
                    if id == SEEK {
                        let seek = Seek::build(sub);
                        let seek_id = seek.id();
                        table.seek.insert(seek_id, seek.position);
                    }
                },
                _ => {},
            }
        }
        proof {
            assert(es.take(es.len() as int) =~= es);
        }
        Ok(table)
    }
}

/// A seek entry names an element by the bytes of the element's ID: the ID that those
/// bytes name is the ID that an element header written with them holds.
pub proof fn lemma_seek_id_names_element(s: Seq<u8>)
    ensures
        spec_read_id(s) matches Ok((id, n)) ==> spec_seek_id(s.take(n as int)) == id,
{
    if let Ok((id, n)) = spec_read_id(s) {
        lemma_be_value_fits(s.take(n as int));
    }
}

/// A seek entry is read from its SeekID and SeekPosition children only: a child with any
/// other ID leaves it unchanged.
pub proof fn lemma_seek_reads_own_children(es: Seq<ElementModel>, e: ElementModel)
    requires
        e.id != SEEKID,
        e.id != SEEKPOSITION,
    ensures
        spec_seek(es.push(e)) == spec_seek(es),
{
    lemma_other_id_ignored(es, e, SEEKID);
    lemma_other_id_ignored(es, e, SEEKPOSITION);
}

/// A seek table is read from its Seek children only: a child with any other ID leaves it
/// unchanged.
pub proof fn lemma_seek_map_reads_own_children(es: Seq<ElementModel>, e: ElementModel)
    requires
        e.id != SEEK,
    ensures
        spec_seek_map(es.push(e)) == spec_seek_map(es),
{
    lemma_other_id_ignored(es, e, SEEK);
    assert(es.push(e).drop_last() =~= es);
}

/// A seek entry takes the ID bytes of its last SeekID (empty when there is none) and the
/// position of its last SeekPosition (zero when there is none).
pub proof fn lemma_seek_fields(es: Seq<ElementModel>)
    ensures
        forall|i: int| #[trigger] is_last_with_id(es, SEEKID, i) && es[i].val is Binary
            ==> spec_seek(es).id == es[i].val->Binary_0,
        has_no_id(es, SEEKID) ==> spec_seek(es).id.len() == 0,
        forall|i: int| #[trigger] is_last_with_id(es, SEEKPOSITION, i) && es[i].val is UInt
            ==> spec_seek(es).position == es[i].val->UInt_0,
        has_no_id(es, SEEKPOSITION) ==> spec_seek(es).position == 0,
{
    assert forall|i: int| #[trigger] is_last_with_id(es, SEEKID, i) && es[i].val is Binary
        implies spec_seek(es).id == es[i].val->Binary_0 by {
        lemma_last_value(es, SEEKID, i);
    }
    assert forall|i: int| #[trigger] is_last_with_id(es, SEEKPOSITION, i) && es[i].val is UInt
        implies spec_seek(es).position == es[i].val->UInt_0 by {
        lemma_last_value(es, SEEKPOSITION, i);
    }
    if has_no_id(es, SEEKID) {
        lemma_no_value(es, SEEKID);
    }
    if has_no_id(es, SEEKPOSITION) {
        lemma_no_value(es, SEEKPOSITION);
    }
}

/// `e` is a Seek entry that names the element ID `id`.
pub open spec fn names_id(e: ElementModel, id: u32) -> bool {
    is_master_with_id(e, SEEK) && spec_seek_id(spec_seek(e.val->Master_0).id) == id
}

/// The seek table holds exactly the IDs that its Seek entries name, each at the position
/// of the last entry that names it.
pub proof fn lemma_seek_map_entries(es: Seq<ElementModel>, id: u32)
    ensures
        spec_seek_map(es).contains_key(id) <==> exists|k: int| 0 <= k < es.len() && #[trigger] names_id(es[k], id),
        forall|k: int|
            0 <= k < es.len() && #[trigger] names_id(es[k], id) && (forall|j: int| k < j < es.len() ==> !names_id(es[j], id))
                ==> spec_seek_map(es)[id] == spec_seek(es[k].val->Master_0).position,
    decreases es.len(),
{
    if es.len() > 0 {
        let rest = es.drop_last();
        let last = es.last();
        assert(last == es[es.len() - 1]);
        lemma_seek_map_entries(rest, id);
        assert forall|k: int| 0 <= k < rest.len() implies rest[k] == es[k] by {}
        if names_id(last, id) {
            assert(names_id(es[es.len() - 1], id));
        } else {
            assert(spec_seek_map(es).contains_key(id) == spec_seek_map(rest).contains_key(id));
            assert(spec_seek_map(es).contains_key(id) ==> spec_seek_map(es)[id] == spec_seek_map(rest)[id]);
            if exists|k: int| 0 <= k < es.len() && #[trigger] names_id(es[k], id) {
                let k = choose|k: int| 0 <= k < es.len() && #[trigger] names_id(es[k], id);
                assert(names_id(rest[k], id));
            }
            assert forall|k: int|
                0 <= k < es.len() && #[trigger] names_id(es[k], id) && (forall|j: int| k < j < es.len() ==> !names_id(es[j], id))
                    implies spec_seek_map(es)[id] == spec_seek(es[k].val->Master_0).position by {
                assert(names_id(rest[k], id));
                assert forall|j: int| k < j < rest.len() implies !names_id(rest[j], id) by {
                    assert(rest[j] == es[j]);
                }
            }
        }
    }
}

} // verus!
