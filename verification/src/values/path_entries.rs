//! The entities under a file path.
//!
//! ```text
//! num_entries: u16
//! entries:     num_entries times
//!   entity_id_len: u16
//!   entity_id:     entity_id_len bytes
//!   entity_kind:   u8
//! ```
//!
//! All numbers are little-endian.

use vstd::prelude::*;
use crate::bytes::{
    append_u16, le_bytes, le_value, lemma_le_bounds, lemma_le_of_value, lemma_le_round_trip,
    read_u16,
};
use crate::values::entity_location::ValueDecodeError;
use crate::values::field::{
    append_field, field_bytes, field_fits, law_read_field, lemma_field_cut, lemma_field_round_trip,
    len16, low16, read_field, take_field,
};

verus! {

/// The entities under a path.
#[derive(Debug, Clone, PartialEq, Eq)]
pub struct PathEntries {
    pub entries: Vec<PathEntry>,
}

/// An entity under a path.
#[derive(Debug, Clone, PartialEq, Eq)]
pub struct PathEntry {
    pub entity_id: String,
    pub kind: EntityKind,
}

/// Kinds of entities, one byte each.
#[derive(Debug, Clone, Copy, PartialEq, Eq, Structural)]
pub enum EntityKind {
    Function,
    Class,
    Method,
    Interface,
    Module,
    File,
    Struct,
    Enum,
    Trait,
    Constant,
    Variable,
    Other,
}

/// The byte of a kind.
pub open spec fn kind_byte(kind: EntityKind) -> u8 {
    match kind {
        EntityKind::Function => 0,
        EntityKind::Class => 1,
        EntityKind::Method => 2,
        EntityKind::Interface => 3,
        EntityKind::Module => 4,
        EntityKind::File => 5,
        EntityKind::Struct => 6,
        EntityKind::Enum => 7,
        EntityKind::Trait => 8,
        EntityKind::Constant => 9,
        EntityKind::Variable => 10,
        EntityKind::Other => 255,
    }
}

/// The kind of a byte. A byte that no kind has stands for `Other`.
pub open spec fn byte_kind(b: u8) -> EntityKind {
    match b {
        0 => EntityKind::Function,
        1 => EntityKind::Class,
        2 => EntityKind::Method,
        3 => EntityKind::Interface,
        4 => EntityKind::Module,
        5 => EntityKind::File,
        6 => EntityKind::Struct,
        7 => EntityKind::Enum,
        8 => EntityKind::Trait,
        9 => EntityKind::Constant,
        10 => EntityKind::Variable,
        _ => EntityKind::Other,
    }
}

impl EntityKind {
    /// The byte of the kind.
    pub fn to_byte(self) -> (b: u8)
        ensures
            b == kind_byte(self),
            byte_kind(b) == self,
    {
        match self {
            EntityKind::Function => 0,
            EntityKind::Class => 1,
            EntityKind::Method => 2,
            EntityKind::Interface => 3,
            EntityKind::Module => 4,
            EntityKind::File => 5,
            EntityKind::Struct => 6,
            EntityKind::Enum => 7,
            EntityKind::Trait => 8,
            EntityKind::Constant => 9,
            EntityKind::Variable => 10,
            EntityKind::Other => 255,
        }
    }

    /// The kind of a byte.
    pub fn from_byte(b: u8) -> (kind: Self)
        ensures
            kind == byte_kind(b),
    {
        match b {
            0 => EntityKind::Function,
            1 => EntityKind::Class,
            2 => EntityKind::Method,
            3 => EntityKind::Interface,
            4 => EntityKind::Module,
            5 => EntityKind::File,
            6 => EntityKind::Struct,
            7 => EntityKind::Enum,
            8 => EntityKind::Trait,
            9 => EntityKind::Constant,
            10 => EntityKind::Variable,
            _ => EntityKind::Other,
        }
    }
}

/// An entity, its identifier as a sequence of characters.
#[verifier::ext_equal]
pub struct Entity {
    pub entity_id: Seq<char>,
    pub kind: EntityKind,
}

impl View for PathEntry {
    type V = Entity;

    open spec fn view(&self) -> Entity {
        Entity { entity_id: self.entity_id@, kind: self.kind }
    }
}

impl View for PathEntries {
    type V = Seq<Entity>;

    open spec fn view(&self) -> Seq<Entity> {
        self.entries@.map_values(|e: PathEntry| e@)
    }
}

/// The bytes of an entity.
pub open spec fn entity_bytes(e: Entity) -> Seq<u8> {
    field_bytes(e.entity_id) + seq![kind_byte(e.kind)]
}

/// The bytes of entities, one behind another.
pub open spec fn entities_bytes(entities: Seq<Entity>) -> Seq<u8>
    decreases entities.len(),
{
    if entities.len() == 0 {
        Seq::empty()
    } else {
        entity_bytes(entities[0]) + entities_bytes(entities.drop_first())
    }
}

/// The bytes of a list of entities.
pub open spec fn list_bytes(entities: Seq<Entity>) -> Seq<u8> {
    le_bytes(len16(entities.len()), 2) + entities_bytes(entities)
}

/// Reads `n` entities from `pos` on.
pub open spec fn read_entities(data: Seq<u8>, pos: nat, n: nat) -> Result<
    Seq<Entity>,
    ValueDecodeError,
>
    decreases n,
{
    if n == 0 {
        Ok(Seq::empty())
    } else {
        match read_field(data, pos, 1) {
            Err(e) => Err(e),
            Ok((entity_id, at)) => {
                let entity = Entity { entity_id, kind: byte_kind(data[at as int]) };
                match read_entities(data, at + 1, (n - 1) as nat) {
                    Err(e) => Err(e),
                    Ok(rest) => Ok(seq![entity] + rest),
                }
            },
        }
    }
}

/// Reads a list of entities.
pub open spec fn read_list(data: Seq<u8>) -> Result<Seq<Entity>, ValueDecodeError> {
    if data.len() < 2 {
        Err(ValueDecodeError::TooShort)
    } else {
        read_entities(data, 2, le_value(data.subrange(0, 2)))
    }
}

/// Every identifier is short enough for its length to be stored, and so is the list.
pub open spec fn list_fits(entities: Seq<Entity>) -> bool {
    &&& entities.len() < 0x1_0000
    &&& forall|i: int| 0 <= i < entities.len() ==> field_fits((#[trigger] entities[i]).entity_id)
}

/// Appending an entity appends its bytes.
proof fn lemma_push_entity(entities: Seq<Entity>, e: Entity)
    ensures
        entities_bytes(entities.push(e)) == entities_bytes(entities) + entity_bytes(e),
    decreases entities.len(),
{
    let more = entities.push(e);
    if entities.len() == 0 {
        assert(more.drop_first() =~= Seq::empty());
        assert(entities_bytes(more.drop_first()) =~= Seq::empty());
        assert(entities_bytes(more) =~= entities_bytes(entities) + entity_bytes(e));
    } else {
        lemma_push_entity(entities.drop_first(), e);
        assert(more.drop_first() =~= entities.drop_first().push(e));
        assert(entities_bytes(more) =~= entities_bytes(entities) + entity_bytes(e));
    }
}

/// Entities are read back wherever they stand.
proof fn lemma_entities_round_trip(before: Seq<u8>, entities: Seq<Entity>, after: Seq<u8>)
    requires
        forall|i: int|
            0 <= i < entities.len() ==> field_fits((#[trigger] entities[i]).entity_id),
    ensures
        read_entities(before + entities_bytes(entities) + after, before.len(), entities.len())
            == Ok::<Seq<Entity>, ValueDecodeError>(entities),
    decreases entities.len(),
{
    if entities.len() > 0 {
        let e = entities[0];
        let rest = entities.drop_first();
        let data = before + entities_bytes(entities) + after;
        let here = before + entity_bytes(e);
        let kind = seq![kind_byte(e.kind)];
        assert forall|i: int| 0 <= i < rest.len() implies field_fits(
            (#[trigger] rest[i]).entity_id,
        ) by {
            assert(rest[i] == entities[i + 1]);
        }
        let behind = kind + (entities_bytes(rest) + after);
        lemma_field_round_trip(before, e.entity_id, behind, 1);
        assert(data =~= before + field_bytes(e.entity_id) + behind);
        assert(data[(before.len() + field_bytes(e.entity_id).len()) as int] == kind[0]);
        lemma_entities_round_trip(here, rest, after);
        assert(data =~= here + entities_bytes(rest) + after);
        assert(seq![e] + rest =~= entities);
    } else {
        assert(entities =~= Seq::empty());
    }
}

/// Entities of which the end is cut off are too short.
proof fn lemma_entities_cut(before: Seq<u8>, entities: Seq<Entity>, after: Seq<u8>, cut: int)
    requires
        forall|i: int|
            0 <= i < entities.len() ==> field_fits((#[trigger] entities[i]).entity_id),
        before.len() <= cut < before.len() + entities_bytes(entities).len(),
    ensures
        read_entities(
            (before + entities_bytes(entities) + after).take(cut),
            before.len(),
            entities.len(),
        ) == Err::<Seq<Entity>, ValueDecodeError>(ValueDecodeError::TooShort),
    decreases entities.len(),
{
    let e = entities[0];
    let rest = entities.drop_first();
    let data = before + entities_bytes(entities) + after;
    let id = field_bytes(e.entity_id);
    let here = before + entity_bytes(e);
    let kind = seq![kind_byte(e.kind)];
    assert forall|i: int| 0 <= i < rest.len() implies field_fits(
        (#[trigger] rest[i]).entity_id,
    ) by {
        assert(rest[i] == entities[i + 1]);
    }
    let behind = kind + (entities_bytes(rest) + after);
    assert(data =~= before + id + behind);
    if cut < here.len() {
        lemma_field_cut(before, e.entity_id, behind, 1, cut);
    } else {
        let left = behind.take(cut - before.len() - id.len());
        lemma_field_round_trip(before, e.entity_id, left, 1);
        assert(data.take(cut) =~= before + id + left);
        lemma_entities_cut(here, rest, after, cut);
        assert(data =~= here + entities_bytes(rest) + after);
    }
}

/// Decoding an encoded list of entities gives it back, if its lengths can be stored. What follows
/// the encoding does not matter.
pub proof fn law_list_round_trip(entities: Seq<Entity>, after: Seq<u8>)
    requires
        list_fits(entities),
    ensures
        read_list(list_bytes(entities) + after) == Ok::<Seq<Entity>, ValueDecodeError>(entities),
{
    let head = le_bytes(entities.len(), 2);
    let data = list_bytes(entities) + after;
    lemma_le_bounds();
    lemma_le_round_trip(entities.len(), 2);
    lemma_entities_round_trip(head, entities, after);
    assert(data.subrange(0, 2) =~= head);
    assert(data =~= head + entities_bytes(entities) + after);
}

/// An encoded list of entities without its end is too short, wherever it is cut.
pub proof fn law_list_cut(entities: Seq<Entity>, cut: nat)
    requires
        list_fits(entities),
        cut < list_bytes(entities).len(),
    ensures
        read_list(list_bytes(entities).take(cut as int)) == Err::<Seq<Entity>, ValueDecodeError>(
            ValueDecodeError::TooShort,
        ),
{
    let head = le_bytes(entities.len(), 2);
    let none = Seq::<u8>::empty();
    let data = list_bytes(entities).take(cut as int);
    lemma_le_bounds();
    lemma_le_round_trip(entities.len(), 2);
    if cut >= 2 {
        assert(data.subrange(0, 2) =~= head);
        assert(list_bytes(entities) =~= head + entities_bytes(entities) + none);
        lemma_entities_cut(head, entities, none, cut as int);
    }
}

/// The bytes of the kinds of entities, one for each; any other byte stands for `Other`.
pub proof fn law_kind_bytes(b: u8)
    ensures
        kind_byte(EntityKind::Function) == 0 && byte_kind(0) == EntityKind::Function,
        kind_byte(EntityKind::Class) == 1 && byte_kind(1) == EntityKind::Class,
        kind_byte(EntityKind::Method) == 2 && byte_kind(2) == EntityKind::Method,
        kind_byte(EntityKind::Interface) == 3 && byte_kind(3) == EntityKind::Interface,
        kind_byte(EntityKind::Module) == 4 && byte_kind(4) == EntityKind::Module,
        kind_byte(EntityKind::File) == 5 && byte_kind(5) == EntityKind::File,
        kind_byte(EntityKind::Struct) == 6 && byte_kind(6) == EntityKind::Struct,
        kind_byte(EntityKind::Enum) == 7 && byte_kind(7) == EntityKind::Enum,
        kind_byte(EntityKind::Trait) == 8 && byte_kind(8) == EntityKind::Trait,
        kind_byte(EntityKind::Constant) == 9 && byte_kind(9) == EntityKind::Constant,
        kind_byte(EntityKind::Variable) == 10 && byte_kind(10) == EntityKind::Variable,
        kind_byte(EntityKind::Other) == 255,
        b > 10 ==> byte_kind(b) == EntityKind::Other,
{
}

/// An encoded entity is its identifier as a text field and the byte of its kind. Entities stand one
/// behind another, behind their number in two bytes.
pub proof fn law_list_bytes(entities: Seq<Entity>, more: Seq<Entity>)
    ensures
        list_bytes(entities) == le_bytes(entities.len() % 0x1_0000, 2) + entities_bytes(entities),
        entities_bytes(Seq::empty()) == Seq::<u8>::empty(),
        entities.len() == 1 ==> entities_bytes(entities) == field_bytes(entities[0].entity_id)
            + seq![kind_byte(entities[0].kind)],
        entities_bytes(entities + more) == entities_bytes(entities) + entities_bytes(more),
    decreases entities.len(),
{
    if entities.len() == 0 {
        assert(entities + more =~= more);
        assert(entities_bytes(entities) + entities_bytes(more) =~= entities_bytes(more));
    } else {
        let rest = entities.drop_first();
        law_list_bytes(rest, more);
        assert((entities + more).drop_first() =~= rest + more);
        assert(entities_bytes(entities + more) =~= entities_bytes(entities) + entities_bytes(
            more,
        ));
        if entities.len() == 1 {
            assert(rest =~= Seq::empty());
            assert(entities_bytes(entities) =~= entity_bytes(entities[0]));
        }
    }
}

/// What is decoded as a list of entities is one, but for bytes that no kind has: entity `i` stands
/// behind those before it, its identifier as a text field, then a byte that stands for its kind.
pub proof fn law_read_list(data: Seq<u8>, i: int)
    ensures
        data.len() < 2 ==> read_list(data) == Err::<Seq<Entity>, ValueDecodeError>(
            ValueDecodeError::TooShort,
        ),
        read_list(data) matches Ok(entities) ==> {
            &&& list_fits(entities)
            &&& data.len() >= 2 + entities_bytes(entities).len()
            &&& entities.len() == le_value(data.subrange(0, 2))
            &&& 0 <= i < entities.len() ==> {
                let at = 2 + entities_bytes(entities.take(i)).len() as int;
                let id = field_bytes(entities[i].entity_id);
                &&& data.subrange(at, at + id.len()) == id
                &&& entities[i].kind == byte_kind(data[at + id.len()])
            }
        },
{
    if data.len() >= 2 {
        let head = data.subrange(0, 2);
        lemma_le_bounds();
        lemma_le_of_value(head);
        lemma_read_entities(data, 2, le_value(head), i);
    }
}

proof fn lemma_read_entities(data: Seq<u8>, pos: nat, n: nat, i: int)
    requires
        pos <= data.len(),
    ensures
        read_entities(data, pos, n) matches Ok(entities) ==> {
            &&& entities.len() == n
            &&& forall|j: int|
                0 <= j < entities.len() ==> field_fits((#[trigger] entities[j]).entity_id)
            &&& data.len() >= pos + entities_bytes(entities).len()
            &&& 0 <= i < entities.len() ==> {
                let at = pos + entities_bytes(entities.take(i)).len() as int;
                let id = field_bytes(entities[i].entity_id);
                &&& data.subrange(at, at + id.len()) == id
                &&& entities[i].kind == byte_kind(data[at + id.len()])
            }
        },
    decreases n,
{
    if n > 0 {
        law_read_field(data, pos, 1);
        if let Ok((entity_id, at)) = read_field(data, pos, 1) {
            lemma_read_entities(data, at + 1, (n - 1) as nat, i - 1);
            if let Ok(rest) = read_entities(data, at + 1, (n - 1) as nat) {
                let e = Entity { entity_id, kind: byte_kind(data[at as int]) };
                let all = seq![e] + rest;
                assert(all.drop_first() =~= rest);
                assert forall|j: int| 0 <= j < all.len() implies field_fits(
                    (#[trigger] all[j]).entity_id,
                ) by {
                    if j > 0 {
                        assert(all[j] == rest[j - 1]);
                    }
                }
                if i == 0 {
                    assert(all.take(0) =~= Seq::empty());
                } else if 0 < i < all.len() {
                    assert(all.take(i).drop_first() =~= rest.take(i - 1));
                    assert(all[i] == rest[i - 1]);
                }
            }
        }
    }
}

/// Entities are read one behind another, as many as asked for; the first that cannot be read ends
/// it, with the reason for which its identifier, with the byte behind it, is refused.
pub proof fn law_read_entities(data: Seq<u8>, pos: nat, n: nat)
    ensures
        read_entities(data, pos, 0) == Ok::<Seq<Entity>, ValueDecodeError>(Seq::empty()),
        n > 0 ==> match read_field(data, pos, 1) {
            Err(e) => read_entities(data, pos, n) == Err::<Seq<Entity>, ValueDecodeError>(e),
            Ok((entity_id, at)) => match read_entities(data, at + 1, (n - 1) as nat) {
                Err(e) => read_entities(data, pos, n) == Err::<Seq<Entity>, ValueDecodeError>(e),
                Ok(rest) => read_entities(data, pos, n) == Ok::<Seq<Entity>, ValueDecodeError>(
                    seq![Entity { entity_id, kind: byte_kind(data[at as int]) }] + rest,
                ),
            },
        },
{
}

/// The model of a list has its entries, in order, and the model of an entry its fields.
pub proof fn law_list_view(list: PathEntries, entry: PathEntry)
    ensures
        list@.len() == list.entries@.len(),
        forall|i: int| 0 <= i < list@.len() ==> #[trigger] list@[i] == list.entries@[i]@,
        entry@.entity_id == entry.entity_id@ && entry@.kind == entry.kind,
{
}

impl PathEntries {
    /// Encodes the list.
    pub fn encode(&self) -> (bytes: Vec<u8>)
        ensures
            bytes@ == list_bytes(self@),
    {
        let ghost all = self@;
        let mut buf: Vec<u8> = Vec::new();
        append_u16(&mut buf, low16(self.entries.len()));
        let ghost head = buf@;
        assert(head =~= le_bytes(len16(all.len()), 2));
        let mut i: usize = 0;
        assert(all.take(0) =~= Seq::empty());
        assert(head + entities_bytes(all.take(0)) =~= head);
        while i < self.entries.len()
            invariant
                i <= self.entries@.len(),
                all == self@,
                buf@ == head + entities_bytes(all.take(i as int)),
            decreases self.entries@.len() - i,
        {
            let entry: &PathEntry = &self.entries[i];
            append_field(&mut buf, entry.entity_id.as_str());
            buf.push(entry.kind.to_byte());
            proof {
                assert(all[i as int] == entry@);
                lemma_push_entity(all.take(i as int), all[i as int]);
                assert(all.take(i + 1) =~= all.take(i as int).push(all[i as int]));
                assert(buf@ =~= head + entities_bytes(all.take(i + 1)));
            }
            i += 1;
        }
        assert(all.take(i as int) =~= all);
        buf
    }

    /// Decodes a list. Bytes behind it are ignored.
    pub fn decode(data: &[u8]) -> (r: Result<Self, ValueDecodeError>)
        ensures
            match r {
                Ok(list) => read_list(data@) == Ok::<Seq<Entity>, ValueDecodeError>(list@),
                Err(e) => read_list(data@) == Err::<Seq<Entity>, ValueDecodeError>(e),
            },
    {
        if data.len() < 2 {
            return Err(ValueDecodeError::TooShort);
        }
        let count: u16 = read_u16(data, 0);
        let mut list = PathEntries { entries: Vec::new() };
        let mut pos: usize = 2;
        let mut i: u16 = 0;
        assert(read_entities(data@, 2, count as nat) matches Ok(rest) ==> list@ + rest =~= rest);
        while i < count
            invariant
                i <= count,
                pos <= data@.len(),
                match read_entities(data@, pos as nat, (count - i) as nat) {
                    Ok(rest) => read_list(data@) == Ok::<Seq<Entity>, ValueDecodeError>(
                        list@ + rest,
                    ),
                    Err(e) => read_list(data@) == Err::<Seq<Entity>, ValueDecodeError>(e),
                },
            decreases count - i,
        {
            match take_field(data, pos, 1) {
                Err(e) => {
                    return Err(e);
                },
                Ok((entity_id, at)) => {
                    assert(at + 1 <= data.len());
                    let kind = EntityKind::from_byte(data[at]);
                    let ghost before = list@;
                    let ghost one = Entity { entity_id: entity_id@, kind };
                    list.entries.push(PathEntry { entity_id, kind });
                    proof {
                        assert(list@ =~= before.push(one));
                        if let Ok(rest) = read_entities(
                            data@,
                            (at + 1) as nat,
                            (count - i - 1) as nat,
                        ) {
                            assert(before + (seq![one] + rest) =~= list@ + rest);
                        }
                    }
                    pos = at + 1;
                },
            }
            i += 1;
        }
        assert(list@ + Seq::<Entity>::empty() =~= list@);
        Ok(list)
    }
}

} // verus!
