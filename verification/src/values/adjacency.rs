//! The edges of a node in a graph.
//!
//! ```text
//! num_outgoing: u16
//! num_incoming: u16
//! outgoing edges, then incoming edges, one behind another
//!   target_id_len: u16
//!   target_id:     target_id_len bytes
//!   rel_kind:      u8, and for a custom kind its name:
//!     name_len:    u16
//!     name:        name_len bytes
//! ```
//!
//! All numbers are little-endian. Kinds of relations: 0 = calls, 1 = imports, 2 = extends,
//! 3 = implements, 4 = contains, 5 = uses, 6 = type of, 255 = custom.

use vstd::prelude::*;
use crate::bytes::{
    append_u16, le_bytes, le_value, lemma_le_bounds, lemma_le_len, lemma_le_of_value,
    lemma_le_round_trip, read_u16,
};
use crate::values::entity_location::ValueDecodeError;
use crate::values::field::{
    append_field, field_bytes, field_fits, law_read_field, lemma_field_cut, lemma_field_round_trip,
    len16, low16, read_field, take_field,
};

verus! {

/// The edges of an entity.
#[derive(Debug, Clone, PartialEq, Eq)]
pub struct AdjacencyList {
    /// Edges from this entity.
    pub outgoing: Vec<Edge>,
    /// Edges to this entity.
    pub incoming: Vec<Edge>,
}

/// An edge.
#[derive(Debug, Clone, PartialEq, Eq)]
pub struct Edge {
    /// The entity at the other end.
    pub entity_id: String,
    /// The kind of relation.
    pub rel_kind: RelKind,
}

/// Kinds of relations.
#[derive(Debug, Clone, PartialEq, Eq)]
pub enum RelKind {
    Calls,
    Imports,
    Extends,
    Implements,
    Contains,
    Uses,
    TypeOf,
    /// Any other kind, by its name.
    Custom(String),
}

/// A kind of relation, its name as a sequence of characters.
#[verifier::ext_equal]
pub enum Relation {
    Calls,
    Imports,
    Extends,
    Implements,
    Contains,
    Uses,
    TypeOf,
    Custom(Seq<char>),
}

/// An edge, its texts as sequences of characters.
#[verifier::ext_equal]
pub struct Link {
    pub entity_id: Seq<char>,
    pub rel_kind: Relation,
}

/// The links of an entity.
#[verifier::ext_equal]
pub struct Links {
    pub outgoing: Seq<Link>,
    pub incoming: Seq<Link>,
}

impl View for RelKind {
    type V = Relation;

    open spec fn view(&self) -> Relation {
        match self {
            RelKind::Calls => Relation::Calls,
            RelKind::Imports => Relation::Imports,
            RelKind::Extends => Relation::Extends,
            RelKind::Implements => Relation::Implements,
            RelKind::Contains => Relation::Contains,
            RelKind::Uses => Relation::Uses,
            RelKind::TypeOf => Relation::TypeOf,
            RelKind::Custom(name) => Relation::Custom(name@),
        }
    }
}

impl View for Edge {
    type V = Link;

    open spec fn view(&self) -> Link {
        Link { entity_id: self.entity_id@, rel_kind: self.rel_kind@ }
    }
}

/// The links of a list in memory.
pub open spec fn links_view(edges: Seq<Edge>) -> Seq<Link> {
    edges.map_values(|e: Edge| e@)
}

impl View for AdjacencyList {
    type V = Links;

    open spec fn view(&self) -> Links {
        Links { outgoing: links_view(self.outgoing@), incoming: links_view(self.incoming@) }
    }
}

/// The byte of a kind of relation.
pub open spec fn relation_byte(r: Relation) -> u8 {
    match r {
        Relation::Calls => 0,
        Relation::Imports => 1,
        Relation::Extends => 2,
        Relation::Implements => 3,
        Relation::Contains => 4,
        Relation::Uses => 5,
        Relation::TypeOf => 6,
        Relation::Custom(_) => 255,
    }
}

/// The bytes behind the byte of a kind of relation: the name of a custom one.
pub open spec fn name_bytes(r: Relation) -> Seq<u8> {
    match r {
        Relation::Custom(name) => field_bytes(name),
        _ => Seq::empty(),
    }
}

/// The bytes of a link.
pub open spec fn link_bytes(l: Link) -> Seq<u8> {
    field_bytes(l.entity_id) + seq![relation_byte(l.rel_kind)] + name_bytes(l.rel_kind)
}

/// The bytes of links, one behind another.
pub open spec fn links_bytes(links: Seq<Link>) -> Seq<u8>
    decreases links.len(),
{
    if links.len() == 0 {
        Seq::empty()
    } else {
        link_bytes(links[0]) + links_bytes(links.drop_first())
    }
}

/// The bytes of an adjacency list.
pub open spec fn adjacency_bytes(l: Links) -> Seq<u8> {
    le_bytes(len16(l.outgoing.len()), 2) + le_bytes(len16(l.incoming.len()), 2) + links_bytes(
        l.outgoing,
    ) + links_bytes(l.incoming)
}

/// The kind of relation of a byte; the name of a custom one is read at `pos`.
pub open spec fn read_relation(b: u8, data: Seq<u8>, pos: nat) -> Result<
    (Relation, nat),
    ValueDecodeError,
> {
    match b {
        0 => Ok((Relation::Calls, pos)),
        1 => Ok((Relation::Imports, pos)),
        2 => Ok((Relation::Extends, pos)),
        3 => Ok((Relation::Implements, pos)),
        4 => Ok((Relation::Contains, pos)),
        5 => Ok((Relation::Uses, pos)),
        6 => Ok((Relation::TypeOf, pos)),
        255 => match read_field(data, pos, 0) {
            Err(e) => Err(e),
            Ok((name, at)) => Ok((Relation::Custom(name), at)),
        },
        _ => Err(ValueDecodeError::InvalidFormat),
    }
}

/// Reads the link at `pos`. Gives the link and the position behind it.
pub open spec fn read_link(data: Seq<u8>, pos: nat) -> Result<(Link, nat), ValueDecodeError> {
    match read_field(data, pos, 1) {
        Err(e) => Err(e),
        Ok((entity_id, at)) => match read_relation(data[at as int], data, at + 1) {
            Err(e) => Err(e),
            Ok((rel_kind, end)) => Ok((Link { entity_id, rel_kind }, end)),
        },
    }
}

/// Reads `n` links from `pos` on. Gives the links and the position behind them.
pub open spec fn read_links(data: Seq<u8>, pos: nat, n: nat) -> Result<
    (Seq<Link>, nat),
    ValueDecodeError,
>
    decreases n,
{
    if n == 0 {
        Ok((Seq::empty(), pos))
    } else {
        match read_link(data, pos) {
            Err(e) => Err(e),
            Ok((l, at)) => match read_links(data, at, (n - 1) as nat) {
                Err(e) => Err(e),
                Ok((rest, end)) => Ok((seq![l] + rest, end)),
            },
        }
    }
}

/// Reads the links behind the two numbers.
pub open spec fn read_both(data: Seq<u8>, outgoing: nat, incoming: nat) -> Result<
    Links,
    ValueDecodeError,
> {
    match read_links(data, 4, outgoing) {
        Err(e) => Err(e),
        Ok((outgoing, at)) => match read_links(data, at, incoming) {
            Err(e) => Err(e),
            Ok((incoming, _)) => Ok(Links { outgoing, incoming }),
        },
    }
}

/// Reads an adjacency list.
pub open spec fn read_adjacency(data: Seq<u8>) -> Result<Links, ValueDecodeError> {
    if data.len() < 4 {
        Err(ValueDecodeError::TooShort)
    } else {
        read_both(data, le_value(data.subrange(0, 2)), le_value(data.subrange(2, 4)))
    }
}

/// The texts of a link are short enough for their lengths to be stored.
pub open spec fn link_fits(l: Link) -> bool {
    &&& field_fits(l.entity_id)
    &&& l.rel_kind matches Relation::Custom(name) ==> field_fits(name)
}

/// The lengths of all links and their numbers can be stored.
pub open spec fn links_fit(l: Links) -> bool {
    &&& l.outgoing.len() < 0x1_0000
    &&& l.incoming.len() < 0x1_0000
    &&& forall|i: int| 0 <= i < l.outgoing.len() ==> link_fits(#[trigger] l.outgoing[i])
    &&& forall|i: int| 0 <= i < l.incoming.len() ==> link_fits(#[trigger] l.incoming[i])
}

/// Appending a link appends its bytes.
proof fn lemma_push_link(links: Seq<Link>, l: Link)
    ensures
        links_bytes(links.push(l)) == links_bytes(links) + link_bytes(l),
    decreases links.len(),
{
    let more = links.push(l);
    if links.len() == 0 {
        assert(more.drop_first() =~= Seq::empty());
        assert(links_bytes(more.drop_first()) =~= Seq::empty());
        assert(links_bytes(more) =~= links_bytes(links) + link_bytes(l));
    } else {
        lemma_push_link(links.drop_first(), l);
        assert(more.drop_first() =~= links.drop_first().push(l));
        assert(links_bytes(more) =~= links_bytes(links) + link_bytes(l));
    }
}

/// A link is read back wherever it stands.
proof fn lemma_link_round_trip(before: Seq<u8>, l: Link, after: Seq<u8>)
    requires
        link_fits(l),
    ensures
        read_link(before + link_bytes(l) + after, before.len()) == Ok::<
            (Link, nat),
            ValueDecodeError,
        >((l, before.len() + link_bytes(l).len())),
{
    let data = before + link_bytes(l) + after;
    let id = field_bytes(l.entity_id);
    let kind = seq![relation_byte(l.rel_kind)];
    let behind = kind + (name_bytes(l.rel_kind) + after);
    lemma_field_round_trip(before, l.entity_id, behind, 1);
    assert(data =~= before + id + behind);
    assert(data[(before.len() + id.len()) as int] == kind[0]);
    if let Relation::Custom(name) = l.rel_kind {
        lemma_field_round_trip(before + id + kind, name, after, 0);
        assert(data =~= (before + id + kind) + field_bytes(name) + after);
    }
}

/// Links are read back wherever they stand.
proof fn lemma_links_round_trip(before: Seq<u8>, links: Seq<Link>, after: Seq<u8>)
    requires
        forall|i: int| 0 <= i < links.len() ==> link_fits(#[trigger] links[i]),
    ensures
        read_links(before + links_bytes(links) + after, before.len(), links.len()) == Ok::<
            (Seq<Link>, nat),
            ValueDecodeError,
        >((links, before.len() + links_bytes(links).len())),
    decreases links.len(),
{
    if links.len() > 0 {
        let l = links[0];
        let rest = links.drop_first();
        let data = before + links_bytes(links) + after;
        let here = before + link_bytes(l);
        assert forall|i: int| 0 <= i < rest.len() implies link_fits(#[trigger] rest[i]) by {
            assert(rest[i] == links[i + 1]);
        }
        assert(link_fits(links[0]));
        lemma_link_round_trip(before, l, links_bytes(rest) + after);
        assert(data =~= here + (links_bytes(rest) + after));
        lemma_links_round_trip(here, rest, after);
        assert(data =~= here + links_bytes(rest) + after);
        assert(seq![l] + rest =~= links);
    } else {
        assert(links =~= Seq::empty());
    }
}

/// A link of which the end is cut off is too short.
proof fn lemma_link_cut(before: Seq<u8>, l: Link, after: Seq<u8>, cut: int)
    requires
        link_fits(l),
        before.len() <= cut < before.len() + link_bytes(l).len(),
    ensures
        read_link((before + link_bytes(l) + after).take(cut), before.len()) == Err::<
            (Link, nat),
            ValueDecodeError,
        >(ValueDecodeError::TooShort),
{
    let data = before + link_bytes(l) + after;
    let id = field_bytes(l.entity_id);
    let kind = seq![relation_byte(l.rel_kind)];
    let behind = kind + (name_bytes(l.rel_kind) + after);
    let here = before + id + kind;
    assert(data =~= before + id + behind);
    if cut < here.len() {
        lemma_field_cut(before, l.entity_id, behind, 1, cut);
    } else if let Relation::Custom(name) = l.rel_kind {
        let left = behind.take(cut - before.len() - id.len());
        assert(data.take(cut) =~= before + id + left);
        lemma_field_round_trip(before, l.entity_id, left, 1);
        assert(data.take(cut)[(before.len() + id.len()) as int] == kind[0]);
        lemma_field_cut(here, name, after, 0, cut);
        assert(data =~= here + field_bytes(name) + after);
    }
}

/// Links of which the end is cut off are too short.
proof fn lemma_links_cut(before: Seq<u8>, links: Seq<Link>, after: Seq<u8>, cut: int)
    requires
        forall|i: int| 0 <= i < links.len() ==> link_fits(#[trigger] links[i]),
        before.len() <= cut < before.len() + links_bytes(links).len(),
    ensures
        read_links(
            (before + links_bytes(links) + after).take(cut),
            before.len(),
            links.len(),
        ) == Err::<(Seq<Link>, nat), ValueDecodeError>(ValueDecodeError::TooShort),
    decreases links.len(),
{
    let l = links[0];
    let rest = links.drop_first();
    let data = before + links_bytes(links) + after;
    let here = before + link_bytes(l);
    assert forall|i: int| 0 <= i < rest.len() implies link_fits(#[trigger] rest[i]) by {
        assert(rest[i] == links[i + 1]);
    }
    assert(link_fits(links[0]));
    let behind = links_bytes(rest) + after;
    assert(data =~= here + behind);
    if cut < here.len() {
        lemma_link_cut(before, l, behind, cut);
    } else {
        let left = behind.take(cut - here.len());
        lemma_link_round_trip(before, l, left);
        assert(data.take(cut) =~= here + left);
        lemma_links_cut(here, rest, after, cut);
        assert(data =~= here + links_bytes(rest) + after);
    }
}

/// The first four of the bytes of four byte strings, the first two of them two bytes long.
proof fn lemma_first_four(a: Seq<u8>, b: Seq<u8>, c: Seq<u8>, d: Seq<u8>)
    requires
        a.len() == 2,
        b.len() == 2,
    ensures
        (a + b + c + d).take(4) == a + b,
{
    assert((a + b + c + d).take(4) =~= a + b);
}

/// The two halves of the first four bytes.
proof fn lemma_halves(data: Seq<u8>, a: Seq<u8>, b: Seq<u8>)
    requires
        a.len() == 2,
        b.len() == 2,
        data.len() >= 4,
        data.take(4) == a + b,
    ensures
        data.subrange(0, 2) == a,
        data.subrange(2, 4) == b,
{
    assert forall|i: int| 0 <= i < 4 implies data[i] == (a + b)[i] by {
        assert(data[i] == data.take(4)[i]);
    }
    assert(data.subrange(0, 2) =~= a);
    assert(data.subrange(2, 4) =~= b);
}

/// Two numbers are read back from four bytes.
proof fn lemma_two_numbers(data: Seq<u8>, m: nat, n: nat)
    requires
        m < 0x1_0000,
        n < 0x1_0000,
        data.len() >= 4,
        data.take(4) == le_bytes(m, 2) + le_bytes(n, 2),
    ensures
        le_value(data.subrange(0, 2)) == m,
        le_value(data.subrange(2, 4)) == n,
{
    lemma_le_bounds();
    lemma_le_round_trip(m, 2);
    lemma_le_round_trip(n, 2);
    lemma_halves(data, le_bytes(m, 2), le_bytes(n, 2));
}

/// The numbers of links are read back.
proof fn lemma_heads(l: Links, data: Seq<u8>)
    requires
        l.outgoing.len() < 0x1_0000,
        l.incoming.len() < 0x1_0000,
        data.len() >= 4,
        data.take(4) == adjacency_bytes(l).take(4),
    ensures
        read_adjacency(data) == read_both(data, l.outgoing.len(), l.incoming.len()),
{
    let (m, n) = (l.outgoing.len(), l.incoming.len());
    lemma_le_len(m, 2);
    lemma_le_len(n, 2);
    assert(len16(m) == m && len16(n) == n);
    let (lo, li) = (links_bytes(l.outgoing), links_bytes(l.incoming));
    lemma_first_four(le_bytes(m, 2), le_bytes(n, 2), lo, li);
    assert(adjacency_bytes(l) == le_bytes(m, 2) + le_bytes(n, 2) + lo + li);
    lemma_two_numbers(data, m, n);
}

/// The two numbers are four bytes.
proof fn lemma_head_len(l: Links)
    ensures
        (le_bytes(len16(l.outgoing.len()), 2) + le_bytes(len16(l.incoming.len()), 2)).len() == 4,
{
    lemma_le_len(len16(l.outgoing.len()), 2);
    lemma_le_len(len16(l.incoming.len()), 2);
}

/// Decoding an encoded adjacency list gives it back, if its lengths can be stored. What follows
/// the encoding does not matter.
pub proof fn law_adjacency_round_trip(l: Links, after: Seq<u8>)
    requires
        links_fit(l),
    ensures
        read_adjacency(adjacency_bytes(l) + after) == Ok::<Links, ValueDecodeError>(l),
{
    let data = adjacency_bytes(l) + after;
    let head = le_bytes(len16(l.outgoing.len()), 2) + le_bytes(len16(l.incoming.len()), 2);
    let (lo, li) = (links_bytes(l.outgoing), links_bytes(l.incoming));
    lemma_head_len(l);
    assert(data.take(4) =~= adjacency_bytes(l).take(4));
    lemma_heads(l, data);
    lemma_links_round_trip(head, l.outgoing, li + after);
    lemma_links_round_trip(head + lo, l.incoming, after);
    assert(data =~= head + lo + (li + after));
    assert(data =~= (head + lo) + li + after);
}

/// An encoded adjacency list without its end is too short, wherever it is cut.
pub proof fn law_adjacency_cut(l: Links, cut: nat)
    requires
        links_fit(l),
        cut < adjacency_bytes(l).len(),
    ensures
        read_adjacency(adjacency_bytes(l).take(cut as int)) == Err::<Links, ValueDecodeError>(
            ValueDecodeError::TooShort,
        ),
{
    let whole = adjacency_bytes(l);
    let data = whole.take(cut as int);
    let head = le_bytes(len16(l.outgoing.len()), 2) + le_bytes(len16(l.incoming.len()), 2);
    let (lo, li) = (links_bytes(l.outgoing), links_bytes(l.incoming));
    lemma_head_len(l);
    if cut >= 4 {
        assert(data.take(4) =~= whole.take(4));
        lemma_heads(l, data);
        if cut < 4 + lo.len() {
            lemma_links_cut(head, l.outgoing, li, cut as int);
        } else {
            let none = Seq::<u8>::empty();
            let left = li.take(cut - 4 - lo.len());
            lemma_links_round_trip(head, l.outgoing, left);
            assert(data =~= head + lo + left);
            lemma_links_cut(head + lo, l.incoming, none, cut as int);
            assert(whole =~= (head + lo) + li + none);
        }
    }
}

/// The bytes of the kinds of relation, one for each.
pub proof fn law_relation_bytes(name: Seq<char>)
    ensures
        relation_byte(Relation::Calls) == 0,
        relation_byte(Relation::Imports) == 1,
        relation_byte(Relation::Extends) == 2,
        relation_byte(Relation::Implements) == 3,
        relation_byte(Relation::Contains) == 4,
        relation_byte(Relation::Uses) == 5,
        relation_byte(Relation::TypeOf) == 6,
        relation_byte(Relation::Custom(name)) == 255,
{
}

/// An encoded link is the identifier as a text field, the byte of the kind and, if the kind is a
/// custom one, its name as a text field. Links stand one behind another; the numbers of outgoing
/// and of incoming links come first, two bytes each, then the outgoing links, then the incoming
/// ones.
pub proof fn law_adjacency_bytes(l: Links, links: Seq<Link>, more: Seq<Link>)
    ensures
        adjacency_bytes(l) == le_bytes(l.outgoing.len() % 0x1_0000, 2) + le_bytes(
            l.incoming.len() % 0x1_0000,
            2,
        ) + links_bytes(l.outgoing) + links_bytes(l.incoming),
        links_bytes(Seq::empty()) == Seq::<u8>::empty(),
        links.len() == 1 ==> links_bytes(links) == field_bytes(links[0].entity_id) + seq![
            relation_byte(links[0].rel_kind),
        ] + match links[0].rel_kind {
            Relation::Custom(name) => field_bytes(name),
            _ => Seq::empty(),
        },
        links_bytes(links + more) == links_bytes(links) + links_bytes(more),
    decreases links.len(),
{
    if links.len() == 0 {
        assert(links + more =~= more);
        assert(links_bytes(links) + links_bytes(more) =~= links_bytes(more));
    } else {
        let rest = links.drop_first();
        law_adjacency_bytes(l, rest, more);
        assert((links + more).drop_first() =~= rest + more);
        assert(links_bytes(links + more) =~= links_bytes(links) + links_bytes(more));
        if links.len() == 1 {
            assert(rest =~= Seq::empty());
            assert(links_bytes(links) =~= link_bytes(links[0]));
        }
    }
}

/// What is read as a link is one: the bytes read are its encoding. A kind that no byte stands for
/// is refused as such; otherwise a link is refused for the reason for which one of its texts is.
pub proof fn law_read_link(data: Seq<u8>, pos: nat)
    ensures
        match read_link(data, pos) {
            Ok((l, end)) => {
                &&& link_fits(l)
                &&& end == pos + link_bytes(l).len()
                &&& end <= data.len()
                &&& data.subrange(pos as int, end as int) == link_bytes(l)
            },
            Err(e) => match read_field(data, pos, 1) {
                Err(cause) => e == cause,
                Ok((_, at)) => if data[at as int] == 255 {
                    read_field(data, at + 1, 0) == Err::<(Seq<char>, nat), ValueDecodeError>(e)
                } else {
                    e is InvalidFormat && 6 < data[at as int] < 255
                },
            },
        },
{
    law_read_field(data, pos, 1);
    if let Ok((entity_id, at)) = read_field(data, pos, 1) {
        law_read_field(data, at + 1, 0);
        let b = data[at as int];
        if let Ok((l, end)) = read_link(data, pos) {
            let id = data.subrange(pos as int, at as int);
            let kind = seq![b];
            assert(data.subrange(pos as int, end as int) =~= id + kind + data.subrange(
                (at + 1) as int,
                end as int,
            ));
            if b != 255 {
                assert(data.subrange((at + 1) as int, end as int) =~= Seq::empty());
            }
        }
    }
}

/// What is decoded as an adjacency list is one: its bytes come first.
pub proof fn law_read_adjacency(data: Seq<u8>)
    ensures
        data.len() < 4 ==> read_adjacency(data) == Err::<Links, ValueDecodeError>(
            ValueDecodeError::TooShort,
        ),
        read_adjacency(data) matches Ok(l) ==> {
            &&& links_fit(l)
            &&& adjacency_bytes(l).len() <= data.len()
            &&& data.take(adjacency_bytes(l).len() as int) == adjacency_bytes(l)
        },
{
    if let Ok(l) = read_adjacency(data) {
        let (a, b) = (data.subrange(0, 2), data.subrange(2, 4));
        lemma_le_bounds();
        lemma_le_of_value(a);
        lemma_le_of_value(b);
        lemma_read_links(data, 4, le_value(a));
        let at = read_links(data, 4, le_value(a))->Ok_0.1;
        lemma_read_links(data, at, le_value(b));
        let end = read_links(data, at, le_value(b))->Ok_0.1;
        lemma_four_parts(data, a, b, at as int, end as int);
        assert(adjacency_bytes(l) == a + b + links_bytes(l.outgoing) + links_bytes(l.incoming));
    }
}

proof fn lemma_four_parts(data: Seq<u8>, a: Seq<u8>, b: Seq<u8>, at: int, end: int)
    requires
        4 <= at <= end <= data.len(),
        a == data.subrange(0, 2),
        b == data.subrange(2, 4),
    ensures
        data.take(end) == a + b + data.subrange(4, at) + data.subrange(at, end),
        (a + b + data.subrange(4, at) + data.subrange(at, end)).len() == end,
{
    assert(data.take(end) =~= a + b + data.subrange(4, at) + data.subrange(at, end));
}

proof fn lemma_read_links(data: Seq<u8>, pos: nat, n: nat)
    requires
        pos <= data.len(),
    ensures
        read_links(data, pos, n) matches Ok((links, end)) ==> {
            &&& links.len() == n
            &&& forall|i: int| 0 <= i < links.len() ==> link_fits(#[trigger] links[i])
            &&& end == pos + links_bytes(links).len()
            &&& end <= data.len()
            &&& data.subrange(pos as int, end as int) == links_bytes(links)
        },
    decreases n,
{
    if n == 0 {
        assert(data.subrange(pos as int, pos as int) =~= Seq::empty());
    } else {
        law_read_link(data, pos);
        if let Ok((l, at)) = read_link(data, pos) {
            lemma_read_links(data, at, (n - 1) as nat);
            if let Ok((rest, end)) = read_links(data, at, (n - 1) as nat) {
                let all = seq![l] + rest;
                assert(all.drop_first() =~= rest);
                assert(data.subrange(pos as int, end as int) =~= data.subrange(
                    pos as int,
                    at as int,
                ) + data.subrange(at as int, end as int));
                assert forall|i: int| 0 <= i < all.len() implies link_fits(#[trigger] all[i]) by {
                    if i > 0 {
                        assert(all[i] == rest[i - 1]);
                    }
                }
            }
        }
    }
}

/// Decoding ends with the error of the first link that cannot be read, in the order in which they
/// stand: those before it are read without one.
pub proof fn law_links_fail_at_the_first(data: Seq<u8>, pos: nat, k: nat, n: nat)
    requires
        k < n,
        read_links(data, pos, k) is Ok,
        read_link(data, read_links(data, pos, k)->Ok_0.1) is Err,
    ensures
        read_links(data, pos, n) == Err::<(Seq<Link>, nat), ValueDecodeError>(
            read_link(data, read_links(data, pos, k)->Ok_0.1)->Err_0,
        ),
    decreases k,
{
    if k > 0 {
        let at = read_link(data, pos)->Ok_0.1;
        law_links_fail_at_the_first(data, at, (k - 1) as nat, (n - 1) as nat);
    }
}

/// The model of a list has its edges, in order, and the model of an edge its fields.
pub proof fn law_adjacency_view(list: AdjacencyList, edge: Edge, kind: RelKind)
    ensures
        list@.outgoing.len() == list.outgoing@.len(),
        list@.incoming.len() == list.incoming@.len(),
        forall|i: int|
            0 <= i < list.outgoing@.len() ==> #[trigger] list@.outgoing[i] == list.outgoing@[i]@,
        forall|i: int|
            0 <= i < list.incoming@.len() ==> #[trigger] list@.incoming[i] == list.incoming@[i]@,
        edge@.entity_id == edge.entity_id@ && edge@.rel_kind == edge.rel_kind@,
        kind matches RelKind::Custom(name) ==> kind@ == Relation::Custom(name@),
        kind is Calls <==> kind@ is Calls,
        kind is Imports <==> kind@ is Imports,
        kind is Extends <==> kind@ is Extends,
        kind is Implements <==> kind@ is Implements,
        kind is Contains <==> kind@ is Contains,
        kind is Uses <==> kind@ is Uses,
        kind is TypeOf <==> kind@ is TypeOf,
{
}

impl RelKind {
    /// The byte of the kind.
    fn to_byte(&self) -> (b: u8)
        ensures
            b == relation_byte(self@),
    {
        match self {
            RelKind::Calls => 0,
            RelKind::Imports => 1,
            RelKind::Extends => 2,
            RelKind::Implements => 3,
            RelKind::Contains => 4,
            RelKind::Uses => 5,
            RelKind::TypeOf => 6,
            RelKind::Custom(_) => 255,
        }
    }

    /// The kind of a byte; the name of a custom one is read at `pos`.
    fn from_byte(b: u8, data: &[u8], pos: usize) -> (r: Result<(Self, usize), ValueDecodeError>)
        requires
            pos <= data@.len(),
        ensures
            match r {
                Ok((kind, end)) => {
                    &&& read_relation(b, data@, pos as nat) == Ok::<
                        (Relation, nat),
                        ValueDecodeError,
                    >((kind@, end as nat))
                    &&& pos <= end <= data@.len()
                },
                Err(e) => read_relation(b, data@, pos as nat) == Err::<
                    (Relation, nat),
                    ValueDecodeError,
                >(e),
            },
    {
        match b {
            0 => Ok((RelKind::Calls, pos)),
            1 => Ok((RelKind::Imports, pos)),
            2 => Ok((RelKind::Extends, pos)),
            3 => Ok((RelKind::Implements, pos)),
            4 => Ok((RelKind::Contains, pos)),
            5 => Ok((RelKind::Uses, pos)),
            6 => Ok((RelKind::TypeOf, pos)),
            255 => match take_field(data, pos, 0) {
                Ok((name, end)) => Ok((RelKind::Custom(name), end)),
                Err(e) => Err(e),
            },
            _ => Err(ValueDecodeError::InvalidFormat),
        }
    }
}

/// Appends an edge.
fn encode_edge(buf: &mut Vec<u8>, edge: &Edge)
    ensures
        final(buf)@ == old(buf)@ + link_bytes(edge@),
{
    append_field(buf, edge.entity_id.as_str());
    buf.push(edge.rel_kind.to_byte());
    if let RelKind::Custom(name) = &edge.rel_kind {
        append_field(buf, name.as_str());
    }
    assert(buf@ =~= old(buf)@ + link_bytes(edge@));
}

/// Appends edges.
fn encode_edges(buf: &mut Vec<u8>, edges: &Vec<Edge>)
    ensures
        final(buf)@ == old(buf)@ + links_bytes(links_view(edges@)),
{
    let ghost all = links_view(edges@);
    let ghost head = buf@;
    let mut i: usize = 0;
    assert(all.take(0) =~= Seq::empty());
    assert(head + links_bytes(all.take(0)) =~= head);
    while i < edges.len()
        invariant
            i <= edges@.len(),
            all == links_view(edges@),
            buf@ == head + links_bytes(all.take(i as int)),
        decreases edges@.len() - i,
    {
        encode_edge(buf, &edges[i]);
        proof {
            lemma_push_link(all.take(i as int), all[i as int]);
            assert(all.take(i + 1) =~= all.take(i as int).push(all[i as int]));
            assert(buf@ =~= head + links_bytes(all.take(i + 1)));
        }
        i += 1;
    }
    assert(all.take(i as int) =~= all);
}

/// Reads the edge at `pos`.
fn decode_edge(data: &[u8], pos: usize) -> (r: Result<(Edge, usize), ValueDecodeError>)
    requires
        pos <= data@.len(),
    ensures
        match r {
            Ok((edge, end)) => {
                &&& read_link(data@, pos as nat) == Ok::<(Link, nat), ValueDecodeError>(
                    (edge@, end as nat),
                )
                &&& end <= data@.len()
            },
            Err(e) => read_link(data@, pos as nat) == Err::<(Link, nat), ValueDecodeError>(e),
        },
{
    match take_field(data, pos, 1) {
        Err(e) => Err(e),
        Ok((entity_id, at)) => {
            assert(at + 1 <= data.len());
            match RelKind::from_byte(data[at], data, at + 1) {
                Err(e) => Err(e),
                Ok((rel_kind, end)) => Ok((Edge { entity_id, rel_kind }, end)),
            }
        },
    }
}

/// Reads `n` edges from `pos` on.
fn decode_edges(data: &[u8], pos: usize, n: u16) -> (r: Result<
    (Vec<Edge>, usize),
    ValueDecodeError,
>)
    requires
        pos <= data@.len(),
    ensures
        match r {
            Ok((edges, end)) => {
                &&& read_links(data@, pos as nat, n as nat) == Ok::<
                    (Seq<Link>, nat),
                    ValueDecodeError,
                >((links_view(edges@), end as nat))
                &&& end <= data@.len()
            },
            Err(e) => read_links(data@, pos as nat, n as nat) == Err::<
                (Seq<Link>, nat),
                ValueDecodeError,
            >(e),
        },
{
    let mut edges: Vec<Edge> = Vec::new();
    let mut at: usize = pos;
    let mut i: u16 = 0;
    let ghost whole = read_links(data@, pos as nat, n as nat);
    assert(whole matches Ok((rest, _)) ==> links_view(edges@) + rest =~= rest);
    while i < n
        invariant
            i <= n,
            at <= data@.len(),
            whole == read_links(data@, pos as nat, n as nat),
            match read_links(data@, at as nat, (n - i) as nat) {
                Ok((rest, end)) => whole == Ok::<(Seq<Link>, nat), ValueDecodeError>(
                    (links_view(edges@) + rest, end),
                ),
                Err(e) => whole == Err::<(Seq<Link>, nat), ValueDecodeError>(e),
            },
        decreases n - i,
    {
        match decode_edge(data, at) {
            Err(e) => {
                return Err(e);
            },
            Ok((edge, end)) => {
                let ghost before = links_view(edges@);
                let ghost one = edge@;
                edges.push(edge);
                proof {
                    assert(links_view(edges@) =~= before.push(one));
                    if let Ok((rest, _)) = read_links(data@, end as nat, (n - i - 1) as nat) {
                        assert(before + (seq![one] + rest) =~= links_view(edges@) + rest);
                    }
                }
                at = end;
            },
        }
        i += 1;
    }
    assert(links_view(edges@) + Seq::<Link>::empty() =~= links_view(edges@));
    Ok((edges, at))
}

impl AdjacencyList {
    /// Encodes the list.
    pub fn encode(&self) -> (bytes: Vec<u8>)
        ensures
            bytes@ == adjacency_bytes(self@),
    {
        let mut buf: Vec<u8> = Vec::new();
        append_u16(&mut buf, low16(self.outgoing.len()));
        append_u16(&mut buf, low16(self.incoming.len()));
        encode_edges(&mut buf, &self.outgoing);
        encode_edges(&mut buf, &self.incoming);
        assert(buf@ =~= adjacency_bytes(self@));
        buf
    }

    /// Decodes a list. Bytes behind it are ignored.
    pub fn decode(data: &[u8]) -> (r: Result<Self, ValueDecodeError>)
        ensures
            match r {
                Ok(list) => read_adjacency(data@) == Ok::<Links, ValueDecodeError>(list@),
                Err(e) => read_adjacency(data@) == Err::<Links, ValueDecodeError>(e),
            },
    {
        if data.len() < 4 {
            return Err(ValueDecodeError::TooShort);
        }
        let num_outgoing: u16 = read_u16(data, 0);
        let num_incoming: u16 = read_u16(data, 2);
        match decode_edges(data, 4, num_outgoing) {
            Err(e) => Err(e),
            Ok((outgoing, at)) => match decode_edges(data, at, num_incoming) {
                Err(e) => Err(e),
                Ok((incoming, _)) => Ok(AdjacencyList { outgoing, incoming }),
            },
        }
    }

    /// Number of edges.
    pub fn edge_count(&self) -> (n: usize)
        requires
            self@.outgoing.len() + self@.incoming.len() <= usize::MAX,
        ensures
            n as nat == self@.outgoing.len() + self@.incoming.len(),
    {
        self.outgoing.len() + self.incoming.len()
    }
}

} // verus!
