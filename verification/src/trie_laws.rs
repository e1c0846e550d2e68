//! What the trie owes to whoever writes it: units that are put together by the format are
//! taken apart again, and the keys of a laid out trie are found.
use crate::trie::{
    arc, entries, in_bounds, law_search_finds_all_prefixes, lookup, next_in_bounds, reach, root,
    step, unit_has_leaf, unit_label, unit_offset, unit_value, units_of_bytes, TrieEntry,
    TrieEntryIter,
};
use vstd::prelude::*;

verus! {

// ---------------------------------------------------------------------------
// Units
// ---------------------------------------------------------------------------
/// A unit is the sum of its parts, and each part is read back as it was put in: the label
/// in the lowest eight bits, the leaf flag above it, the flag for multiples of 256 above
/// that, and the number that makes the offset in all bits above. Bit 31, which is bit 21 of
/// that number, belongs to the label too.
pub proof fn law_parts_of_unit_are_read_back(byte: u8, leaf: bool, wide: bool, field: int)
    requires
        0 <= field,
    ensures
        ({
            let unit = byte + (if leaf {
                0x100int
            } else {
                0
            }) + (if wide {
                0x200int
            } else {
                0
            }) + 0x400 * field;
            &&& unit_has_leaf(unit) == leaf
            &&& !wide ==> unit_offset(unit) == field
            &&& wide ==> unit_offset(unit) == 0x100 * field
            &&& field / 0x20_0000 % 2 == 0 ==> unit_label(unit) == byte
            &&& field / 0x20_0000 % 2 == 1 ==> unit_label(unit) == 0x8000_0000 + byte
        }),
{
}

/// A unit without bit 31 has the label `byte` exactly if its low eight bits are `byte`; one
/// with bit 31, which holds a value, has no byte as its label.
pub proof fn law_label_is_the_low_byte(unit: u32, byte: u8)
    ensures
        unit & 0x8000_0000 == 0 ==> (unit_label(unit as int) == byte <==> unit & 0xFF
            == byte as u32),
        unit & 0x8000_0000 != 0 ==> unit_label(unit as int) != byte,
{
    assert(unit & 0x8000_0000 == 0 <==> unit < 0x8000_0000) by (bit_vector);
    assert(unit & 0xFF == unit % 0x100) by (bit_vector);
}

/// The value of a leaf is what stands below bit 31, which makes no difference to it.
pub proof fn law_value_is_read_back(value: u32)
    requires
        value < 0x8000_0000,
    ensures
        unit_value(value as int) == value,
        unit_value(0x8000_0000 + value) == value,
{
}

/// The units of a buffer are its groups of four bytes, the lowest byte of a unit first: bits
/// 8 and up are in the second byte, bits 16 and up in the third, bits 24 and up in the fourth.
pub proof fn law_units_are_little_endian(bytes: Seq<u8>, size: nat, i: int)
    requires
        4 * size <= bytes.len(),
    ensures
        units_of_bytes(bytes, size).len() == size,
        0 <= i < size ==> units_of_bytes(bytes, size)[i] == (bytes[4 * i] as u32) | (
        bytes[4 * i + 1] as u32) << 8 | (bytes[4 * i + 2] as u32) << 16 | (bytes[4 * i
            + 3] as u32) << 24,
{
    let b0 = bytes[4 * i] as u32;
    let b1 = bytes[4 * i + 1] as u32;
    let b2 = bytes[4 * i + 2] as u32;
    let b3 = bytes[4 * i + 3] as u32;
    assert(b0 | b1 << 8 | b2 << 16 | b3 << 24 == b0 + 0x100 * b1 + 0x1_0000 * b2 + 0x100_0000 * b3)
        by (bit_vector)
        requires
            b0 < 0x100,
            b1 < 0x100,
            b2 < 0x100,
            b3 < 0x100,
    ;
}

// ---------------------------------------------------------------------------
// Layout
// ---------------------------------------------------------------------------
/// Whether `unit` is what is written for an arc over `byte` with this leaf flag and offset:
/// bit 31 is clear, and the offset stands as it is or in multiples of 256.
pub open spec fn is_arc_unit(unit: u32, byte: u8, leaf: bool, offset: int) -> bool {
    exists|wide: bool, field: int|
        {
            &&& 0 <= field < 0x20_0000
            &&& offset == field * (if wide {
                0x100int
            } else {
                1
            })
            &&& unit == #[trigger] pack(byte, leaf, wide, field)
        }
}

/// The sum of the parts of a unit.
pub open spec fn pack(byte: u8, leaf: bool, wide: bool, field: int) -> int {
    byte + (if leaf {
        0x100int
    } else {
        0
    }) + (if wide {
        0x200int
    } else {
        0
    }) + 0x400 * field
}

/// Whether `units` are a double array for the keys of `values`, where `nodes` gives the place
/// of the node that each beginning of a key leads to, the empty one included.
///
/// The first unit has the place of the root as its offset. From a node, the arc over a byte
/// is the unit at the place of the node xor the byte. Where a key goes on with that byte,
/// the unit is written for it, with the leaf flag if a key ends there and with the offset
/// that leads to the next node. Where no key goes on with it, the unit is one of another arc
/// or of a leaf. At the node where a key ends stands its value, with bit 31.
pub open spec fn is_laid_out(
    units: Seq<u32>,
    nodes: Map<Seq<u8>, usize>,
    values: Map<Seq<u8>, u32>,
) -> bool {
    &&& units.len() > 0
    &&& nodes.contains_key(Seq::empty())
    &&& exists|byte: u8, leaf: bool| #[trigger]
        is_arc_unit(units[0], byte, leaf, nodes[Seq::empty()] as int)
    &&& forall|key: Seq<u8>| #[trigger]
        nodes.contains_key(key) && key.len() > 0 ==> nodes.contains_key(key.drop_last())
    &&& forall|key: Seq<u8>| #[trigger]
        values.contains_key(key) ==> {
            &&& key.len() > 0
            &&& nodes.contains_key(key)
            &&& nodes[key] < units.len()
            &&& values[key] < 0x8000_0000
            &&& units[nodes[key] as int] == 0x8000_0000 + values[key]
        }
    &&& forall|key: Seq<u8>, byte: u8| #[trigger]
        nodes.contains_key(key) ==> {
            let at = nodes[key] ^ (byte as usize);
            let next = #[trigger] key.push(byte);
            &&& at < units.len()
            &&& nodes.contains_key(next) ==> is_arc_unit(
                units[at as int],
                byte,
                values.contains_key(next),
                (at ^ nodes[next]) as int,
            )
            &&& !nodes.contains_key(next) ==> units[at as int] >= 0x8000_0000 || units[at as int]
                % 0x100 != byte
        }
}

/// A trie that is laid out for a set of keys holds each of them with its value, and no other
/// key.
pub proof fn law_laid_out_keys_are_held(
    units: Seq<u32>,
    nodes: Map<Seq<u8>, usize>,
    values: Map<Seq<u8>, u32>,
    key: Seq<u8>,
)
    requires
        is_laid_out(units, nodes, values),
    ensures
        lookup(units, key) == (if values.contains_key(key) {
            Some(values[key])
        } else {
            None
        }),
{
    if key.len() > 0 {
        let before = key.drop_last();
        let byte = key.last();
        lemma_reach_laid_out(units, nodes, values, before);
        if nodes.contains_key(before) {
            lemma_step_laid_out(units, nodes, values, before, byte);
            assert(before.push(byte) =~= key);
            if values.contains_key(key) {
                law_value_is_read_back(values[key]);
            }
        } else {
            assert(!nodes.contains_key(key));
        }
    }
}

/// A search in a trie that is laid out for a set of keys finds the keys with which the input
/// goes on at `offset`, each with its value and with the place where it ends in the input,
/// and finds nothing else.
pub proof fn law_laid_out_keys_are_found(
    units: Seq<u32>,
    nodes: Map<Seq<u8>, usize>,
    values: Map<Seq<u8>, u32>,
    data: Seq<u8>,
    offset: int,
    entry: TrieEntry,
)
    requires
        is_laid_out(units, nodes, values),
        0 <= offset <= data.len() <= usize::MAX,
    ensures
        entries(units, root(units), data, offset).contains(entry) <==> {
            &&& offset < entry.end <= data.len()
            &&& values.contains_key(data.subrange(offset, entry.end as int))
            &&& values[data.subrange(offset, entry.end as int)] == entry.value
        },
{
    law_search_finds_all_prefixes(units, data, offset, entry);
    if offset < entry.end <= data.len() {
        law_laid_out_keys_are_held(units, nodes, values, data.subrange(offset, entry.end as int));
    }
}

/// A search in a trie that is laid out for a set of keys reads only units that exist,
/// whatever the input.
pub proof fn law_laid_out_in_bounds(
    units: Seq<u32>,
    nodes: Map<Seq<u8>, usize>,
    values: Map<Seq<u8>, u32>,
    data: Seq<u8>,
    offset: int,
)
    requires
        is_laid_out(units, nodes, values),
    ensures
        in_bounds(units, root(units), data, offset),
        next_in_bounds(units, root(units), data, offset),
{
    lemma_root_laid_out(units, nodes, values);
    lemma_laid_out_from(units, nodes, values, Seq::empty(), data, offset);
}

/// A search that stands at the root of a trie that is laid out for a set of keys has yet to
/// yield the keys with which the input goes on, and nothing else; and it may be advanced.
pub proof fn law_iterator_yields_the_keys(
    search: TrieEntryIter<'_>,
    nodes: Map<Seq<u8>, usize>,
    values: Map<Seq<u8>, u32>,
    entry: TrieEntry,
)
    requires
        is_laid_out(search.units(), nodes, values),
        search.node_pos() == root(search.units()),
        search.offset() <= search.data().len() <= usize::MAX,
    ensures
        search.remaining().contains(entry) <==> {
            let word = search.data().subrange(search.offset() as int, entry.end as int);
            &&& search.offset() < entry.end <= search.data().len()
            &&& values.contains_key(word)
            &&& values[word] == entry.value
        },
        search.next_in_bounds(),
        search.in_bounds(),
{
    let data = search.data();
    let offset = search.offset() as int;
    law_laid_out_keys_are_found(search.units(), nodes, values, data, offset, entry);
    law_laid_out_in_bounds(search.units(), nodes, values, data, offset);
}

/// What a search has yet to yield depends on nothing but the units, the node where it
/// stands and the input from there on.
pub proof fn law_iterator_yields_what_is_found(search: TrieEntryIter<'_>)
    ensures
        search.remaining() == entries(
            search.units(),
            search.node_pos(),
            search.data(),
            search.offset() as int,
        ),
        search.next_in_bounds() == next_in_bounds(
            search.units(),
            search.node_pos(),
            search.data(),
            search.offset() as int,
        ),
        search.in_bounds() == in_bounds(
            search.units(),
            search.node_pos(),
            search.data(),
            search.offset() as int,
        ),
{
}

proof fn lemma_arc_unit(unit: u32, byte: u8, leaf: bool, offset: int)
    requires
        is_arc_unit(unit, byte, leaf, offset),
    ensures
        unit_label(unit as int) == byte,
        unit_has_leaf(unit as int) == leaf,
        unit_offset(unit as int) == offset,
{
    let (wide, field) = choose|wide: bool, field: int|
        {
            &&& 0 <= field < 0x20_0000
            &&& offset == field * (if wide {
                0x100int
            } else {
                1
            })
            &&& unit == #[trigger] pack(byte, leaf, wide, field)
        };
    law_parts_of_unit_are_read_back(byte, leaf, wide, field);
}

proof fn lemma_root_laid_out(
    units: Seq<u32>,
    nodes: Map<Seq<u8>, usize>,
    values: Map<Seq<u8>, u32>,
)
    requires
        is_laid_out(units, nodes, values),
    ensures
        root(units) == nodes[Seq::empty()],
{
    let top = nodes[Seq::empty()] as int;
    let (byte, leaf) = choose|byte: u8, leaf: bool| #[trigger]
        is_arc_unit(units[0], byte, leaf, top);
    lemma_arc_unit(units[0], byte, leaf, top);
}

proof fn lemma_step_laid_out(
    units: Seq<u32>,
    nodes: Map<Seq<u8>, usize>,
    values: Map<Seq<u8>, u32>,
    key: Seq<u8>,
    byte: u8,
)
    requires
        is_laid_out(units, nodes, values),
        nodes.contains_key(key),
    ensures
        arc(nodes[key], byte) < units.len(),
        step(units, nodes[key], byte) == (if nodes.contains_key(key.push(byte)) {
            Some(nodes[key.push(byte)])
        } else {
            None
        }),
        nodes.contains_key(key.push(byte)) ==> unit_has_leaf(
            units[arc(nodes[key], byte) as int] as int,
        ) == values.contains_key(key.push(byte)),
{
    let next = key.push(byte);
    let at = nodes[key] ^ (byte as usize);
    let unit = units[at as int];
    assert(at < units.len());
    if nodes.contains_key(next) {
        let to = nodes[next];
        lemma_arc_unit(unit, byte, values.contains_key(next), (at ^ to) as int);
        assert(at ^ (at ^ to) == to) by (bit_vector);
    } else {
        law_label_is_the_low_byte(unit, byte);
        assert(unit & 0x8000_0000 == 0 <==> unit < 0x8000_0000) by (bit_vector);
        assert(unit & 0xFF == unit % 0x100) by (bit_vector);
    }
}

proof fn lemma_reach_laid_out(
    units: Seq<u32>,
    nodes: Map<Seq<u8>, usize>,
    values: Map<Seq<u8>, u32>,
    key: Seq<u8>,
)
    requires
        is_laid_out(units, nodes, values),
    ensures
        reach(units, key) == (if nodes.contains_key(key) {
            Some(nodes[key])
        } else {
            None
        }),
    decreases key.len(),
{
    if key.len() == 0 {
        assert(key =~= Seq::empty());
        lemma_root_laid_out(units, nodes, values);
    } else {
        let before = key.drop_last();
        lemma_reach_laid_out(units, nodes, values, before);
        assert(before.push(key.last()) =~= key);
        if nodes.contains_key(before) {
            lemma_step_laid_out(units, nodes, values, before, key.last());
        } else {
            assert(!nodes.contains_key(key));
        }
    }
}

proof fn lemma_laid_out_from(
    units: Seq<u32>,
    nodes: Map<Seq<u8>, usize>,
    values: Map<Seq<u8>, u32>,
    key: Seq<u8>,
    data: Seq<u8>,
    i: int,
)
    requires
        is_laid_out(units, nodes, values),
        nodes.contains_key(key),
    ensures
        in_bounds(units, nodes[key], data, i),
        next_in_bounds(units, nodes[key], data, i),
    decreases data.len() - i,
{
    if 0 <= i < data.len() {
        let next = key.push(data[i]);
        lemma_step_laid_out(units, nodes, values, key, data[i]);
        if nodes.contains_key(next) {
            lemma_laid_out_from(units, nodes, values, next, data, i + 1);
        }
    }
}

/// How a search goes on from a node, in any units. The next byte leads to the unit at the
/// place of the node xor the byte. If the label of that unit, with bit 31, is the byte, the
/// search goes on at the place of the unit xor its offset; and if the leaf flag is set, it
/// finds the lower 31 bits of the unit there. Otherwise it is over.
pub proof fn law_search_goes_one_byte_on(units: Seq<u32>, pos: usize, data: Seq<u8>, i: int)
    requires
        0 <= i < data.len() <= usize::MAX,
        pos ^ (data[i] as usize) < units.len(),
    ensures
        ({
            let at = pos ^ (data[i] as usize);
            let unit = units[at as int];
            let next = at ^ (((unit >> 10) << ((unit & 0x200) >> 6)) as usize);
            let rest = entries(units, next, data, i + 1);
            if unit & 0x8000_00FF != data[i] as u32 {
                &&& entries(units, pos, data, i).len() == 0
                &&& next_in_bounds(units, pos, data, i)
                &&& in_bounds(units, pos, data, i)
            } else if unit & 0x100 == 0 {
                &&& entries(units, pos, data, i) == rest
                &&& next_in_bounds(units, pos, data, i) == next_in_bounds(units, next, data, i + 1)
                &&& in_bounds(units, pos, data, i) == in_bounds(units, next, data, i + 1)
            } else {
                &&& entries(units, pos, data, i) == seq![
                    TrieEntry {
                        value: units[next as int] & 0x7FFF_FFFF,
                        end: (i + 1) as usize,
                    },
                ] + rest
                &&& next_in_bounds(units, pos, data, i) == (next < units.len())
                &&& in_bounds(units, pos, data, i) == (next < units.len() && in_bounds(
                    units,
                    next,
                    data,
                    i + 1,
                ))
            }
        }),
{
    let at = pos ^ (data[i] as usize);
    let unit = units[at as int];
    let byte = data[i];
    lemma_offset_in_bits(unit);
    let next = at ^ (((unit >> 10) << ((unit & 0x200) >> 6)) as usize);
    assert(unit & 0x8000_00FF == (unit % 0x100) + if (unit / 0x8000_0000) % 2 == 1 {
        0x8000_0000u32
    } else {
        0u32
    }) by (bit_vector);
    assert(unit & 0x100 == 0 <==> (unit / 0x100) % 2 == 0) by (bit_vector);
    let leaf = units[next as int];
    assert(leaf & 0x7FFF_FFFF == leaf % 0x8000_0000) by (bit_vector);
    assert(unit_label(unit as int) == byte <==> unit & 0x8000_00FF == byte as u32);
    assert(arc(pos, byte) == at);
    if unit & 0x8000_00FF == byte as u32 {
        assert(step(units, pos, byte) == Some(next));
    } else {
        assert(step(units, pos, byte) is None);
    }
}

/// A search starts at the offset of the first unit, and finds nothing where there is no input.
pub proof fn law_search_starts_at_the_first_offset(
    units: Seq<u32>,
    pos: usize,
    data: Seq<u8>,
    i: int,
)
    requires
        units.len() > 0,
        data.len() <= i,
    ensures
        root(units) == ((units[0] >> 10) << ((units[0] & 0x200) >> 6)) as usize,
        entries(units, pos, data, i).len() == 0,
        next_in_bounds(units, pos, data, i),
        in_bounds(units, pos, data, i),
{
    lemma_offset_in_bits(units[0]);
}

proof fn lemma_offset_in_bits(unit: u32)
    ensures
        unit_offset(unit as int) == (unit >> 10) << ((unit & 0x200) >> 6),
{
    assert((unit >> 10) << ((unit & 0x200) >> 6) == if (unit / 0x200) % 2 == 1 {
        (unit / 0x400) * 0x100
    } else {
        (unit / 0x400) * 1
    }) by (bit_vector);
}

/// A search that has to read a unit beyond the last one cannot go on.
pub proof fn law_missing_unit_stops_the_search(
    units: Seq<u32>,
    pos: usize,
    data: Seq<u8>,
    i: int,
)
    requires
        0 <= i < data.len(),
        pos ^ (data[i] as usize) >= units.len(),
    ensures
        !next_in_bounds(units, pos, data, i),
        !in_bounds(units, pos, data, i),
{
}

} // verus!
