//! Double-array trie over bytes: common prefix search.
use vstd::prelude::*;
use vstd::slice::slice_subrange;

verus! {

/// A word found by a common prefix search.
#[derive(Debug, PartialEq, Eq, Structural)]
pub struct TrieEntry {
    /// Value of the trie: the offset in the table of word ids.
    pub value: u32,
    /// Offset of the end of the word in the searched input.
    pub end: usize,
}

impl Clone for TrieEntry {
    fn clone(&self) -> (r: TrieEntry)
        ensures
            r == *self,
    {
        TrieEntry { value: self.value, end: self.end }
    }
}

impl TrieEntry {
    pub fn new(value: u32, offset: usize) -> (r: TrieEntry)
        ensures
            r == (TrieEntry { value, end: offset }),
    {
        TrieEntry { value, end: offset }
    }
}

// ---------------------------------------------------------------------------
// The unit format. A unit is a 32 bit number:
//   bits 0..8   the label, that is the byte that leads to this node
//   bit  8      whether the node has a leaf, that is a key ends there
//   bit  9      whether the offset is stored in multiples of 256
//   bits 10..   the offset
//   bit  31     set on the leaves, whose other 31 bits hold a value
// ---------------------------------------------------------------------------
/// Whether a key ends at the node of this unit.
pub open spec fn unit_has_leaf(unit: int) -> bool {
    (unit / 0x100) % 2 == 1
}

/// The value held by the unit of a leaf.
pub open spec fn unit_value(unit: int) -> int {
    unit % 0x8000_0000
}

/// The label of a unit; the unit of a leaf keeps bit 31, so that its label equals no byte.
pub open spec fn unit_label(unit: int) -> int {
    unit % 0x100 + if (unit / 0x8000_0000) % 2 == 1 {
        0x8000_0000int
    } else {
        0
    }
}

/// The offset from a node to its children.
pub open spec fn unit_offset(unit: int) -> int {
    if (unit / 0x200) % 2 == 1 {
        (unit / 0x400) * 0x100
    } else {
        unit / 0x400
    }
}

/// The number that four bytes stand for, the lowest byte first.
pub open spec fn le_u32(b0: u8, b1: u8, b2: u8, b3: u8) -> u32 {
    (b0 + 0x100 * b1 + 0x1_0000 * b2 + 0x100_0000 * b3) as u32
}

/// The `size` units stored in a byte buffer, four bytes each.
pub open spec fn units_of_bytes(bytes: Seq<u8>, size: nat) -> Seq<u32> {
    Seq::new(
        size,
        |i: int| le_u32(bytes[4 * i], bytes[4 * i + 1], bytes[4 * i + 2], bytes[4 * i + 3]),
    )
}

// ---------------------------------------------------------------------------
// The trie as an automaton
// ---------------------------------------------------------------------------
/// The node from which every search starts.
pub open spec fn root(units: Seq<u32>) -> usize {
    unit_offset(units[0] as int) as usize
}

/// The index of the unit that is read when byte `k` follows node `pos`.
pub open spec fn arc(pos: usize, k: u8) -> usize {
    pos ^ (k as usize)
}

/// The node reached from node `pos` over byte `k`, if there is one.
pub open spec fn step(units: Seq<u32>, pos: usize, k: u8) -> Option<usize> {
    let p = arc(pos, k);
    if p < units.len() && unit_label(units[p as int] as int) == k {
        Some(p ^ (unit_offset(units[p as int] as int) as usize))
    } else {
        None
    }
}

/// The node reached from the root over all bytes of `key`, if there is one.
pub open spec fn reach(units: Seq<u32>, key: Seq<u8>) -> Option<usize>
    decreases key.len(),
{
    if key.len() == 0 {
        Some(root(units))
    } else {
        match reach(units, key.drop_last()) {
            Some(pos) => step(units, pos, key.last()),
            None => None,
        }
    }
}

/// The value that the trie stores for `key`, if it holds that key.
pub open spec fn lookup(units: Seq<u32>, key: Seq<u8>) -> Option<u32> {
    if key.len() == 0 {
        None
    } else {
        match reach(units, key.drop_last()) {
            Some(pos) => match step(units, pos, key.last()) {
                Some(next) if unit_has_leaf(units[arc(pos, key.last()) as int] as int) => Some(
                    unit_value(units[next as int] as int) as u32,
                ),
                _ => None,
            },
            None => None,
        }
    }
}

/// The entries that a search standing at node `pos` finds in `data` from index `i` on.
pub open spec fn entries(units: Seq<u32>, pos: usize, data: Seq<u8>, i: int) -> Seq<TrieEntry>
    decreases data.len() - i,
{
    if i < 0 || i >= data.len() {
        Seq::empty()
    } else {
        match step(units, pos, data[i]) {
            Some(next) => {
                let rest = entries(units, next, data, i + 1);
                if unit_has_leaf(units[arc(pos, data[i]) as int] as int) {
                    seq![
                        TrieEntry {
                            value: unit_value(units[next as int] as int) as u32,
                            end: (i + 1) as usize,
                        },
                    ] + rest
                } else {
                    rest
                }
            },
            None => Seq::empty(),
        }
    }
}

/// Whether a search standing at node `pos` reads only units that exist while it goes
/// through `data` from index `i` on.
pub open spec fn in_bounds(units: Seq<u32>, pos: usize, data: Seq<u8>, i: int) -> bool
    decreases data.len() - i,
{
    i < 0 || i >= data.len() || {
        &&& arc(pos, data[i]) < units.len()
        &&& step(units, pos, data[i]) matches Some(next) ==> {
            &&& unit_has_leaf(units[arc(pos, data[i]) as int] as int) ==> next < units.len()
            &&& in_bounds(units, next, data, i + 1)
        }
    }
}

/// Whether a search standing at node `pos` reads only units that exist while it goes
/// through `data` from index `i` to the next entry, or to its end if there is none.
pub open spec fn next_in_bounds(units: Seq<u32>, pos: usize, data: Seq<u8>, i: int) -> bool
    decreases data.len() - i,
{
    i < 0 || i >= data.len() || {
        &&& arc(pos, data[i]) < units.len()
        &&& step(units, pos, data[i]) matches Some(next) ==> if unit_has_leaf(
            units[arc(pos, data[i]) as int] as int,
        ) {
            next < units.len()
        } else {
            next_in_bounds(units, next, data, i + 1)
        }
    }
}

/// Whether the units are laid out in whole blocks of 256 and every node has its children
/// inside of the array, as a builder of double arrays lays them out.
pub open spec fn well_formed(units: Seq<u32>) -> bool {
    &&& 0 < units.len() <= usize::MAX
    &&& units.len() % 256 == 0
    &&& root(units) < units.len()
    &&& forall|p: usize|
        p < units.len() && #[trigger] units[p as int] < 0x8000_0000 ==> (p ^ (unit_offset(
            units[p as int] as int,
        ) as usize)) < units.len()
}

/// The little-endian bytes of units.
pub open spec fn bytes_of_units(units: Seq<u32>) -> Seq<u8> {
    Seq::new(
        4 * units.len(),
        |j: int|
            if j % 4 == 0 {
                (units[j / 4] % 0x100) as u8
            } else if j % 4 == 1 {
                (units[j / 4] / 0x100 % 0x100) as u8
            } else if j % 4 == 2 {
                (units[j / 4] / 0x1_0000 % 0x100) as u8
            } else {
                (units[j / 4] / 0x100_0000) as u8
            },
    )
}

// ---------------------------------------------------------------------------
// Laws
// ---------------------------------------------------------------------------
/// A search finds exactly the keys of the trie that start at `offset`: each entry is a
/// prefix of the rest of the input that the trie holds, with the value it holds for it.
pub proof fn law_search_finds_all_prefixes(
    units: Seq<u32>,
    data: Seq<u8>,
    offset: int,
    entry: TrieEntry,
)
    requires
        0 <= offset <= data.len() <= usize::MAX,
    ensures
        entries(units, root(units), data, offset).contains(entry) <==> offset < entry.end
            <= data.len() && lookup(units, data.subrange(offset, entry.end as int)) == Some(
            entry.value,
        ),
{
    assert(data.subrange(offset, offset) =~= Seq::empty());
    lemma_entries_from(units, root(units), data, offset, offset, entry);
}

/// A search reports its entries in the order of their length, and no length twice.
pub proof fn law_entries_ascend(units: Seq<u32>, pos: usize, data: Seq<u8>, offset: int)
    requires
        0 <= offset,
        data.len() <= usize::MAX,
    ensures
        forall|a: int, b: int|
            0 <= a < b < entries(units, pos, data, offset).len() ==> (#[trigger] entries(
                units,
                pos,
                data,
                offset,
            )[a]).end < (#[trigger] entries(units, pos, data, offset)[b]).end,
        forall|a: int|
            0 <= a < entries(units, pos, data, offset).len() ==> offset < (#[trigger] entries(
                units,
                pos,
                data,
                offset,
            )[a]).end <= data.len(),
    decreases data.len() - offset,
{
    if offset < data.len() {
        if let Some(next) = step(units, pos, data[offset]) {
            let all = entries(units, pos, data, offset);
            let rest = entries(units, next, data, offset + 1);
            law_entries_ascend(units, next, data, offset + 1);
            if unit_has_leaf(units[arc(pos, data[offset]) as int] as int) {
                assert forall|a: int| 0 < a < all.len() implies #[trigger] all[a] == rest[a
                    - 1] by {}
            } else {
                assert(all == rest);
            }
        }
    }
}

/// In a well formed trie a search reads only units that exist, whatever the input.
pub proof fn law_well_formed_in_bounds(units: Seq<u32>, data: Seq<u8>, offset: int)
    requires
        well_formed(units),
    ensures
        in_bounds(units, root(units), data, offset),
{
    lemma_well_formed_from(units, root(units), data, offset);
}

/// A search that stays inside of the units to its end also does so up to its next entry.
pub proof fn law_in_bounds_next(units: Seq<u32>, pos: usize, data: Seq<u8>, i: int)
    requires
        in_bounds(units, pos, data, i),
    ensures
        next_in_bounds(units, pos, data, i),
    decreases data.len() - i,
{
    if 0 <= i < data.len() {
        if let Some(next) = step(units, pos, data[i]) {
            law_in_bounds_next(units, next, data, i + 1);
        }
    }
}

/// Units written as little-endian bytes are read back unchanged, whatever follows them.
pub proof fn law_units_round_trip(units: Seq<u32>, tail: Seq<u8>)
    ensures
        units_of_bytes(bytes_of_units(units) + tail, units.len()) == units,
{
    let bytes = bytes_of_units(units) + tail;
    assert forall|i: int| 0 <= i < units.len() implies units_of_bytes(bytes, units.len())[i]
        == units[i] by {
        let u = units[i];
        assert(bytes[4 * i] == (u % 0x100) as u8);
        assert(bytes[4 * i + 1] == (u / 0x100 % 0x100) as u8);
        assert(bytes[4 * i + 2] == (u / 0x1_0000 % 0x100) as u8);
        assert(bytes[4 * i + 3] == (u / 0x100_0000) as u8);
    }
    assert(units_of_bytes(bytes, units.len()) =~= units);
}

proof fn lemma_reach_none(units: Seq<u32>, data: Seq<u8>, offset: int, i: int, end: int)
    requires
        0 <= offset <= i <= end <= data.len(),
        reach(units, data.subrange(offset, i)) is None,
    ensures
        reach(units, data.subrange(offset, end)) is None,
    decreases end - i,
{
    if i < end {
        lemma_reach_none(units, data, offset, i, end - 1);
        assert(data.subrange(offset, end).drop_last() =~= data.subrange(offset, end - 1));
    }
}

proof fn lemma_entries_from(
    units: Seq<u32>,
    pos: usize,
    data: Seq<u8>,
    offset: int,
    i: int,
    entry: TrieEntry,
)
    requires
        0 <= offset <= i <= data.len() <= usize::MAX,
        reach(units, data.subrange(offset, i)) == Some(pos),
    ensures
        entries(units, pos, data, i).contains(entry) <==> i < entry.end <= data.len() && lookup(
            units,
            data.subrange(offset, entry.end as int),
        ) == Some(entry.value),
    decreases data.len() - i,
{
    let all = entries(units, pos, data, i);
    let end = entry.end as int;
    if i < data.len() {
        let word = data.subrange(offset, i + 1);
        assert(word.drop_last() =~= data.subrange(offset, i));
        match step(units, pos, data[i]) {
            None => {
                if i < end <= data.len() {
                    if end > i + 1 {
                        lemma_reach_none(units, data, offset, i + 1, end - 1);
                        assert(data.subrange(offset, end).drop_last() =~= data.subrange(
                            offset,
                            end - 1,
                        ));
                    }
                }
            },
            Some(next) => {
                let rest = entries(units, next, data, i + 1);
                lemma_entries_from(units, next, data, offset, i + 1, entry);
                if unit_has_leaf(units[arc(pos, data[i]) as int] as int) {
                    let first = TrieEntry {
                        value: unit_value(units[next as int] as int) as u32,
                        end: (i + 1) as usize,
                    };
                    assert(all == seq![first] + rest);
                    assert(all[0] == first);
                    if rest.contains(entry) {
                        let j = choose|j: int| 0 <= j < rest.len() && rest[j] == entry;
                        assert(all[j + 1] == entry);
                    }
                    if all.contains(entry) && entry != first {
                        let j = choose|j: int| 0 <= j < all.len() && all[j] == entry;
                        assert(rest[j - 1] == entry);
                    }
                }
            },
        }
    }
}

proof fn lemma_well_formed_from(units: Seq<u32>, pos: usize, data: Seq<u8>, i: int)
    requires
        well_formed(units),
        pos < units.len(),
    ensures
        in_bounds(units, pos, data, i),
    decreases data.len() - i,
{
    if 0 <= i < data.len() {
        let k = data[i];
        let p = arc(pos, k);
        let w = k as usize;
        assert((pos ^ w) / 256 == pos / 256) by (bit_vector)
            requires
                w < 256,
        ;
        assert(p < units.len());
        if let Some(next) = step(units, pos, k) {
            assert(units[p as int] < 0x8000_0000);
            lemma_well_formed_from(units, next, data, i + 1);
        }
    }
}

// ---------------------------------------------------------------------------
// Executable part
// ---------------------------------------------------------------------------
/// Units of a trie: either little-endian numbers in a byte buffer, which need not be
/// aligned, or a slice of numbers.
#[derive(Clone, Copy)]
enum TrieUnits<'a> {
    Bytes { bytes: &'a [u8], len: usize },
    Words(&'a [u32]),
}

impl<'a> TrieUnits<'a> {
    spec fn units(self) -> Seq<u32> {
        match self {
            TrieUnits::Bytes { bytes, len } => units_of_bytes(bytes@, len as nat),
            TrieUnits::Words(words) => words@,
        }
    }

    spec fn wf(self) -> bool {
        match self {
            TrieUnits::Bytes { bytes, len } => len * 4 == bytes@.len(),
            TrieUnits::Words(words) => words@.len() * 4 <= usize::MAX,
        }
    }

    fn len(&self) -> (r: usize)
        ensures
            r == self.units().len(),
    {
        match *self {
            TrieUnits::Bytes { bytes, len } => len,
            TrieUnits::Words(words) => words.len(),
        }
    }

    fn get(&self, index: usize) -> (r: u32)
        requires
            self.wf(),
            index < self.units().len(),
        ensures
            r == self.units()[index as int],
    {
        match *self {
            TrieUnits::Bytes { bytes, len } => {
                assert(bytes@.len() == bytes.len());
                let at: usize = index * 4;
                bytes[at] as u32 + 0x100 * (bytes[at + 1] as u32) + 0x1_0000 * (bytes[at
                    + 2] as u32) + 0x100_0000 * (bytes[at + 3] as u32)
            },
            TrieUnits::Words(words) => words[index],
        }
    }
}

enum TrieStorage<'a> {
    Borrowed { bytes: &'a [u8], len: usize },
    Owned(Vec<u32>),
}

/// Double-array trie.
///
/// The trie is the largest part of a dictionary and its position inside the dictionary
/// file is generally not aligned, so the units are read directly from the mapped bytes.
pub struct Trie<'a> {
    storage: TrieStorage<'a>,
}

/// Common prefix search over one input; see [`Trie::common_prefix_iterator`].
pub struct TrieEntryIter<'a> {
    trie: TrieUnits<'a>,
    node_pos: usize,
    data: &'a [u8],
    offset: usize,
}

impl<'a> TrieEntryIter<'a> {
    #[verifier::type_invariant]
    spec fn inv(self) -> bool {
        self.trie.wf()
    }

    /// The units of the searched trie.
    pub closed spec fn units(self) -> Seq<u32> {
        self.trie.units()
    }

    /// The node where the search stands.
    pub closed spec fn node_pos(self) -> usize {
        self.node_pos
    }

    /// The searched input.
    pub closed spec fn data(self) -> Seq<u8> {
        self.data@
    }

    /// The index in the input up to which the search has come.
    pub closed spec fn offset(self) -> usize {
        self.offset
    }

    /// The entries that are still to come.
    pub open spec fn remaining(self) -> Seq<TrieEntry> {
        entries(self.units(), self.node_pos(), self.data(), self.offset() as int)
    }

    /// Whether the search reads only units that exist up to the next entry.
    pub open spec fn next_in_bounds(self) -> bool {
        next_in_bounds(self.units(), self.node_pos(), self.data(), self.offset() as int)
    }

    /// Whether the rest of the search reads only units that exist.
    pub open spec fn in_bounds(self) -> bool {
        in_bounds(self.units(), self.node_pos(), self.data(), self.offset() as int)
    }

    fn get(&self, index: usize) -> (r: u32)
        requires
            index < self.units().len(),
        ensures
            r == self.units()[index as int],
    {
        proof {
            use_type_invariant(self);
        }
        self.trie.get(index)
    }

    /// Whether [`TrieEntryIter::next`] may be called: the search reads only units that exist
    /// up to the next entry.
    pub fn can_advance(&self) -> (r: bool)
        ensures
            r == self.next_in_bounds(),
    {
        proof {
            use_type_invariant(self);
        }
        let mut node_pos: usize = self.node_pos;
        let mut i: usize = self.offset;
        while i < self.data.len()
            invariant
                self.trie.wf(),
                self.next_in_bounds() == next_in_bounds(
                    self.units(),
                    node_pos,
                    self.data@,
                    i as int,
                ),
            decreases self.data@.len() - i,
        {
            let k: u8 = self.data[i];
            let ghost pos = node_pos;
            node_pos = node_pos ^ (k as usize);
            if node_pos >= self.trie.len() {
                return false;
            }
            let unit: usize = self.get(node_pos) as usize;
            if Trie::label(unit) != k as usize {
                return true;
            }
            node_pos = node_pos ^ Trie::offset(unit);
            proof {
                assert(step(self.units(), pos, k) == Some(node_pos));
            }
            if Trie::has_leaf(unit) {
                return node_pos < self.trie.len();
            }
            i = i + 1;
        }
        true
    }

    /// Returns the next entry: the search goes on until it meets the end of a key, and
    /// is over when no key goes on with the next byte or the input has ended.
    pub fn next(&mut self) -> (r: Option<TrieEntry>)
        requires
            old(self).next_in_bounds(),
        ensures
            r is None <==> old(self).remaining().len() == 0,
            r is None ==> *final(self) == *old(self),
            r matches Some(entry) ==> {
                &&& entry == old(self).remaining()[0]
                &&& final(self).remaining() == old(self).remaining().drop_first()
                &&& final(self).offset() == entry.end
                &&& old(self).offset() < entry.end <= old(self).data().len()
            },
            final(self).units() == old(self).units(),
            final(self).data() == old(self).data(),
            old(self).in_bounds() ==> final(self).in_bounds(),
    {
        proof {
            use_type_invariant(&*self);
        }
        let mut node_pos: usize = self.node_pos;
        let mut i: usize = self.offset;
        while i < self.data.len()
            invariant
                *self == *old(self),
                self.trie.wf(),
                self.offset() <= i,
                i <= self.data@.len() || i == self.offset(),
                next_in_bounds(self.units(), node_pos, self.data@, i as int),
                self.in_bounds() ==> in_bounds(self.units(), node_pos, self.data@, i as int),
                self.remaining() == entries(self.units(), node_pos, self.data@, i as int),
            decreases self.data@.len() - i,
        {
            let k: u8 = self.data[i];
            let ghost pos = node_pos;
            node_pos = node_pos ^ (k as usize);
            let unit: usize = self.get(node_pos) as usize;
            if Trie::label(unit) != k as usize {
                return None;
            }
            node_pos = node_pos ^ Trie::offset(unit);
            proof {
                assert(step(self.units(), pos, k) == Some(node_pos));
            }
            if Trie::has_leaf(unit) {
                let r = TrieEntry::new(Trie::value(self.get(node_pos)), i + 1);
                self.offset = r.end;
                self.node_pos = node_pos;
                proof {
                    assert(old(self).remaining().drop_first() =~= self.remaining());
                }
                return Some(r);
            }
            i = i + 1;
        }
        None
    }
}

impl<'a> Trie<'a> {
    #[verifier::type_invariant]
    spec fn inv(self) -> bool {
        match self.storage {
            TrieStorage::Borrowed { bytes, len } => len * 4 == bytes@.len(),
            TrieStorage::Owned(words) => words@.len() * 4 <= usize::MAX,
        }
    }

    /// The units of the trie.
    pub closed spec fn units(self) -> Seq<u32> {
        match self.storage {
            TrieStorage::Borrowed { bytes, len } => units_of_bytes(bytes@, len as nat),
            TrieStorage::Owned(words) => words@,
        }
    }

    /// Creates a trie over the first `size` units (4 bytes each) of `data`.
    pub fn new(data: &'a [u8], size: usize) -> (r: Trie<'a>)
        requires
            size * 4 <= data@.len(),
        ensures
            r.units() == units_of_bytes(data@, size as nat),
    {
        assert(data@.len() == data.len());
        let bytes = slice_subrange(data, 0, size * 4);
        let r = Trie { storage: TrieStorage::Borrowed { bytes, len: size } };
        proof {
            assert(r.units() =~= units_of_bytes(data@, size as nat));
        }
        r
    }

    /// Creates a trie that owns its units.
    pub fn new_owned(data: Vec<u32>) -> (r: Trie<'a>)
        requires
            data@.len() * 4 <= usize::MAX,
        ensures
            r.units() == data@,
    {
        Trie { storage: TrieStorage::Owned(data) }
    }

    /// The size of the units in bytes.
    pub fn total_size(&self) -> (r: usize)
        ensures
            r == 4 * self.units().len(),
    {
        proof {
            use_type_invariant(self);
        }
        match &self.storage {
            TrieStorage::Borrowed { bytes, len } => {
                assert(bytes@.len() == bytes.len());
                4 * *len
            },
            TrieStorage::Owned(words) => 4 * words.len(),
        }
    }

    fn view_units(&self) -> (r: TrieUnits<'_>)
        ensures
            r.wf(),
            r.units() == self.units(),
    {
        proof {
            use_type_invariant(self);
        }
        match &self.storage {
            TrieStorage::Borrowed { bytes, len } => TrieUnits::Bytes { bytes: *bytes, len: *len },
            TrieStorage::Owned(words) => TrieUnits::Words(words.as_slice()),
        }
    }

    /// Finds the keys of the trie that start at `offset` in `input`, shortest first.
    pub fn common_prefix_iterator<'b>(&'b self, input: &'b [u8], offset: usize) -> (r:
        TrieEntryIter<'b>)
        requires
            self.units().len() > 0,
        ensures
            r.units() == self.units(),
            r.node_pos() == root(self.units()),
            r.data() == input@,
            r.offset() == offset,
    {
        let unit: usize = self.get(0) as usize;
        TrieEntryIter {
            node_pos: Trie::offset(unit),
            data: input,
            trie: self.view_units(),
            offset,
        }
    }

    fn get(&self, index: usize) -> (r: u32)
        requires
            index < self.units().len(),
        ensures
            r == self.units()[index as int],
    {
        self.view_units().get(index)
    }

    /// Whether a key ends at the node of this unit.
    pub fn has_leaf(unit: usize) -> (r: bool)
        ensures
            r == unit_has_leaf(unit as int),
    {
        assert((unit >> 8) & 1 == (unit / 0x100) % 2) by (bit_vector);
        ((unit >> 8) & 1) == 1
    }

    /// The value held by the unit of a leaf.
    pub fn value(unit: u32) -> (r: u32)
        ensures
            r == unit_value(unit as int),
    {
        assert(unit & 0x7FFF_FFFF == unit % 0x8000_0000) by (bit_vector);
        unit & 0x7FFF_FFFF
    }

    /// The label of a unit.
    pub fn label(unit: usize) -> (r: usize)
        ensures
            r == unit_label(unit as int),
    {
        assert((unit & 0x8000_00FF) == (unit % 0x100) + if (unit / 0x8000_0000) % 2 == 1 {
            0x8000_0000usize
        } else {
            0usize
        }) by (bit_vector);
        unit & 0x8000_00FF
    }

    /// The offset from a node to its children.
    pub fn offset(unit: usize) -> (r: usize)
        ensures
            r == unit_offset(unit as int),
    {
        let shift: usize = (unit & 0x200) >> 6;
        assert((unit & 0x200) >> 6 == if (unit / 0x200) % 2 == 1 {
            8usize
        } else {
            0usize
        }) by (bit_vector);
        assert((unit >> 10) << 8 == (unit / 0x400) * 0x100) by (bit_vector);
        assert((unit >> 10) << 0 == unit / 0x400) by (bit_vector);
        (unit >> 10) << shift
    }
}

} // verus!
