use sudachi::trie::{Trie, TrieEntry};

const LEAF: u32 = 1 << 8;

/// Puts an arc from node `pos` over `byte` to node `next` into the units.
fn put(units: &mut [u32], pos: usize, byte: u8, next: usize, leaf: bool) {
    let index = pos ^ byte as usize;
    let offset = (index ^ next) as u32;
    units[index] = (offset << 10) | byte as u32 | if leaf { LEAF } else { 0 };
}

fn put_value(units: &mut [u32], node: usize, value: u32) {
    units[node] = (1 << 31) | value;
}

/// A trie with the keys `a`, `ab`, `abcd` and `b`.
fn sample() -> Vec<u32> {
    let mut units = vec![0u32; 256 * 7];
    units[0] = 256 << 10;
    put(&mut units, 256, b'a', 512, true);
    put_value(&mut units, 512, 10);
    put(&mut units, 512, b'b', 768, true);
    put_value(&mut units, 768, 20);
    put(&mut units, 768, b'c', 1024, false);
    put(&mut units, 1024, b'd', 1280, true);
    put_value(&mut units, 1280, 0x7FFF_FFFF);
    put(&mut units, 256, b'b', 1536, true);
    put_value(&mut units, 1536, 0);
    units
}

fn le_bytes(units: &[u32]) -> Vec<u8> {
    let mut bytes = Vec::new();
    for u in units {
        bytes.extend_from_slice(&u.to_le_bytes());
    }
    bytes
}

fn search(trie: &Trie, input: &[u8], offset: usize) -> Vec<(u32, usize)> {
    let mut it = trie.common_prefix_iterator(input, offset);
    let mut found = Vec::new();
    while let Some(e) = it.next() {
        found.push((e.value, e.end));
    }
    assert_eq!(it.next(), None);
    assert_eq!(it.next(), None);
    found
}

#[test]
fn entry_holds_value_and_end() {
    let e = TrieEntry::new(7, 3);
    assert_eq!(e, TrieEntry { value: 7, end: 3 });
    assert_eq!(e.clone(), e);
}

#[test]
fn search_finds_all_prefixes_shortest_first() {
    let trie = Trie::new_owned(sample());
    assert_eq!(
        search(&trie, b"abcde", 0),
        vec![(10, 1), (20, 2), (0x7FFF_FFFF, 4)]
    );
    assert_eq!(search(&trie, b"abd", 0), vec![(10, 1), (20, 2)]);
    assert_eq!(search(&trie, b"abc", 0), vec![(10, 1), (20, 2)]);
}

#[test]
fn search_starts_at_the_offset() {
    let trie = Trie::new_owned(sample());
    assert_eq!(search(&trie, b"xxab", 2), vec![(10, 3), (20, 4)]);
    assert_eq!(search(&trie, b"xxab", 3), vec![(0, 4)]);
}

#[test]
fn search_without_a_key_finds_nothing() {
    let trie = Trie::new_owned(sample());
    assert_eq!(search(&trie, b"xab", 0), vec![]);
    assert_eq!(search(&trie, b"", 0), vec![]);
    assert_eq!(search(&trie, b"ab", 2), vec![]);
    assert_eq!(search(&trie, b"ab", 9), vec![]);
}

#[test]
fn borrowed_and_owned_units_are_alike() {
    let units = sample();
    let mut bytes = vec![0xAAu8];
    bytes.extend(le_bytes(&units));
    bytes.extend_from_slice(&[1, 2, 3]);
    let trie = Trie::new(&bytes[1..], units.len());
    let owned = Trie::new_owned(units.clone());
    assert_eq!(trie.total_size(), 4 * 256 * 7);
    assert_eq!(owned.total_size(), trie.total_size());
    for input in [b"abcd".as_slice(), b"b", b"zz"] {
        assert_eq!(search(&trie, input, 0), search(&owned, input, 0));
    }
    assert_eq!(search(&trie, b"abcd", 0).len(), 3);
}

#[test]
fn unit_fields() {
    assert!(Trie::has_leaf(0x100));
    assert!(!Trie::has_leaf(0x2FF & !0x100));
    assert_eq!(Trie::value(0x8000_0005), 5);
    assert_eq!(Trie::value(u32::MAX), 0x7FFF_FFFF);
    assert_eq!(Trie::label(0x1234_5678), 0x78);
    assert_eq!(Trie::label(0x8000_0061), 0x8000_0061);
    assert_eq!(Trie::offset(0x400 * 3), 3);
    assert_eq!(Trie::offset(0x400 * 3 + 0x200), 0x300);
    assert_eq!(Trie::offset(0x1FF), 0);
}

#[test]
fn extended_offset_is_followed() {
    let mut units = vec![0u32; 1024];
    // the root at 512: an offset of 2 in multiples of 256
    units[0] = (2 << 10) | 0x200;
    put(&mut units, 512, b'q', 768, true);
    put_value(&mut units, 768, 99);
    let trie = Trie::new_owned(units);
    assert_eq!(search(&trie, b"qq", 0), vec![(99, 1)]);
}

#[test]
fn search_outside_of_the_units_is_noticed() {
    let mut units = sample();
    let trie = Trie::new_owned(units.clone());
    assert!(trie.common_prefix_iterator(b"abcd", 0).can_advance());
    assert!(trie.common_prefix_iterator(b"", 0).can_advance());
    // the node of `ab` lies behind the end
    put(&mut units, 512, b'b', 4096, true);
    let trie = Trie::new_owned(units);
    let mut it = trie.common_prefix_iterator(b"ab", 0);
    assert!(it.can_advance());
    assert_eq!(it.next(), Some(TrieEntry::new(10, 1)));
    assert!(!it.can_advance());
    // so does the root
    let trie = Trie::new_owned(vec![256 << 10]);
    assert!(!trie.common_prefix_iterator(b"a", 0).can_advance());
}
