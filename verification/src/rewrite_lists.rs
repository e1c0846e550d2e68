//! The rewrite definition: characters that are not normalized, and replacement rules.
use crate::error::{SudachiError, SudachiResult};
use crate::unicode::char_is_whitespace;
use std::collections::{HashMap, HashSet};
use vstd::hash_map::StringHashMap;
use vstd::prelude::*;
use vstd::string::{StrSliceExecFns, StringExecFns};

verus! {

// ---------------------------------------------------------------------------
// Model
// ---------------------------------------------------------------------------
/// The columns of a line: its longest parts without white space.
pub open spec fn columns(line: Seq<char>) -> Seq<Seq<char>>
    decreases line.len(),
{
    if line.len() == 0 {
        Seq::empty()
    } else {
        let before = columns(line.drop_last());
        if char_is_whitespace(line.last()) {
            before
        } else if line.len() == 1 || char_is_whitespace(line[line.len() - 2]) {
            before.push(seq![line.last()])
        } else {
            before.drop_last().push(before.last().push(line.last()))
        }
    }
}

/// What a rewrite definition says.
#[verifier::ext_equal]
pub struct RewriteDef {
    /// The characters that are not brought into NFKC.
    pub ignored: Set<char>,
    /// The length of the longest key that starts with a character.
    pub key_lengths: Map<char, nat>,
    /// The keys, in the order of their definition.
    pub keys: Seq<Seq<char>>,
    /// The replacement of each key.
    pub rules: Map<Seq<char>, Seq<char>>,
}

/// The definition without lines.
pub open spec fn empty_def() -> RewriteDef {
    RewriteDef {
        ignored: Set::empty(),
        key_lengths: Map::empty(),
        keys: Seq::empty(),
        rules: Map::empty(),
    }
}

/// A line says nothing if it is blank or starts with `#`.
pub open spec fn is_skipped(cols: Seq<Seq<char>>) -> bool {
    cols.len() == 0 || cols[0][0] == '#'
}

/// What is wrong with a line after the lines that say `def`, if anything is.
pub open spec fn line_error(def: RewriteDef, cols: Seq<Seq<char>>) -> Option<Seq<char>> {
    if is_skipped(cols) {
        None
    } else if cols.len() == 1 {
        if cols[0].len() == 1 {
            None
        } else {
            Some(cols[0] + " is not character"@)
        }
    } else if cols.len() == 2 {
        if def.rules.contains_key(cols[0]) {
            Some(cols[0] + " is already defined"@)
        } else {
            None
        }
    } else {
        Some(""@)
    }
}

/// The greater of the known length and `n`.
pub open spec fn longer(lengths: Map<char, nat>, first: char, n: nat) -> Map<char, nat> {
    if !lengths.contains_key(first) || lengths[first] < n {
        lengths.insert(first, n)
    } else {
        lengths
    }
}

/// What a definition says with one more line that is not wrong.
pub open spec fn with_line(def: RewriteDef, cols: Seq<Seq<char>>) -> RewriteDef {
    if is_skipped(cols) {
        def
    } else if cols.len() == 1 {
        RewriteDef { ignored: def.ignored.insert(cols[0][0]), ..def }
    } else {
        RewriteDef {
            key_lengths: longer(def.key_lengths, cols[0][0], cols[0].len()),
            keys: def.keys.push(cols[0]),
            rules: def.rules.insert(cols[0], cols[1]),
            ..def
        }
    }
}

/// What the lines from index `i` on say after lines that say `def`; or the index of the
/// first wrong line, and what is wrong with it.
pub open spec fn read_lines(lines: Seq<Seq<char>>, i: int, def: RewriteDef) -> Result<
    RewriteDef,
    (int, Seq<char>),
>
    decreases lines.len() - i,
{
    if i < 0 || i >= lines.len() {
        Ok(def)
    } else {
        let cols = columns(lines[i]);
        match line_error(def, cols) {
            Some(message) => Err((i, message)),
            None => read_lines(lines, i + 1, with_line(def, cols)),
        }
    }
}

/// Columns are not empty and hold no white space.
pub proof fn law_columns_have_no_white_space(line: Seq<char>)
    ensures
        forall|i: int| 0 <= i < columns(line).len() ==> (#[trigger] columns(line)[i]).len() > 0,
        forall|i: int, j: int|
            0 <= i < columns(line).len() && 0 <= j < columns(line)[i].len()
                ==> !char_is_whitespace(#[trigger] columns(line)[i][j]),
        line.len() > 0 && !char_is_whitespace(line.last()) ==> columns(line).len() > 0,
    decreases line.len(),
{
    if line.len() > 0 {
        let before = columns(line.drop_last());
        law_columns_have_no_white_space(line.drop_last());
        if !char_is_whitespace(line.last()) {
            let all = columns(line);
            if line.len() > 1 {
                assert(line.drop_last().last() == line[line.len() - 2]);
            }
            assert forall|i: int, j: int| 0 <= i < all.len() && 0 <= j < all[i].len() implies
                !char_is_whitespace(#[trigger] all[i][j]) by {
                if i < all.len() - 1 {
                    assert(all[i] == before[i]);
                    assert(before[i][j] == all[i][j]);
                } else if j < all[i].len() - 1 {
                    assert(all[i][j] == before[i][j]);
                } else {
                    assert(all[i][j] == line.last());
                }
            }
            assert forall|i: int| 0 <= i < all.len() implies (#[trigger] all[i]).len() > 0 by {
                if i < all.len() - 1 {
                    assert(all[i] == before[i]);
                }
            }
        }
    }
}

/// White space around a line makes no difference to its columns.
pub proof fn law_columns_of_trimmed_line(line: Seq<char>, c: char)
    requires
        char_is_whitespace(c),
    ensures
        columns(line.push(c)) == columns(line),
        columns(seq![c] + line) == columns(line),
    decreases line.len(),
{
    assert(line.push(c).drop_last() =~= line);
    let padded = seq![c] + line;
    if line.len() == 0 {
        assert(padded.drop_last() =~= line);
        assert(padded.last() == c);
    } else {
        law_columns_of_trimmed_line(line.drop_last(), c);
        assert(padded.drop_last() =~= seq![c] + line.drop_last());
        assert(padded.last() == line.last());
        if line.len() > 1 {
            assert(padded[padded.len() - 2] == line[line.len() - 2]);
        }
    }
}

/// A line that does not start with white space starts with its first column.
pub proof fn law_first_column_starts_line(line: Seq<char>)
    requires
        line.len() > 0,
        !char_is_whitespace(line[0]),
    ensures
        columns(line).len() > 0,
        columns(line)[0].len() > 0,
        columns(line)[0][0] == line[0],
    decreases line.len(),
{
    if line.len() > 1 {
        law_first_column_starts_line(line.drop_last());
        law_columns_have_no_white_space(line.drop_last());
    } else {
        assert(columns(line.drop_last()) =~= Seq::empty());
        assert(columns(line)[0] == seq![line[0]]);
    }
}

/// Splits a line into its columns.
pub fn split_columns(line: &str) -> (r: Vec<String>)
    ensures
        r.deep_view() == columns(line@),
{
    let mut cols: Vec<String> = Vec::new();
    let mut open: bool = false;
    let mut begin: usize = 0;
    let mut at: usize = 0;
    let n: usize = line.unicode_len();
    proof {
        assert(line@.take(0) =~= Seq::empty());
        assert(cols.deep_view() =~= Seq::empty());
    }
    for ch in it: line.chars()
        invariant
            it.seq() == line@,
            at == it.index(),
            n == line@.len(),
            open ==> begin < at && !char_is_whitespace(line@[at - 1]) && columns(
                line@.take(at as int),
            ) == cols.deep_view().push(line@.subrange(begin as int, at as int)),
            !open ==> columns(line@.take(at as int)) == cols.deep_view() && (at == 0
                || char_is_whitespace(line@[at - 1])),
    {
        proof {
            assert(line@.take(at + 1).drop_last() =~= line@.take(at as int));
            assert(line@.take(at + 1).last() == ch);
        }
        if ch.is_whitespace() {
            if open {
                let ghost before = cols.deep_view();
                cols.push(line.substring_char(begin, at).to_owned());
                proof {
                    assert(cols.deep_view() =~= before.push(
                        line@.subrange(begin as int, at as int),
                    ));
                }
                open = false;
            }
        } else if !open {
            open = true;
            begin = at;
            proof {
                assert(line@.subrange(at as int, at + 1) =~= seq![ch]);
            }
        } else {
            proof {
                let before = cols.deep_view().push(line@.subrange(begin as int, at as int));
                assert(before.drop_last() =~= cols.deep_view());
                assert(line@.subrange(begin as int, at + 1) =~= line@.subrange(
                    begin as int,
                    at as int,
                ).push(ch));
            }
        }
        at = at + 1;
    }
    proof {
        assert(line@.take(at as int) =~= line@);
    }
    if open {
        let ghost before = cols.deep_view();
        cols.push(line.substring_char(begin, at).to_owned());
        proof {
            assert(cols.deep_view() =~= before.push(line@.subrange(begin as int, at as int)));
        }
    }
    cols
}

// ---------------------------------------------------------------------------
// The lists
// ---------------------------------------------------------------------------
/// Each key is defined once, and none is empty.
pub open spec fn is_consistent(def: RewriteDef) -> bool {
    &&& def.keys.no_duplicates()
    &&& forall|key: Seq<char>| #[trigger]
        def.keys.contains(key) <==> def.rules.contains_key(key)
    &&& forall|i: int| 0 <= i < def.keys.len() ==> (#[trigger] def.keys[i]).len() > 0
}

/// The lists of a rewrite definition.
pub struct RewriteLists {
    /// The numbers of the characters that are not brought into NFKC.
    ignore_normalize_set: HashSet<u32>,
    /// The length of the longest key that starts with the character with that number.
    key_lengths: HashMap<u32, usize>,
    /// The replacement of each key.
    replace_char_map: StringHashMap<String>,
    /// The keys, in the order of their definition.
    keys: Vec<String>,
}

/// The set of characters whose numbers are given.
pub open spec fn chars_of(codes: Set<u32>) -> Set<char> {
    Set::new(|c: char| codes.contains(c as u32))
}

/// The lengths by character, of lengths by the number of the character.
pub open spec fn lengths_of(codes: Map<u32, usize>) -> Map<char, nat> {
    Map::new(|c: char| codes.contains_key(c as u32), |c: char| codes[c as u32] as nat)
}

/// The rules as text.
pub open spec fn texts_of(rules: Map<Seq<char>, String>) -> Map<Seq<char>, Seq<char>> {
    Map::new(|key: Seq<char>| rules.contains_key(key), |key: Seq<char>| rules[key]@)
}

proof fn lemma_same_char(a: char, b: char)
    ensures
        a as u32 == b as u32 ==> a == b,
{
    if a as u32 == b as u32 {
        vstd::utf8::char_u32_cast(a, a as u32);
        vstd::utf8::char_u32_cast(b, a as u32);
    }
}

proof fn lemma_insert_char(codes: Set<u32>, c: char)
    ensures
        chars_of(codes.insert(c as u32)) == chars_of(codes).insert(c),
{
    assert forall|d: char| chars_of(codes.insert(c as u32)).contains(d) == chars_of(codes).insert(
        c,
    ).contains(d) by {
        lemma_same_char(c, d);
    }
    assert(chars_of(codes.insert(c as u32)) =~= chars_of(codes).insert(c));
}

proof fn lemma_insert_length(codes: Map<u32, usize>, c: char, n: usize)
    ensures
        lengths_of(codes.insert(c as u32, n)) == lengths_of(codes).insert(c, n as nat),
{
    let a = lengths_of(codes.insert(c as u32, n));
    let b = lengths_of(codes).insert(c, n as nat);
    assert forall|d: char| #[trigger] a.dom().contains(d) == b.dom().contains(d) by {
        lemma_same_char(c, d);
    }
    assert(a.dom() =~= b.dom());
    assert forall|d: char| #[trigger] a.dom().contains(d) implies a[d] == b[d] by {
        lemma_same_char(c, d);
    }
    assert(a =~= b);
}

impl RewriteLists {
    /// What the lists say.
    pub closed spec fn def(self) -> RewriteDef {
        RewriteDef {
            ignored: chars_of(self.ignore_normalize_set@),
            key_lengths: lengths_of(self.key_lengths@),
            keys: self.keys.deep_view(),
            rules: texts_of(self.replace_char_map@),
        }
    }

    pub fn new() -> (r: RewriteLists)
        ensures
            r.def() == empty_def(),
    {
        let r = RewriteLists {
            ignore_normalize_set: HashSet::new(),
            key_lengths: HashMap::new(),
            replace_char_map: StringHashMap::new(),
            keys: Vec::new(),
        };
        proof {
            assert(r.def() =~= empty_def());
        }
        r
    }

    /// Adds what a line says, given its columns and its index.
    pub fn add_columns(&mut self, i: usize, cols: &Vec<String>) -> (r: SudachiResult<()>)
        requires
            forall|k: int| 0 <= k < cols@.len() ==> (#[trigger] cols@[k])@.len() > 0,
        ensures
            match line_error(old(self).def(), cols.deep_view()) {
                Some(message) => {
                    &&& r matches Err(SudachiError::InvalidDataFormat(line, text))
                    &&& line == i
                    &&& text@ == message
                    &&& *final(self) == *old(self)
                },
                None => {
                    &&& r is Ok
                    &&& final(self).def() == with_line(old(self).def(), cols.deep_view())
                },
            },
    {
        broadcast use vstd::std_specs::hash::group_hash_axioms;

        if cols.len() == 0 {
            return Ok(());
        }
        let first: char = cols[0].as_str().get_char(0);
        if first == '#' {
            return Ok(());
        }
        let ghost columns = cols.deep_view();
        assert(columns[0] == cols@[0]@);
        // ignored normalize list
        if cols.len() == 1 {
            if cols[0].as_str().unicode_len() != 1 {
                let mut message: String = cols[0].clone();
                message.append(" is not character");
                return Err(SudachiError::InvalidDataFormat(i, message));
            }
            proof {
                lemma_insert_char(self.ignore_normalize_set@, first);
            }
            self.ignore_normalize_set.insert(first as u32);
            return Ok(());
        }
        // replace char list
        if cols.len() == 2 {
            assert(columns[1] == cols@[1]@);
            if self.replace_char_map.contains_key(cols[0].as_str()) {
                let mut message: String = cols[0].clone();
                message.append(" is already defined");
                return Err(SudachiError::InvalidDataFormat(i, message));
            }
            let n_char: usize = cols[0].as_str().unicode_len();
            let known: usize = match self.key_lengths.get(&(first as u32)) {
                Some(n) => *n,
                None => 0,
            };
            if known < n_char {
                proof {
                    lemma_insert_length(self.key_lengths@, first, n_char);
                }
                self.key_lengths.insert(first as u32, n_char);
            }
            self.keys.push(cols[0].clone());
            self.replace_char_map.insert(cols[0].clone(), cols[1].clone());
            proof {
                assert(self.keys.deep_view() =~= old(self).keys.deep_view().push(columns[0]));
                assert(texts_of(self.replace_char_map@) =~= texts_of(
                    old(self).replace_char_map@,
                ).insert(columns[0], columns[1]));
                assert(self.def() =~= with_line(old(self).def(), columns));
            }
            return Ok(());
        }
        Err(SudachiError::InvalidDataFormat(i, "".to_owned()))
    }

    /// Whether a character is not to be brought into NFKC.
    pub fn is_ignored(&self, ch: char) -> (r: bool)
        ensures
            r == self.def().ignored.contains(ch),
    {
        broadcast use vstd::std_specs::hash::group_hash_axioms;

        self.ignore_normalize_set.contains(&(ch as u32))
    }

    /// The length of the longest key that starts with a character.
    pub fn key_length(&self, ch: char) -> (r: Option<usize>)
        ensures
            r is Some <==> self.def().key_lengths.contains_key(ch),
            r matches Some(n) ==> n == self.def().key_lengths[ch],
    {
        broadcast use vstd::std_specs::hash::group_hash_axioms;

        match self.key_lengths.get(&(ch as u32)) {
            Some(n) => Some(*n),
            None => None,
        }
    }

    /// The keys, in the order of their definition.
    pub fn keys(&self) -> (r: &Vec<String>)
        ensures
            r.deep_view() == self.def().keys,
    {
        &self.keys
    }

    /// The replacements, in the order of their keys.
    pub fn replacements(&self) -> (r: Vec<String>)
        requires
            is_consistent(self.def()),
        ensures
            r@.len() == self.def().keys.len(),
            forall|i: int|
                0 <= i < r@.len() ==> (#[trigger] r@[i])@ == self.def().rules[self.def().keys[i]],
    {
        let mut values: Vec<String> = Vec::new();
        let mut i: usize = 0;
        while i < self.keys.len()
            invariant
                i <= self.keys@.len(),
                is_consistent(self.def()),
                values@.len() == i,
                forall|j: int|
                    0 <= j < i ==> (#[trigger] values@[j])@
                        == self.def().rules[self.def().keys[j]],
            decreases self.keys@.len() - i,
        {
            proof {
                assert(self.def().keys.contains(self.def().keys[i as int]));
            }
            match self.replace_char_map.get(self.keys[i].as_str()) {
                Some(value) => values.push(value.clone()),
                None => {},
            }
            i = i + 1;
        }
        values
    }

    /// Reads the lines of a rewrite definition.
    ///
    /// A line with one column holds a character that is not normalized. A line with two
    /// columns holds a text and its replacement; the same text cannot be defined twice.
    /// Blank lines and lines that start with `#` are skipped.
    pub fn read(lines: &Vec<String>) -> (r: SudachiResult<RewriteLists>)
        ensures
            match read_lines(lines.deep_view(), 0, empty_def()) {
                Ok(def) => r matches Ok(lists) && lists.def() == def,
                Err((line, message)) => {
                    &&& r matches Err(SudachiError::InvalidDataFormat(i, text))
                    &&& i == line
                    &&& text@ == message
                },
            },
    {
        let mut lists = RewriteLists::new();
        let ghost all = lines.deep_view();
        let mut i: usize = 0;
        while i < lines.len()
            invariant
                i <= lines@.len(),
                all == lines.deep_view(),
                read_lines(all, i as int, lists.def()) == read_lines(all, 0, empty_def()),
            decreases lines@.len() - i,
        {
            let cols = split_columns(lines[i].as_str());
            proof {
                law_columns_have_no_white_space(all[i as int]);
                assert forall|k: int| 0 <= k < cols@.len() implies (#[trigger] cols@[k])@.len()
                    > 0 by {
                    assert(cols@[k]@ == cols.deep_view()[k]);
                }
            }
            match lists.add_columns(i, &cols) {
                Ok(()) => {},
                Err(e) => return Err(e),
            }
            i = i + 1;
        }
        Ok(lists)
    }
}

/// A definition that can be read defines each key once, and has no empty key.
pub proof fn law_definition_is_consistent(lines: Seq<Seq<char>>, i: int, def: RewriteDef)
    requires
        is_consistent(def),
    ensures
        read_lines(lines, i, def) matches Ok(all) ==> is_consistent(all),
    decreases lines.len() - i,
{
    if 0 <= i < lines.len() {
        let cols = columns(lines[i]);
        law_columns_have_no_white_space(lines[i]);
        if line_error(def, cols) is None {
            let next = with_line(def, cols);
            if !is_skipped(cols) && cols.len() == 2 {
                assert(cols[0].len() > 0);
                assert(!def.keys.contains(cols[0]));
                assert forall|key: Seq<char>| #[trigger]
                    next.keys.contains(key) <==> next.rules.contains_key(key) by {
                    if key == cols[0] {
                        assert(next.keys[def.keys.len() as int] == key);
                    } else {
                        if def.keys.contains(key) {
                            let k = def.keys.index_of(key);
                            assert(next.keys[k] == key);
                        }
                        if next.keys.contains(key) {
                            let k = next.keys.index_of(key);
                            assert(def.keys[k] == key);
                        }
                    }
                }
                assert(next.keys.no_duplicates());
            }
            law_definition_is_consistent(lines, i + 1, next);
        }
    }
}

/// The known lengths are the greatest ones: a length is known for the first characters of
/// the keys, no key is longer, and one key is as long.
pub open spec fn has_greatest_lengths(def: RewriteDef) -> bool {
    &&& forall|i: int|
        0 <= i < def.keys.len() ==> def.key_lengths.contains_key((#[trigger] def.keys[i])[0])
            && def.keys[i].len() <= def.key_lengths[def.keys[i][0]]
    &&& forall|c: char| #[trigger]
        def.key_lengths.contains_key(c) ==> exists|i: int|
            0 <= i < def.keys.len() && (#[trigger] def.keys[i])[0] == c && def.keys[i].len()
                == def.key_lengths[c]
}

/// Reading lines keeps the known lengths the greatest ones.
pub proof fn law_lengths_are_greatest(lines: Seq<Seq<char>>, i: int, def: RewriteDef)
    requires
        has_greatest_lengths(def),
    ensures
        read_lines(lines, i, def) matches Ok(all) ==> has_greatest_lengths(all),
    decreases lines.len() - i,
{
    if 0 <= i < lines.len() {
        let cols = columns(lines[i]);
        if line_error(def, cols) is None {
            let next = with_line(def, cols);
            if !is_skipped(cols) && cols.len() == 2 {
                let last = def.keys.len() as int;
                assert(next.keys[last] == cols[0]);
                assert forall|k: int| 0 <= k < next.keys.len() implies
                    next.key_lengths.contains_key((#[trigger] next.keys[k])[0])
                    && next.keys[k].len() <= next.key_lengths[next.keys[k][0]] by {
                    if k < last {
                        assert(next.keys[k] == def.keys[k]);
                    }
                }
                assert forall|c: char| #[trigger] next.key_lengths.contains_key(c) implies exists|
                    k: int,
                |
                    0 <= k < next.keys.len() && (#[trigger] next.keys[k])[0] == c
                        && next.keys[k].len() == next.key_lengths[c] by {
                    if next.key_lengths[c] != cols[0].len() || c != cols[0][0] {
                        assert(def.key_lengths.contains_key(c));
                        let k = choose|k: int|
                            0 <= k < def.keys.len() && (#[trigger] def.keys[k])[0] == c
                                && def.keys[k].len() == def.key_lengths[c];
                        assert(next.keys[k] == def.keys[k]);
                    }
                }
            }
            law_lengths_are_greatest(lines, i + 1, next);
        }
    }
}

/// The first wrong line decides: what follows it is not looked at, and what precedes it
/// can be read.
pub proof fn law_first_wrong_line_is_reported(lines: Seq<Seq<char>>, i: int, def: RewriteDef)
    requires
        0 <= i,
    ensures
        read_lines(lines, i, def) matches Err((line, message)) ==> {
            &&& i <= line < lines.len()
            &&& read_lines(lines.take(line), i, def) matches Ok(before) && line_error(
                before,
                columns(lines[line]),
            ) == Some(message)
        },
    decreases lines.len() - i,
{
    if i < lines.len() {
        let cols = columns(lines[i]);
        if line_error(def, cols) is None {
            let next = with_line(def, cols);
            law_first_wrong_line_is_reported(lines, i + 1, next);
            if let Err((line, message)) = read_lines(lines, i + 1, next) {
                assert(lines.take(line)[i] == lines[i]);
            }
        }
    }
}

} // verus!
