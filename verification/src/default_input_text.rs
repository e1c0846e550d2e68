//! Basic normalization of the input text.
use crate::checker::{are_leftmost_longest, build_failure, patterns_of, rules_of, Checker};
use crate::error::{ConfigError, SudachiError, SudachiResult};
use crate::input_text::{Edit, InputEditor};
use crate::rewrite::{
    char_edit, char_edits, char_width, edits_from, gap_edits, law_normalized_text_is_left_alone,
    lemma_edit_match, lemma_no_match_left, lemma_skip_gap, needs_normalization, rewrite_edits,
};
use crate::rewrite_lists::{
    empty_def, law_definition_is_consistent, read_lines, RewriteDef, RewriteLists,
};
use crate::text::{
    byte_offset, lemma_boundary_in_prefix, lemma_encode_subrange,
    lemma_offset_ends, lemma_offset_is_boundary, lemma_offset_monotonic, lemma_offset_step,
    len_utf8,
};
use crate::trivial_chars::{is_trivial_char, TrivialChars};
use crate::unicode::{char_is_uppercase, is_nfkc_quick, nfkc_quick, to_lowercase, to_nfkc, IsNormalized};
use std::ops::Range;
use vstd::prelude::*;
use vstd::string::StringExecFns;
use vstd::utf8::{decode_utf8, encode_utf8, encode_utf8_decode_utf8, is_char_boundary};

verus! {

/// The characters of text.
fn chars_of_text(text: &str) -> (r: Vec<char>)
    ensures
        r@ == text@,
{
    let mut chars: Vec<char> = Vec::new();
    for ch in it: text.chars()
        invariant
            it.seq() == text@,
            chars@ == text@.take(it.index() as int),
    {
        chars.push(ch);
        assert(chars@ =~= text@.take(it.index() + 1));
    }
    assert(text@.take(text@.len() as int) =~= text@);
    chars
}

/// Whether a character is uppercase.
fn has_uppercase(chars: &[char]) -> (r: bool)
    ensures
        r == (exists|i: int| 0 <= i < chars@.len() && char_is_uppercase(#[trigger] chars@[i])),
{
    let mut i: usize = 0;
    while i < chars.len()
        invariant
            i <= chars@.len(),
            forall|j: int| 0 <= j < i ==> !char_is_uppercase(#[trigger] chars@[j]),
        decreases chars@.len() - i,
    {
        if chars[i].is_uppercase() {
            return true;
        }
        i = i + 1;
    }
    false
}

/// The rewrite definition that is used unless the settings name another one.
pub const DEFAULT_REWRITE_DEF_FILE: &'static str = "rewrite.def";

/// Settings of the plugin.
pub struct PluginSettings {
    /// Name of the file with the rewrite definition.
    pub rewrite_def: Option<String>,
}

impl PluginSettings {
    /// The name of the file with the rewrite definition.
    pub fn rewrite_def_file(self) -> (r: String)
        ensures
            r@ == (match self.rewrite_def {
                Some(name) => name@,
                None => "rewrite.def"@,
            }),
    {
        match self.rewrite_def {
            Some(name) => name,
            None => DEFAULT_REWRITE_DEF_FILE.to_owned(),
        }
    }
}

/// Provides basic normalization of the input text.
pub struct DefaultInputTextPlugin {
    /// Characters to skip normalization and replacement rules, as they were defined.
    lists: RewriteLists,
    /// Finds the parts of the text to replace.
    checker: Option<Checker>,
}

impl Default for DefaultInputTextPlugin {
    fn default() -> (r: DefaultInputTextPlugin)
        ensures
            r.def() == empty_def(),
            r.rules() is None,
    {
        DefaultInputTextPlugin { lists: RewriteLists::new(), checker: None }
    }
}

impl DefaultInputTextPlugin {
    /// The definition that was read last.
    pub closed spec fn def(self) -> RewriteDef {
        self.lists.def()
    }

    /// The replacement rules in use; there are none before a definition was read.
    pub closed spec fn rules(self) -> Option<Map<Seq<char>, Seq<char>>> {
        match self.checker {
            Some(checker) => Some(checker.rules()),
            None => None,
        }
    }

    /// Whether there are replacement rules in use.
    pub fn is_set_up(&self) -> (r: bool)
        ensures
            r == (self.rules() is Some),
    {
        self.checker.is_some()
    }

    /// Takes over a definition and what was built from it.
    pub fn set_lists(&mut self, lists: RewriteLists, built: Result<Checker, String>) -> (r:
        SudachiResult<()>)
        ensures
            final(self).def() == lists.def(),
            match built {
                Ok(checker) => r is Ok && final(self).rules() == Some(checker.rules()),
                Err(error) => {
                    &&& r matches Err(SudachiError::ConfigError(ConfigError::InvalidFormat(text)))
                    &&& text@ == "failed to parse rewrite.def: "@ + error@
                    &&& final(self).rules() == old(self).rules()
                },
            },
    {
        self.lists = lists;
        match built {
            Ok(checker) => {
                self.checker = Some(checker);
                Ok(())
            },
            Err(error) => {
                let mut text: String = "failed to parse rewrite.def: ".to_owned();
                text.append(error.as_str());
                Err(SudachiError::ConfigError(ConfigError::InvalidFormat(text)))
            },
        }
    }

    /// Loads the lines of a rewrite definition.
    ///
    /// A definition with a wrong line changes nothing. If no search can be built for the
    /// keys, the definition is taken over but the rules in use stay as they were.
    pub fn read_rewrite_lists(&mut self, lines: &Vec<String>) -> (r: SudachiResult<()>)
        ensures
            match read_lines(lines.deep_view(), 0, empty_def()) {
                Err((line, message)) => {
                    &&& r matches Err(SudachiError::InvalidDataFormat(i, text))
                    &&& i == line
                    &&& text@ == message
                    &&& *final(self) == *old(self)
                },
                Ok(def) => {
                    &&& final(self).def() == def
                    &&& match build_failure(patterns_of(def.keys)) {
                        None => r is Ok && final(self).rules() == Some(def.rules),
                        Some(error) => {
                            &&& r matches Err(
                                SudachiError::ConfigError(ConfigError::InvalidFormat(text)),
                            )
                            &&& text@ == "failed to parse rewrite.def: "@ + error
                            &&& final(self).rules() == old(self).rules()
                        },
                    }
                },
            },
    {
        let lists = match RewriteLists::read(lines) {
            Ok(lists) => lists,
            Err(e) => return Err(e),
        };
        let ghost def = lists.def();
        proof {
            law_definition_is_consistent(lines.deep_view(), 0, empty_def());
        }
        let values = lists.replacements();
        let keys = lists.keys();
        proof {
            assert forall|i: int| 0 <= i < keys@.len() implies (#[trigger] keys@[i])@.len()
                > 0 by {
                assert(keys@[i]@ == def.keys[i]);
            }
            let rules = rules_of(def.keys, values.deep_view());
            assert forall|key: Seq<char>| #[trigger] def.rules.contains_key(key) implies rules[key]
                == def.rules[key] by {
                assert(def.keys.contains(key));
                let i = def.keys.index_of(key);
                assert(values.deep_view()[i] == values@[i]@);
            }
            assert forall|key: Seq<char>| #[trigger] rules.dom().contains(key)
                == def.rules.dom().contains(key) by {
                assert(def.keys.contains(key) <==> def.rules.contains_key(key));
            }
            assert(rules.dom() =~= def.rules.dom());
            assert(rules =~= def.rules);
        }
        let built = Checker::build(keys, values);
        self.set_lists(lists, built)
    }

    /// Whether a character is not to be brought into NFKC.
    pub fn should_ignore(&self, ch: char) -> (r: bool)
        ensures
            r == self.def().ignored.contains(ch),
    {
        self.lists.is_ignored(ch)
    }

    /// Fast case: lowercasing is not needed and the text is already in NFKC.
    ///
    /// Ignored characters are not looked at here: replacements have higher priority.
    pub fn replace_fast<'a>(&'a self, cur: &str, mut replacer: InputEditor<'a>) -> (r:
        SudachiResult<InputEditor<'a>>)
        requires
            self.rules() is Some,
        ensures
            r matches Ok(edited) && edited.edits() == replacer.edits() + rewrite_edits(
                self.rules()->Some_0,
                false,
                self.def().ignored,
                cur@,
                0,
            ),
    {
        let checker = self.checker.as_ref().unwrap();
        let ghost text = cur@;
        let ghost keys = checker.keys();
        let ghost values = checker.replacements();
        let ghost ignored = self.def().ignored;
        let ghost before = replacer.edits();
        let ghost all = rewrite_edits(rules_of(keys, values), false, ignored, text, 0);
        let found = checker.find(cur);
        let ghost mut pos: int = 0;
        let mut i: usize = 0;
        proof {
            lemma_offset_ends(text);
            assert(text.skip(0) =~= text);
            assert(found@.skip(0) =~= found@);
        }
        while i < found.len()
            invariant
                i <= found@.len(),
                0 <= pos <= text.len(),
                keys == checker.keys(),
                values == checker.replacements(),
                keys.len() == values.len(),
                keys.no_duplicates(),
                forall|k: int| 0 <= k < keys.len() ==> (#[trigger] keys[k]).len() > 0,
                are_leftmost_longest(
                    patterns_of(keys),
                    encode_utf8(text),
                    byte_offset(text, pos),
                    found@.skip(i as int),
                ),
                before + all == replacer.edits() + edits_from(
                    rules_of(keys, values),
                    false,
                    ignored,
                    text,
                    pos,
                ),
            decreases found@.len() - i,
        {
            let m = &found[i];
            let ghost q = lemma_edit_match(keys, values, false, ignored, text, pos, *m);
            let ghost done = replacer.edits();
            replacer.replace_ref(m.start..m.end, checker.replacement(m.pattern));
            proof {
                let edit = Edit {
                    start: m.start as int,
                    end: m.end as int,
                    with: values[m.pattern as int],
                };
                pos = q + keys[m.pattern as int].len();
                let rest = edits_from(rules_of(keys, values), false, ignored, text, pos);
                assert(Seq::<Edit>::empty().push(edit) =~= seq![edit]);
                assert(done + (seq![edit] + rest) =~= done.push(edit) + rest);
                assert(found@.skip(i as int).drop_first() =~= found@.skip(i + 1));
            }
            i = i + 1;
        }
        proof {
            let n = text.len() as int;
            let rules = rules_of(keys, values);
            assert(found@.skip(i as int) =~= Seq::empty());
            lemma_no_match_left(keys, values, text, pos);
            lemma_skip_gap(rules, false, ignored, text, pos, n);
            assert(text.skip(n) =~= Seq::empty());
            assert(edits_from(rules, false, ignored, text, pos) =~= Seq::empty());
            assert(replacer.edits() + Seq::<Edit>::empty() =~= replacer.edits());
        }
        Ok(replacer)
    }

    /// Replaces a character with its normalized form, unless that starts with the
    /// character itself or is empty.
    pub fn handle_normalization_slow<'a>(
        &'a self,
        data: Vec<char>,
        replacer: &mut InputEditor<'a>,
        start: usize,
        len: usize,
        ch: char,
    )
        requires
            start + len <= usize::MAX,
        ensures
            final(replacer).edits() == if data@.len() > 0 && data@[0] != ch {
                old(replacer).edits().push(
                    (Edit { start: start as int, end: start + len, with: data@ }),
                )
            } else {
                old(replacer).edits()
            },
    {
        if data.len() > 0 && data[0] != ch {
            replacer.replace_chars(start..start + len, data);
        }
    }

    /// Normalizes (lowercase and NFKC) the characters of a byte range of the text.
    pub fn normalize_slow<'a>(
        &'a self,
        trivial: &TrivialChars,
        cur: &str,
        range: Range<usize>,
        replacer: &mut InputEditor<'a>,
    )
        requires
            range.start <= range.end,
            is_char_boundary(encode_utf8(cur@), range.start as int),
            is_char_boundary(encode_utf8(cur@), range.end as int),
        ensures
            final(replacer).edits() == old(replacer).edits() + char_edits(
                decode_utf8(encode_utf8(cur@).subrange(range.start as int, range.end as int)),
                self.def().ignored,
                range.start as int,
            ),
    {
        let ghost bytes = encode_utf8(cur@);
        let ghost ignored = self.def().ignored;
        let ghost before = replacer.edits();
        proof {
            lemma_boundary_in_prefix(cur@, range.start as int, range.end as int);
        }
        let head = cur.split_at(range.end).0;
        let part = head.split_at(range.start).1;
        let ghost text = part@;
        proof {
            assert(encode_utf8(text) =~= bytes.subrange(range.start as int, range.end as int));
            encode_utf8_decode_utf8(text);
            lemma_offset_ends(text);
            assert(text.skip(0) =~= text);
        }
        let ghost all = char_edits(text, ignored, range.start as int);
        let mut offset: usize = range.start;
        for ch in it: part.chars()
            invariant
                it.seq() == text,
                ignored == self.def().ignored,
                range.start <= range.end,
                encode_utf8(text).len() == range.end - range.start,
                offset == range.start + byte_offset(text, it.index() as int),
                before + all == replacer.edits() + char_edits(
                    text.skip(it.index() as int),
                    ignored,
                    offset as int,
                ),
        {
            let ghost n = it.index() as int;
            let ghost done = replacer.edits();
            let ghost rest = char_edits(text.skip(n + 1), ignored, offset + char_width(ch));
            let len: usize = len_utf8(ch);
            proof {
                lemma_offset_step(text, n);
                lemma_offset_monotonic(text, n, n + 1);
                assert(text.skip(n).drop_first() =~= text.skip(n + 1));
            }
            if !trivial.is_trivial(ch) {
                let single = [ch];
                assert(single@ =~= seq![ch]);
                let need_lowercase: bool = ch.is_uppercase();
                let need_nfkc: bool = !self.should_ignore(ch) && is_nfkc_quick(single.as_slice())
                    != IsNormalized::Yes;
                match (need_lowercase, need_nfkc) {
                    // no need to do anything
                    (false, false) => {},
                    // only lowercasing
                    (true, false) => {
                        let data = to_lowercase(ch);
                        self.handle_normalization_slow(data, replacer, offset, len, ch);
                    },
                    // only normalization
                    (false, true) => {
                        let data = to_nfkc(single.as_slice());
                        self.handle_normalization_slow(data, replacer, offset, len, ch);
                    },
                    // both
                    (true, true) => {
                        let data = to_nfkc(to_lowercase(ch).as_slice());
                        self.handle_normalization_slow(data, replacer, offset, len, ch);
                    },
                }
            }
            proof {
                let here = char_edit(ch, ignored, offset as int);
                assert(replacer.edits() =~= done + here);
                assert(done + (here + rest) =~= (done + here) + rest);
            }
            offset = offset + len;
        }
        proof {
            assert(text.skip(text.len() as int) =~= Seq::empty());
            assert(replacer.edits() + Seq::<Edit>::empty() =~= replacer.edits());
        }
    }

    /// Slow case: lowercasing or NFKC normalization is needed.
    ///
    /// Replacements have higher priority and are found as in the fast case; the characters
    /// between them are normalized one by one.
    pub fn replace_slow<'a>(
        &'a self,
        trivial: &TrivialChars,
        cur: &str,
        mut replacer: InputEditor<'a>,
    ) -> (r: SudachiResult<InputEditor<'a>>)
        requires
            self.rules() is Some,
        ensures
            r matches Ok(edited) && edited.edits() == replacer.edits() + rewrite_edits(
                self.rules()->Some_0,
                true,
                self.def().ignored,
                cur@,
                0,
            ),
    {
        let checker = self.checker.as_ref().unwrap();
        let ghost text = cur@;
        let ghost keys = checker.keys();
        let ghost values = checker.replacements();
        let ghost ignored = self.def().ignored;
        let ghost before = replacer.edits();
        let ghost all = rewrite_edits(rules_of(keys, values), true, ignored, text, 0);
        let found = checker.find(cur);
        let ghost mut pos: int = 0;
        let mut min_offset: usize = 0;
        let mut i: usize = 0;
        proof {
            lemma_offset_ends(text);
            assert(text.skip(0) =~= text);
            assert(found@.skip(0) =~= found@);
        }
        while i < found.len()
            invariant
                i <= found@.len(),
                text == cur@,
                ignored == self.def().ignored,
                0 <= pos <= text.len(),
                min_offset == byte_offset(text, pos),
                keys == checker.keys(),
                values == checker.replacements(),
                keys.len() == values.len(),
                keys.no_duplicates(),
                forall|k: int| 0 <= k < keys.len() ==> (#[trigger] keys[k]).len() > 0,
                are_leftmost_longest(
                    patterns_of(keys),
                    encode_utf8(text),
                    byte_offset(text, pos),
                    found@.skip(i as int),
                ),
                before + all == replacer.edits() + edits_from(
                    rules_of(keys, values),
                    true,
                    ignored,
                    text,
                    pos,
                ),
            decreases found@.len() - i,
        {
            let m = &found[i];
            let ghost q = lemma_edit_match(keys, values, true, ignored, text, pos, *m);
            let ghost done = replacer.edits();
            let ghost gap = gap_edits(true, ignored, text, pos, q);
            proof {
                lemma_offset_is_boundary(text, pos);
                lemma_offset_is_boundary(text, q);
                lemma_encode_subrange(text, pos, q);
                encode_utf8_decode_utf8(text.subrange(pos, q));
            }
            self.normalize_slow(trivial, cur, min_offset..m.start, &mut replacer);
            replacer.replace_ref(m.start..m.end, checker.replacement(m.pattern));
            min_offset = m.end;
            proof {
                let edit = Edit {
                    start: m.start as int,
                    end: m.end as int,
                    with: values[m.pattern as int],
                };
                pos = q + keys[m.pattern as int].len();
                let rest = edits_from(rules_of(keys, values), true, ignored, text, pos);
                assert(done + (gap.push(edit) + rest) =~= (done + gap).push(edit) + rest);
                assert(found@.skip(i as int).drop_first() =~= found@.skip(i + 1));
            }
            i = i + 1;
        }
        let size: usize = cur.as_bytes().len();
        let ghost n = text.len() as int;
        let ghost done = replacer.edits();
        proof {
            lemma_no_match_left(keys, values, text, pos);
            lemma_offset_is_boundary(text, pos);
            lemma_offset_is_boundary(text, n);
            lemma_encode_subrange(text, pos, n);
            encode_utf8_decode_utf8(text.subrange(pos, n));
        }
        self.normalize_slow(trivial, cur, min_offset..size, &mut replacer);
        proof {
            let rules = rules_of(keys, values);
            assert(found@.skip(i as int) =~= Seq::empty());
            lemma_skip_gap(rules, true, ignored, text, pos, n);
            assert(text.skip(n) =~= Seq::empty());
            let gap = gap_edits(true, ignored, text, pos, n);
            assert(gap + Seq::<Edit>::empty() =~= gap);
        }
        Ok(replacer)
    }

    /// Whether text has to be normalized, given its quick check and whether one of its
    /// characters is uppercase.
    pub fn is_slow(quick: IsNormalized, uppercase: bool) -> (r: bool)
        ensures
            r == (!(quick is Yes) || uppercase),
    {
        quick != IsNormalized::Yes || uppercase
    }

    /// Makes the edits that rewrite the text. Text that needs no normalization takes the
    /// fast way, which makes the same edits as the slow one would.
    pub fn rewrite_impl<'a>(
        &'a self,
        trivial: &TrivialChars,
        cur: &str,
        edit: InputEditor<'a>,
    ) -> (r: SudachiResult<InputEditor<'a>>)
        requires
            self.rules() is Some,
        ensures
            r matches Ok(edited) && edited.edits() == edit.edits() + rewrite_edits(
                self.rules()->Some_0,
                needs_normalization(cur@),
                self.def().ignored,
                cur@,
                0,
            ),
            r matches Ok(edited) && edited.edits() == edit.edits() + rewrite_edits(
                self.rules()->Some_0,
                true,
                self.def().ignored,
                cur@,
                0,
            ),
    {
        let ghost rules = self.rules()->Some_0;
        // the table first: the Unicode properties are looked up only where a character is
        // not known to be trivial
        if trivial.all_trivial(cur) {
            proof {
                assert forall|i: int| 0 <= i < cur@.len() implies !char_is_uppercase(
                    #[trigger] cur@[i],
                ) && nfkc_quick(seq![cur@[i]]) is Yes by {
                    assert(is_trivial_char(cur@[i]));
                }
                law_normalized_text_is_left_alone(rules, self.def().ignored, cur@, 0);
            }
            return self.replace_fast(cur, edit);
        }
        let chars = chars_of_text(cur);
        let quick = is_nfkc_quick(chars.as_slice());
        let uppercase: bool = has_uppercase(chars.as_slice());
        if DefaultInputTextPlugin::is_slow(quick, uppercase) {
            self.replace_slow(trivial, cur, edit)
        } else {
            proof {
                law_normalized_text_is_left_alone(rules, self.def().ignored, cur@, 0);
            }
            self.replace_fast(cur, edit)
        }
    }
}

} // verus!
