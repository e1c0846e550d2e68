//! Search for the keys of the replacement rules.
use crate::text::occurs_at;
use aho_corasick::{
    AhoCorasick, AhoCorasickBuilder, AhoCorasickKind, Anchored, Input, MatchKind, StartKind,
};
use vstd::prelude::*;
use vstd::utf8::encode_utf8;

verus! {

/// An occurrence of a pattern: its index and the bytes where it stands.
pub struct PatternMatch {
    pub pattern: usize,
    pub start: usize,
    pub end: usize,
}

/// `m` is the leftmost occurrence of a pattern that starts at `from` or later, and the
/// longest one of those that start there.
pub open spec fn is_leftmost_longest(
    patterns: Seq<Seq<u8>>,
    text: Seq<u8>,
    from: int,
    m: PatternMatch,
) -> bool {
    &&& from <= m.start
    &&& m.pattern < patterns.len()
    &&& occurs_at(patterns[m.pattern as int], text, m.start as int)
    &&& m.end == m.start + patterns[m.pattern as int].len()
    &&& forall|p: int, at: int|
        0 <= p < patterns.len() && from <= at && #[trigger] occurs_at(patterns[p], text, at)
            ==> m.start < at || (m.start == at && patterns[p].len()
            <= patterns[m.pattern as int].len())
}

/// `found` are the occurrences of patterns from `from` on that do not overlap, each one
/// the leftmost and longest after the one before.
pub open spec fn are_leftmost_longest(
    patterns: Seq<Seq<u8>>,
    text: Seq<u8>,
    from: int,
    found: Seq<PatternMatch>,
) -> bool
    decreases found.len(),
{
    if found.len() == 0 {
        forall|p: int, at: int|
            0 <= p < patterns.len() && from <= at ==> !#[trigger] occurs_at(patterns[p], text, at)
    } else {
        &&& is_leftmost_longest(patterns, text, from, found[0])
        &&& are_leftmost_longest(patterns, text, found[0].end as int, found.drop_first())
    }
}

/// The bytes of the keys.
pub open spec fn patterns_of(keys: Seq<Seq<char>>) -> Seq<Seq<u8>> {
    keys.map_values(|key: Seq<char>| encode_utf8(key))
}

/// The automaton `aho_corasick::AhoCorasick`. Nothing is known of what is inside of it; what
/// it holds and how it was made has the names below.
#[verifier::external_type_specification]
#[verifier::external_body]
pub struct ExAhoCorasick(AhoCorasick);

/// The patterns of an automaton, in the order in which it was given them.
pub uninterp spec fn automaton_patterns(automaton: AhoCorasick) -> Seq<Seq<u8>>;

/// Whether an automaton was made for unanchored searches of leftmost and longest matches.
pub uninterp spec fn automaton_is_leftmost_longest(automaton: AhoCorasick) -> bool;

/// What keeps an automaton from being built for these patterns, if anything does.
pub uninterp spec fn build_failure(patterns: Seq<Seq<u8>>) -> Option<Seq<char>>;

/// Builds an automaton that finds the given keys.
///
/// Stands for `AhoCorasickBuilder::build`, with leftmost-longest match semantics and both
/// start kinds. Building fails when an internal limit on the number or the length of the
/// patterns is exceeded; whether it does, and the text of the error, depends on the
/// patterns alone and is named `build_failure`. An automaton has the given patterns.
#[verifier::external_body]
fn build_automaton(keys: &Vec<String>) -> (r: Result<AhoCorasick, String>)
    ensures
        match r {
            Ok(automaton) => {
                &&& build_failure(patterns_of(keys.deep_view())) is None
                &&& automaton_patterns(automaton) == patterns_of(keys.deep_view())
                &&& automaton_is_leftmost_longest(automaton)
            },
            Err(error) => build_failure(patterns_of(keys.deep_view())) == Some(error@),
        },
{
    let built = AhoCorasickBuilder::new()
        .kind(Some(AhoCorasickKind::DFA))
        .match_kind(MatchKind::LeftmostLongest)
        .start_kind(StartKind::Both)
        .build(keys);
    match built {
        Ok(automaton) => Ok(automaton),
        Err(e) => Err(format!("{e:?}")),
    }
}

/// Finds the patterns of an automaton in text.
///
/// Stands for `AhoCorasick::find_iter` with an unanchored input: it yields the matches that
/// do not overlap, from left to right. The semantics of empty patterns are left out.
#[verifier::external_body]
fn find_all(automaton: &AhoCorasick, text: &str) -> (r: Vec<PatternMatch>)
    requires
        automaton_is_leftmost_longest(*automaton),
        forall|p: int|
            0 <= p < automaton_patterns(*automaton).len() ==> (#[trigger] automaton_patterns(
                *automaton,
            )[p]).len() > 0,
    ensures
        are_leftmost_longest(automaton_patterns(*automaton), encode_utf8(text@), 0, r@),
{
    automaton
        .find_iter(Input::new(text).anchored(Anchored::No))
        .map(|m| PatternMatch {
            pattern: m.pattern().as_usize(),
            start: m.start(),
            end: m.end(),
        })
        .collect()
}

/// The rules of keys and their replacements: each key stands for the replacement with
/// the same index.
pub open spec fn rules_of(keys: Seq<Seq<char>>, values: Seq<Seq<char>>) -> Map<
    Seq<char>,
    Seq<char>,
> {
    Map::new(|key: Seq<char>| keys.contains(key), |key: Seq<char>| values[keys.index_of(key)])
}

/// Finds the keys of replacement rules in text and knows what to replace them with.
pub struct Checker {
    automaton: AhoCorasick,
    replacements: Vec<String>,
    keys: Ghost<Seq<Seq<char>>>,
}

impl Checker {
    #[verifier::type_invariant]
    spec fn inv(self) -> bool {
        &&& automaton_is_leftmost_longest(self.automaton)
        &&& automaton_patterns(self.automaton) == patterns_of(self.keys@)
        &&& self.keys@.len() == self.replacements@.len()
        &&& self.keys@.no_duplicates()
        &&& forall|i: int| 0 <= i < self.keys@.len() ==> (#[trigger] self.keys@[i]).len() > 0
    }

    /// The keys, in the order of their patterns.
    pub closed spec fn keys(self) -> Seq<Seq<char>> {
        self.keys@
    }

    /// The replacements, in the same order.
    pub closed spec fn replacements(self) -> Seq<Seq<char>> {
        self.replacements.deep_view()
    }

    /// The replacement rules.
    pub open spec fn rules(self) -> Map<Seq<char>, Seq<char>> {
        rules_of(self.keys(), self.replacements())
    }

    /// Builds a checker for keys that are not empty and all different.
    pub fn build(keys: &Vec<String>, replacements: Vec<String>) -> (r: Result<Checker, String>)
        requires
            keys@.len() == replacements@.len(),
            keys.deep_view().no_duplicates(),
            forall|i: int| 0 <= i < keys@.len() ==> (#[trigger] keys@[i])@.len() > 0,
        ensures
            match r {
                Ok(checker) => {
                    &&& build_failure(patterns_of(keys.deep_view())) is None
                    &&& checker.keys() == keys.deep_view()
                    &&& checker.replacements() == replacements.deep_view()
                },
                Err(error) => build_failure(patterns_of(keys.deep_view())) == Some(error@),
            },
    {
        match build_automaton(keys) {
            Ok(automaton) => Ok(
                Checker { automaton, replacements, keys: Ghost(keys.deep_view()) },
            ),
            Err(error) => Err(error),
        }
    }

    /// Finds the keys in text.
    pub fn find(&self, text: &str) -> (r: Vec<PatternMatch>)
        ensures
            are_leftmost_longest(patterns_of(self.keys()), encode_utf8(text@), 0, r@),
            self.keys().len() == self.replacements().len(),
            self.keys().no_duplicates(),
            forall|i: int| 0 <= i < self.keys().len() ==> (#[trigger] self.keys()[i]).len() > 0,
    {
        proof {
            use_type_invariant(self);
            assert forall|p: int| 0 <= p < patterns_of(self.keys@).len() implies (
            #[trigger] patterns_of(self.keys@)[p]).len() > 0 by {
                vstd::utf8::encode_utf8_first_scalar(self.keys@[p]);
            }
        }
        find_all(&self.automaton, text)
    }

    /// The replacement of the key with the given index.
    pub fn replacement(&self, pattern: usize) -> (r: &str)
        requires
            pattern < self.keys().len(),
        ensures
            pattern < self.replacements().len(),
            r@ == self.replacements()[pattern as int],
    {
        proof {
            use_type_invariant(self);
        }
        self.replacements[pattern].as_str()
    }
}

/// The rules pair each key with the replacement that has the same index, and have no other
/// key; the pattern of a key is its bytes.
pub proof fn law_rules_pair_keys_and_replacements(
    keys: Seq<Seq<char>>,
    values: Seq<Seq<char>>,
    i: int,
)
    requires
        0 <= i < keys.len(),
        keys.len() == values.len(),
        keys.no_duplicates(),
    ensures
        rules_of(keys, values).contains_key(keys[i]),
        rules_of(keys, values)[keys[i]] == values[i],
        forall|key: Seq<char>| #[trigger]
            rules_of(keys, values).contains_key(key) ==> keys.contains(key),
        patterns_of(keys).len() == keys.len(),
        patterns_of(keys)[i] == encode_utf8(keys[i]),
{
    assert(keys.contains(keys[i]));
}

} // verus!
