//! What rewriting does to text, told by the keys and the characters that stand in it.
use crate::input_text::Edit;
use crate::rewrite::{
    char_edit, char_edits, char_width, law_edits_are_in_order, law_fast_way_ignores_no_character,
    law_replacements_have_priority, lemma_longest_key, longest_key, needs_normalization,
    normalize_char, rewrite_edits, rewritten,
};
use crate::text::{
    lemma_encode_concat, lemma_offset_ends, lemma_offset_monotonic, lemma_offset_step,
};
use crate::unicode::{char_is_uppercase, char_lowercase, nfkc, nfkc_quick};
use vstd::prelude::*;
use vstd::utf8::encode_utf8;

verus! {

/// Whether the byte at `at` is inside of a replaced key: an edit that is made also without
/// normalization covers it.
pub open spec fn is_in_replaced_key(
    rules: Map<Seq<char>, Seq<char>>,
    text: Seq<char>,
    start: int,
    at: int,
) -> bool {
    exists|edit: Edit| #[trigger]
        rewrite_edits(rules, false, Set::empty(), text, start).contains(edit) && edit.start <= at
            < edit.end
}

/// Where the character with index `i` of a text stands that starts at byte `start`.
pub open spec fn place(text: Seq<char>, start: int, i: int) -> int {
    start + encode_utf8(text.take(i)).len()
}

/// In an empty text there is nothing to edit.
pub proof fn law_empty_text_stays_empty(
    rules: Map<Seq<char>, Seq<char>>,
    normalize: bool,
    ignored: Set<char>,
    text: Seq<char>,
    start: int,
)
    requires
        text.len() == 0,
    ensures
        rewrite_edits(rules, normalize, ignored, text, start).len() == 0,
        rewritten(rules, normalize, ignored, text).len() == 0,
{
}

// ---------------------------------------------------------------------------
// Replacements
// ---------------------------------------------------------------------------
/// Without normalization every edit replaces a key that stands in the text, from its first
/// byte to its last one, with the replacement that the rules have for it.
///
/// Returns the index of the first character of the key, and its length.
pub proof fn law_edit_replaces_a_key(
    rules: Map<Seq<char>, Seq<char>>,
    ignored: Set<char>,
    text: Seq<char>,
    start: int,
    edit: Edit,
) -> (r: (int, int))
    requires
        rewrite_edits(rules, false, ignored, text, start).contains(edit),
    ensures
        0 <= r.0 < r.0 + r.1 <= text.len(),
        rules.contains_key(text.subrange(r.0, r.0 + r.1)),
        edit.with == rules[text.subrange(r.0, r.0 + r.1)],
        edit.start == place(text, start, r.0),
        edit.end == place(text, start, r.0 + r.1),
    decreases text.len(),
{
    let all = rewrite_edits(rules, false, ignored, text, start);
    let k = all.index_of(edit);
    lemma_longest_key(rules, text, text.len() as int);
    lemma_offset_ends(text);
    match longest_key(rules, text, text.len() as int) {
        Some(n) => {
            if k == 0 {
                assert(text.subrange(0, 0 + n) =~= text.take(n));
                (0, n)
            } else {
                let end = start + encode_utf8(text.take(n)).len();
                let rest = text.skip(n);
                assert(rewrite_edits(rules, false, ignored, rest, end)[k - 1] == edit);
                let (i, m) = law_edit_replaces_a_key(rules, ignored, rest, end, edit);
                lemma_place_in_rest(text, start, n, i);
                lemma_place_in_rest(text, start, n, i + m);
                assert(rest.subrange(i, i + m) =~= text.subrange(n + i, n + i + m));
                (n + i, m)
            }
        },
        None => {
            let end = start + char_width(text[0]);
            let rest = text.drop_first();
            assert(all =~= rewrite_edits(rules, false, ignored, rest, end));
            let (i, m) = law_edit_replaces_a_key(rules, ignored, rest, end, edit);
            lemma_offset_step(text, 0);
            assert(rest =~= text.skip(1));
            lemma_place_in_rest(text, start, 1, i);
            lemma_place_in_rest(text, start, 1, i + m);
            assert(rest.subrange(i, i + m) =~= text.subrange(1 + i, 1 + i + m));
            (1 + i, m)
        },
    }
}

/// Wherever a key stands in the text, a key is replaced: this one, or one that starts before
/// it and reaches into it, or a longer one that starts with it.
///
/// Returns the edit, which is made with and without normalization.
pub proof fn law_no_key_is_passed_over(
    rules: Map<Seq<char>, Seq<char>>,
    normalize: bool,
    ignored: Set<char>,
    text: Seq<char>,
    start: int,
    i: int,
    n: int,
) -> (edit: Edit)
    requires
        0 <= i < i + n <= text.len(),
        rules.contains_key(text.subrange(i, i + n)),
    ensures
        rewrite_edits(rules, false, ignored, text, start).contains(edit),
        rewrite_edits(rules, normalize, ignored, text, start).contains(edit),
        edit.start <= place(text, start, i) < edit.end,
        edit.start == place(text, start, i) ==> place(text, start, i + n) <= edit.end,
    decreases text.len(),
{
    let all = rewrite_edits(rules, false, ignored, text, start);
    lemma_longest_key(rules, text, text.len() as int);
    lemma_offset_ends(text);
    let edit = match longest_key(rules, text, text.len() as int) {
        Some(m) => {
            let end = start + encode_utf8(text.take(m)).len();
            let first = Edit { start, end, with: rules[text.take(m)] };
            let rest = text.skip(m);
            if i < m {
                assert(all[0] == first);
                lemma_offset_monotonic(text, 0, i);
                lemma_offset_monotonic(text, i, m);
                if i == 0 {
                    assert(text.subrange(0, n) =~= text.take(n));
                    assert(n <= m);
                    lemma_offset_monotonic(text, n, m);
                } else {
                    lemma_offset_monotonic(text, 0, 1);
                    lemma_offset_monotonic(text, 1, i);
                }
                first
            } else {
                assert(rest.subrange(i - m, i - m + n) =~= text.subrange(i, i + n));
                let edit = law_no_key_is_passed_over(
                    rules,
                    false,
                    ignored,
                    rest,
                    end,
                    i - m,
                    n,
                );
                let tail = rewrite_edits(rules, false, ignored, rest, end);
                assert(all[tail.index_of(edit) + 1] == edit);
                lemma_place_in_rest(text, start, m, i - m);
                lemma_place_in_rest(text, start, m, i - m + n);
                edit
            }
        },
        None => {
            let end = start + char_width(text[0]);
            let rest = text.drop_first();
            if i == 0 {
                assert(text.subrange(0, n) =~= text.take(n));
                assert(false);
            }
            assert(rest.subrange(i - 1, i - 1 + n) =~= text.subrange(i, i + n));
            let edit = law_no_key_is_passed_over(rules, false, ignored, rest, end, i - 1, n);
            assert(all =~= rewrite_edits(rules, false, ignored, rest, end));
            lemma_offset_step(text, 0);
            assert(rest =~= text.skip(1));
            lemma_place_in_rest(text, start, 1, i - 1);
            lemma_place_in_rest(text, start, 1, i - 1 + n);
            edit
        },
    };
    law_replacements_have_priority(rules, ignored, text, start, edit);
    edit
}

/// In the rewritten text the replacement stands in the place of a replaced key, between what
/// is made of the text before it and what is made of the text after it.
pub proof fn law_replacement_is_in_place(
    rules: Map<Seq<char>, Seq<char>>,
    normalize: bool,
    ignored: Set<char>,
    text: Seq<char>,
    start: int,
    i: int,
    n: int,
)
    requires
        0 <= i < i + n <= text.len(),
        rewrite_edits(rules, false, ignored, text, start).contains(
            (Edit {
                start: place(text, start, i),
                end: place(text, start, i + n),
                with: rules[text.subrange(i, i + n)],
            }),
        ),
    ensures
        rewritten(rules, normalize, ignored, text) == rewritten(
            rules,
            normalize,
            ignored,
            text.take(i),
        ) + rules[text.subrange(i, i + n)] + rewritten(
            rules,
            normalize,
            ignored,
            text.skip(i + n),
        ),
    decreases text.len(),
{
    let edit = Edit {
        start: place(text, start, i),
        end: place(text, start, i + n),
        with: rules[text.subrange(i, i + n)],
    };
    let edits = rewrite_edits(rules, false, ignored, text, start);
    let before = text.take(i);
    lemma_offset_ends(text);
    lemma_longest_key(rules, text, text.len() as int);
    lemma_longest_key(rules, before, i);
    assert forall|k: int| 0 < k <= i implies #[trigger] before.take(k) == text.take(k) by {
        assert(before.take(k) =~= text.take(k));
    }
    let done = rewritten(rules, normalize, ignored, before);
    match longest_key(rules, text, text.len() as int) {
        Some(m) => {
            let end = place(text, start, m);
            let rest = text.skip(m);
            let after = rewrite_edits(rules, false, ignored, rest, end);
            lemma_contained(seq![edits[0]], after, edits);
            law_edits_are_in_order(rules, false, ignored, rest, end);
            lemma_offset_monotonic(text, 0, i);
            if after.contains(edit) {
                if i < m {
                    lemma_offset_monotonic(text, i, m);
                }
                lemma_place_in_rest(text, start, m, i - m);
                lemma_place_in_rest(text, start, m, i - m + n);
                assert(rest.subrange(i - m, i - m + n) =~= text.subrange(i, i + n));
                law_replacement_is_in_place(rules, normalize, ignored, rest, end, i - m, n);
                assert(before.take(m) == text.take(m));
                assert(longest_key(rules, before, i) == Some(m));
                assert(before.skip(m) =~= rest.take(i - m));
                assert(rest.skip(i - m + n) =~= text.skip(i + n));
            } else {
                assert(edits[0] == edit);
                if n < m {
                    lemma_offset_monotonic(text, n, m);
                } else {
                    lemma_offset_monotonic(text, m, n);
                }
                assert(text.subrange(0, n) =~= text.take(n));
                assert(done =~= Seq::empty());
            }
        },
        None => {
            let end = start + char_width(text[0]);
            let rest = text.drop_first();
            let after = rewrite_edits(rules, false, ignored, rest, end);
            assert(edits =~= after);
            assert(rest =~= text.skip(1));
            lemma_offset_step(text, 0);
            law_edits_are_in_order(rules, false, ignored, rest, end);
            lemma_offset_monotonic(text, 0, 1);
            lemma_place_in_rest(text, start, 1, i - 1);
            lemma_place_in_rest(text, start, 1, i - 1 + n);
            assert(rest.subrange(i - 1, i - 1 + n) =~= text.subrange(i, i + n));
            law_replacement_is_in_place(rules, normalize, ignored, rest, end, i - 1, n);
            assert(longest_key(rules, before, i) is None);
            assert(before.drop_first() =~= rest.take(i - 1));
            assert(rest.skip(i - 1 + n) =~= text.skip(i + n));
        },
    }
}

// ---------------------------------------------------------------------------
// Characters
// ---------------------------------------------------------------------------
/// A character that is in no replaced key, is not ignored and not uppercase, and of which the
/// quick check for NFKC does not say `Yes`, is replaced with its NFKC, unless that is empty
/// or starts with the character itself. In the rewritten text the NFKC stands in its place.
pub proof fn law_character_is_brought_into_nfkc(
    rules: Map<Seq<char>, Seq<char>>,
    ignored: Set<char>,
    text: Seq<char>,
    start: int,
    i: int,
)
    requires
        0 <= i < text.len(),
        !is_in_replaced_key(rules, text, start, place(text, start, i)),
        !ignored.contains(text[i]),
        !char_is_uppercase(text[i]),
        !(nfkc_quick(seq![text[i]]) is Yes),
        nfkc(seq![text[i]]).len() > 0,
        nfkc(seq![text[i]])[0] != text[i],
    ensures
        rewrite_edits(rules, true, ignored, text, start).contains(
            (Edit {
                start: place(text, start, i),
                end: place(text, start, i + 1),
                with: nfkc(seq![text[i]]),
            }),
        ),
        rewritten(rules, true, ignored, text) == rewritten(rules, true, ignored, text.take(i))
            + nfkc(seq![text[i]]) + rewritten(rules, true, ignored, text.skip(i + 1)),
{
    lemma_character_is_edited(rules, ignored, text, start, i);
    assert(char_edit(text[i], ignored, place(text, start, i))[0].with == nfkc(seq![text[i]]));
    lemma_character_is_rewritten(rules, true, ignored, text, start, i);
}

/// An uppercase character that is in no replaced key is replaced with its lowercase mapping,
/// which is brought into NFKC first if the character is not ignored and the quick check for
/// NFKC does not say `Yes` of it; unless the outcome is empty or starts with the character
/// itself. In the rewritten text the outcome stands in its place.
pub proof fn law_uppercase_character_is_lowercased(
    rules: Map<Seq<char>, Seq<char>>,
    ignored: Set<char>,
    text: Seq<char>,
    start: int,
    i: int,
    outcome: Seq<char>,
)
    requires
        0 <= i < text.len(),
        !is_in_replaced_key(rules, text, start, place(text, start, i)),
        char_is_uppercase(text[i]),
        ignored.contains(text[i]) || nfkc_quick(seq![text[i]]) is Yes ==> outcome
            == char_lowercase(text[i]),
        !ignored.contains(text[i]) && !(nfkc_quick(seq![text[i]]) is Yes) ==> outcome == nfkc(
            char_lowercase(text[i]),
        ),
        outcome.len() > 0,
        outcome[0] != text[i],
    ensures
        rewrite_edits(rules, true, ignored, text, start).contains(
            (Edit {
                start: place(text, start, i),
                end: place(text, start, i + 1),
                with: outcome,
            }),
        ),
        rewritten(rules, true, ignored, text) == rewritten(rules, true, ignored, text.take(i))
            + outcome + rewritten(rules, true, ignored, text.skip(i + 1)),
{
    lemma_character_is_edited(rules, ignored, text, start, i);
    assert(char_edit(text[i], ignored, place(text, start, i))[0].with == outcome);
    lemma_character_is_rewritten(rules, true, ignored, text, start, i);
}

/// Any other character that is in no replaced key stays: one that is not uppercase and is
/// ignored or known to be in NFKC, and one whose outcome is empty or starts with itself.
/// Without normalization all of them stay.
pub proof fn law_other_character_stays(
    rules: Map<Seq<char>, Seq<char>>,
    normalize: bool,
    ignored: Set<char>,
    text: Seq<char>,
    start: int,
    i: int,
)
    requires
        0 <= i < text.len(),
        !is_in_replaced_key(rules, text, start, place(text, start, i)),
        normalize && !char_is_uppercase(text[i]) ==> {
            ||| ignored.contains(text[i])
            ||| nfkc_quick(seq![text[i]]) is Yes
            ||| nfkc(seq![text[i]]).len() == 0
            ||| nfkc(seq![text[i]])[0] == text[i]
        },
        normalize && char_is_uppercase(text[i]) && (ignored.contains(text[i]) || nfkc_quick(
            seq![text[i]],
        ) is Yes) ==> {
            ||| char_lowercase(text[i]).len() == 0
            ||| char_lowercase(text[i])[0] == text[i]
        },
        normalize && char_is_uppercase(text[i]) && !ignored.contains(text[i]) && !(nfkc_quick(
            seq![text[i]],
        ) is Yes) ==> {
            ||| nfkc(char_lowercase(text[i])).len() == 0
            ||| nfkc(char_lowercase(text[i]))[0] == text[i]
        },
    ensures
        forall|edit: Edit| #[trigger]
            rewrite_edits(rules, normalize, ignored, text, start).contains(edit) ==> !(edit.start
                <= place(text, start, i) < edit.end),
        rewritten(rules, normalize, ignored, text) == rewritten(
            rules,
            normalize,
            ignored,
            text.take(i),
        ) + seq![text[i]] + rewritten(rules, normalize, ignored, text.skip(i + 1)),
{
    lemma_character_is_rewritten(rules, normalize, ignored, text, start, i);
    if normalize {
        lemma_character_is_edited(rules, ignored, text, start, i);
    } else {
        law_fast_way_ignores_no_character(rules, ignored, Set::empty(), text, start);
    }
}

/// With normalization nothing else is edited: every edit is a replacement of a key, or
/// replaces one whole character that is in no replaced key.
///
/// Returns the index of that character.
pub proof fn law_edit_is_of_a_key_or_a_character(
    rules: Map<Seq<char>, Seq<char>>,
    ignored: Set<char>,
    text: Seq<char>,
    start: int,
    edit: Edit,
) -> (i: int)
    requires
        rewrite_edits(rules, true, ignored, text, start).contains(edit),
        !rewrite_edits(rules, false, ignored, text, start).contains(edit),
    ensures
        0 <= i < text.len(),
        edit.start == place(text, start, i),
        edit.end == place(text, start, i + 1),
        !is_in_replaced_key(rules, text, start, place(text, start, i)),
    decreases text.len(),
{
    let slow = rewrite_edits(rules, true, ignored, text, start);
    let fast = rewrite_edits(rules, false, ignored, text, start);
    let k = slow.index_of(edit);
    lemma_longest_key(rules, text, text.len() as int);
    lemma_offset_ends(text);
    match longest_key(rules, text, text.len() as int) {
        Some(n) => {
            let end = start + encode_utf8(text.take(n)).len();
            let rest = text.skip(n);
            let fast_rest = rewrite_edits(rules, false, ignored, rest, end);
            if k == 0 {
                assert(fast[0] == edit);
            }
            assert(rewrite_edits(rules, true, ignored, rest, end)[k - 1] == edit);
            if fast_rest.contains(edit) {
                assert(fast[fast_rest.index_of(edit) + 1] == edit);
            }
            let i = law_edit_is_of_a_key_or_a_character(rules, ignored, rest, end, edit);
            lemma_place_in_rest(text, start, n, i);
            lemma_place_in_rest(text, start, n, i + 1);
            lemma_offset_monotonic(text, n, n + i);
            lemma_replaced_keys(rules, text, start, place(text, start, n + i));
            n + i
        },
        None => {
            let here = char_edit(text[0], ignored, start);
            let end = start + char_width(text[0]);
            let rest = text.drop_first();
            let fast_rest = rewrite_edits(rules, false, ignored, rest, end);
            lemma_offset_step(text, 0);
            assert(rest =~= text.skip(1));
            assert(fast =~= fast_rest);
            if k < here.len() {
                assert(slow[k] == here[k]);
                lemma_replaced_keys(rules, text, start, start);
                0
            } else {
                let slow_rest = rewrite_edits(rules, true, ignored, rest, end);
                assert(slow == here + slow_rest);
                assert(slow_rest[k - here.len()] == edit);
                let i = law_edit_is_of_a_key_or_a_character(rules, ignored, rest, end, edit);
                lemma_place_in_rest(text, start, 1, i);
                lemma_place_in_rest(text, start, 1, i + 1);
                lemma_replaced_keys(rules, text, start, place(text, start, 1 + i));
                1 + i
            }
        },
    }
}

/// Normalizing the characters of a text is rewriting it without rules.
pub proof fn law_normalizing_is_rewriting_without_rules(
    ignored: Set<char>,
    text: Seq<char>,
    start: int,
)
    ensures
        char_edits(text, ignored, start) == rewrite_edits(
            Map::empty(),
            true,
            ignored,
            text,
            start,
        ),
    decreases text.len(),
{
    if text.len() > 0 {
        let rules = Map::<Seq<char>, Seq<char>>::empty();
        lemma_longest_key(rules, text, text.len() as int);
        law_normalizing_is_rewriting_without_rules(
            ignored,
            text.drop_first(),
            start + char_width(text[0]),
        );
    }
}

/// Text has to be normalized if the quick check for NFKC does not say `Yes` of it or one of
/// its characters is uppercase, and otherwise has not.
pub proof fn law_what_needs_normalization(text: Seq<char>, i: int)
    requires
        0 <= i < text.len(),
    ensures
        !(nfkc_quick(text) is Yes) ==> needs_normalization(text),
        char_is_uppercase(text[i]) ==> needs_normalization(text),
        needs_normalization(text) && nfkc_quick(text) is Yes ==> exists|k: int|
            0 <= k < text.len() && char_is_uppercase(#[trigger] text[k]),
{
}

/// Places after the first `n` characters are places in the rest of the text.
proof fn lemma_place_in_rest(text: Seq<char>, start: int, n: int, i: int)
    requires
        0 <= n,
        0 <= i,
        n + i <= text.len(),
    ensures
        place(text.skip(n), place(text, start, n), i) == place(text, start, n + i),
{
    assert(text.take(n + i) =~= text.take(n) + text.skip(n).take(i));
    lemma_encode_concat(text.take(n), text.skip(n).take(i));
}

/// The replaced keys are the one with which the text starts, if there is one, and those of
/// the rest; all of them are inside of the text.
proof fn lemma_replaced_keys(rules: Map<Seq<char>, Seq<char>>, text: Seq<char>, start: int, at: int)
    ensures
        is_in_replaced_key(rules, text, start, at) ==> start <= at < start + encode_utf8(
            text,
        ).len(),
        text.len() > 0 ==> match longest_key(rules, text, text.len() as int) {
            Some(n) => {
                let end = place(text, start, n);
                is_in_replaced_key(rules, text, start, at) <==> start <= at < end
                    || is_in_replaced_key(rules, text.skip(n), end, at)
            },
            None => {
                let end = start + char_width(text[0]);
                &&& is_in_replaced_key(rules, text, start, at) <==> is_in_replaced_key(
                    rules,
                    text.skip(1),
                    end,
                    at,
                )
                &&& is_in_replaced_key(rules, text.skip(1), end, at) ==> end <= at
            },
        },
{
    let none = Set::<char>::empty();
    let all = rewrite_edits(rules, false, none, text, start);
    law_edits_are_in_order(rules, false, none, text, start);
    if text.len() > 0 {
        lemma_longest_key(rules, text, text.len() as int);
        match longest_key(rules, text, text.len() as int) {
            Some(n) => {
                let end = place(text, start, n);
                let rest = rewrite_edits(rules, false, none, text.skip(n), end);
                let first = all[0];
                assert(all.contains(first));
                if is_in_replaced_key(rules, text, start, at) {
                    let edit = choose|edit: Edit| #[trigger]
                        all.contains(edit) && edit.start <= at < edit.end;
                    if edit != first {
                        assert(rest[all.index_of(edit) - 1] == edit);
                        assert(rest.contains(edit));
                    }
                }
                if is_in_replaced_key(rules, text.skip(n), end, at) {
                    let edit = choose|edit: Edit| #[trigger]
                        rest.contains(edit) && edit.start <= at < edit.end;
                    assert(all[rest.index_of(edit) + 1] == edit);
                    assert(all.contains(edit));
                }
            },
            None => {
                let end = start + char_width(text[0]);
                assert(text.drop_first() =~= text.skip(1));
                assert(all =~= rewrite_edits(rules, false, none, text.skip(1), end));
                law_edits_are_in_order(rules, false, none, text.skip(1), end);
            },
        }
    }
}

/// A character that is in no replaced key has the edit of its own, and no other.
proof fn lemma_character_is_edited(
    rules: Map<Seq<char>, Seq<char>>,
    ignored: Set<char>,
    text: Seq<char>,
    start: int,
    i: int,
)
    requires
        0 <= i < text.len(),
        !is_in_replaced_key(rules, text, start, place(text, start, i)),
    ensures
        place(text, start, i + 1) == place(text, start, i) + char_width(text[i]),
        forall|edit: Edit|
            #![trigger rewrite_edits(rules, true, ignored, text, start).contains(edit)]
            char_edit(text[i], ignored, place(text, start, i)).contains(edit)
                ==> rewrite_edits(rules, true, ignored, text, start).contains(edit),
        forall|edit: Edit|
            #![trigger rewrite_edits(rules, true, ignored, text, start).contains(edit)]
            rewrite_edits(rules, true, ignored, text, start).contains(edit) && edit.start <= place(
                text,
                start,
                i,
            ) < edit.end ==> char_edit(text[i], ignored, place(text, start, i)).contains(edit),
    decreases text.len(),
{
    let all = rewrite_edits(rules, true, ignored, text, start);
    let at = place(text, start, i);
    lemma_offset_step(text, i);
    lemma_offset_ends(text);
    lemma_replaced_keys(rules, text, start, at);
    lemma_longest_key(rules, text, text.len() as int);
    match longest_key(rules, text, text.len() as int) {
        Some(n) => {
            let end = place(text, start, n);
            let rest = rewrite_edits(rules, true, ignored, text.skip(n), end);
            lemma_offset_monotonic(text, 0, i);
            if i < n {
                lemma_offset_monotonic(text, i, n);
            }
            lemma_place_in_rest(text, start, n, i - n);
            lemma_character_is_edited(rules, ignored, text.skip(n), end, i - n);
            assert(text.skip(n)[i - n] == text[i]);
            lemma_offset_monotonic(text, n, i);
            lemma_contained(seq![all[0]], rest, all);
        },
        None => {
            let end = start + char_width(text[0]);
            let here = char_edit(text[0], ignored, start);
            let rest = rewrite_edits(rules, true, ignored, text.drop_first(), end);
            assert(text.drop_first() =~= text.skip(1));
            lemma_offset_step(text, 0);
            lemma_contained(here, rest, all);
            if i == 0 {
                law_edits_are_in_order(rules, true, ignored, text.drop_first(), end);
            } else {
                lemma_place_in_rest(text, start, 1, i - 1);
                lemma_character_is_edited(rules, ignored, text.skip(1), end, i - 1);
                assert(text.skip(1)[i - 1] == text[i]);
                lemma_offset_monotonic(text, 1, i);
            }
        },
    }
}

proof fn lemma_contained(first: Seq<Edit>, rest: Seq<Edit>, all: Seq<Edit>)
    requires
        all == first + rest,
    ensures
        forall|edit: Edit| #[trigger]
            all.contains(edit) <==> first.contains(edit) || rest.contains(edit),
{
    assert forall|edit: Edit| #[trigger] all.contains(edit) <==> first.contains(edit)
        || rest.contains(edit) by {
        if all.contains(edit) {
            let k = all.index_of(edit);
            if k < first.len() {
                assert(first[k] == edit);
            } else {
                assert(rest[k - first.len()] == edit);
            }
        }
        if first.contains(edit) {
            assert(all[first.index_of(edit)] == edit);
        }
        if rest.contains(edit) {
            assert(all[first.len() + rest.index_of(edit)] == edit);
        }
    }
}

/// Text is rewritten apart before and after a character that is in no replaced key.
proof fn lemma_character_is_rewritten(
    rules: Map<Seq<char>, Seq<char>>,
    normalize: bool,
    ignored: Set<char>,
    text: Seq<char>,
    start: int,
    i: int,
)
    requires
        0 <= i < text.len(),
        !is_in_replaced_key(rules, text, start, place(text, start, i)),
    ensures
        rewritten(rules, normalize, ignored, text) == rewritten(
            rules,
            normalize,
            ignored,
            text.take(i),
        ) + (if normalize && normalize_char(text[i], ignored).len() > 0 && normalize_char(
            text[i],
            ignored,
        )[0] != text[i] {
            normalize_char(text[i], ignored)
        } else {
            seq![text[i]]
        }) + rewritten(rules, normalize, ignored, text.skip(i + 1)),
    decreases text.len(),
{
    let before = text.take(i);
    let at = place(text, start, i);
    lemma_offset_ends(text);
    lemma_replaced_keys(rules, text, start, at);
    lemma_longest_key(rules, text, text.len() as int);
    lemma_longest_key(rules, before, i);
    assert forall|k: int| 0 < k <= i implies #[trigger] before.take(k) == text.take(k) by {
        assert(before.take(k) =~= text.take(k));
    }
    let all = rewritten(rules, normalize, ignored, text);
    let done = rewritten(rules, normalize, ignored, before);
    match longest_key(rules, text, text.len() as int) {
        Some(n) => {
            let end = place(text, start, n);
            let rest = text.skip(n);
            lemma_offset_monotonic(text, 0, i);
            if i < n {
                lemma_offset_monotonic(text, i, n);
            }
            lemma_place_in_rest(text, start, n, i - n);
            lemma_character_is_rewritten(rules, normalize, ignored, rest, end, i - n);
            assert(before.take(n) == text.take(n));
            assert(longest_key(rules, before, i) == Some(n));
            assert(before.skip(n) =~= rest.take(i - n));
            assert(rest.skip(i - n + 1) =~= text.skip(i + 1));
            assert(rest[i - n] == text[i]);
            assert(done == rules[text.take(n)] + rewritten(
                rules,
                normalize,
                ignored,
                rest.take(i - n),
            ));
        },
        None => {
            let end = start + char_width(text[0]);
            let rest = text.drop_first();
            assert(rest =~= text.skip(1));
            lemma_offset_step(text, 0);
            if i > 0 {
                lemma_place_in_rest(text, start, 1, i - 1);
                lemma_character_is_rewritten(rules, normalize, ignored, rest, end, i - 1);
                assert(longest_key(rules, before, i) is None);
                assert(before.drop_first() =~= rest.take(i - 1));
                assert(rest.skip(i - 1 + 1) =~= text.skip(i + 1));
                assert(rest[i - 1] == text[i]);
            } else {
                assert(done =~= Seq::empty());
            }
        },
    }
}

} // verus!
