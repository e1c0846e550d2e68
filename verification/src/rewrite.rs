//! What rewriting does to text: the edits, and the laws they keep.
use crate::checker::{
    are_leftmost_longest, is_leftmost_longest, patterns_of, rules_of, PatternMatch,
};
use crate::input_text::Edit;
use crate::text::{
    byte_offset, lemma_encode_concat, lemma_encode_subrange, lemma_occurrence_in_bytes,
    lemma_occurrence_is_aligned, lemma_offset_ends, lemma_offset_monotonic, lemma_offset_step,
    occurs_at,
};
use crate::unicode::{char_is_uppercase, char_lowercase, nfkc, nfkc_quick};
use vstd::prelude::*;
use vstd::utf8::*;

verus! {

/// The number of bytes of a character.
pub open spec fn char_width(c: char) -> int {
    encode_scalar(c as u32).len() as int
}

/// Lowercased and NFKC form of a character. A character of the ignored set is not brought
/// into NFKC, but it is lowercased.
pub open spec fn normalize_char(c: char, ignored: Set<char>) -> Seq<char> {
    let lowered = if char_is_uppercase(c) {
        char_lowercase(c)
    } else {
        seq![c]
    };
    if !ignored.contains(c) && !(nfkc_quick(seq![c]) is Yes) {
        nfkc(lowered)
    } else {
        lowered
    }
}

/// The edit that normalizes a character standing at byte `at`; there is none if the
/// normalized form starts with the character itself or is empty.
pub open spec fn char_edit(c: char, ignored: Set<char>, at: int) -> Seq<Edit> {
    let normal = normalize_char(c, ignored);
    if normal.len() > 0 && normal[0] != c {
        seq![Edit { start: at, end: at + char_width(c), with: normal }]
    } else {
        Seq::empty()
    }
}

/// The edits that normalize the characters of `text`, which starts at byte `at`.
pub open spec fn char_edits(text: Seq<char>, ignored: Set<char>, at: int) -> Seq<Edit>
    decreases text.len(),
{
    if text.len() == 0 {
        Seq::empty()
    } else {
        char_edit(text[0], ignored, at) + char_edits(
            text.drop_first(),
            ignored,
            at + char_width(text[0]),
        )
    }
}

/// The length of the longest key, of at most `n` characters, with which `text` starts.
pub open spec fn longest_key(rules: Map<Seq<char>, Seq<char>>, text: Seq<char>, n: int) -> Option<
    int,
>
    decreases n,
{
    if n <= 0 {
        None
    } else if rules.contains_key(text.take(n)) {
        Some(n)
    } else {
        longest_key(rules, text, n - 1)
    }
}

/// The edits of `text`, which starts at byte `at`. From left to right: where the text
/// starts with keys of the rules, the longest one is replaced; any other character is
/// normalized if `normalize` says so, and left alone else.
pub open spec fn rewrite_edits(
    rules: Map<Seq<char>, Seq<char>>,
    normalize: bool,
    ignored: Set<char>,
    text: Seq<char>,
    at: int,
) -> Seq<Edit>
    decreases text.len(),
{
    if text.len() == 0 {
        Seq::empty()
    } else {
        match longest_key(rules, text, text.len() as int) {
            Some(n) if 0 < n <= text.len() => {
                let end = at + encode_utf8(text.take(n)).len();
                seq![Edit { start: at, end, with: rules[text.take(n)] }] + rewrite_edits(
                    rules,
                    normalize,
                    ignored,
                    text.skip(n),
                    end,
                )
            },
            _ => {
                (if normalize {
                    char_edit(text[0], ignored, at)
                } else {
                    Seq::empty()
                }) + rewrite_edits(
                    rules,
                    normalize,
                    ignored,
                    text.drop_first(),
                    at + char_width(text[0]),
                )
            },
        }
    }
}

/// Whether text has to be normalized: it is not known to be in NFKC or has something to
/// lowercase.
pub open spec fn needs_normalization(text: Seq<char>) -> bool {
    ||| !(nfkc_quick(text) is Yes)
    ||| exists|i: int| 0 <= i < text.len() && char_is_uppercase(#[trigger] text[i])
}

// ---------------------------------------------------------------------------
// From occurrences of patterns in bytes to keys at characters
// ---------------------------------------------------------------------------
/// The edits of the characters from index `p` to `q`, between which no key starts.
pub open spec fn gap_edits(
    normalize: bool,
    ignored: Set<char>,
    text: Seq<char>,
    p: int,
    q: int,
) -> Seq<Edit> {
    if normalize {
        char_edits(text.subrange(p, q), ignored, byte_offset(text, p))
    } else {
        Seq::empty()
    }
}

/// The edits from the character with index `p` on.
pub open spec fn edits_from(
    rules: Map<Seq<char>, Seq<char>>,
    normalize: bool,
    ignored: Set<char>,
    text: Seq<char>,
    p: int,
) -> Seq<Edit> {
    rewrite_edits(rules, normalize, ignored, text.skip(p), byte_offset(text, p))
}

/// Whether a key of the rules starts at the character with index `i`.
pub open spec fn key_starts_at(
    rules: Map<Seq<char>, Seq<char>>,
    text: Seq<char>,
    i: int,
) -> bool {
    longest_key(rules, text.skip(i), text.len() - i) is Some
}

pub proof fn lemma_longest_key(rules: Map<Seq<char>, Seq<char>>, text: Seq<char>, n: int)
    ensures
        match longest_key(rules, text, n) {
            Some(m) => {
                &&& 0 < m <= n
                &&& rules.contains_key(text.take(m))
                &&& forall|k: int| m < k <= n ==> !#[trigger] rules.contains_key(text.take(k))
            },
            None => forall|k: int| 0 < k <= n ==> !#[trigger] rules.contains_key(text.take(k)),
        },
    decreases n,
{
    if n > 0 {
        lemma_longest_key(rules, text, n - 1);
    }
}

/// A key that starts at a character occurs in the bytes at the offset of that character.
proof fn lemma_key_occurs(
    keys: Seq<Seq<char>>,
    values: Seq<Seq<char>>,
    text: Seq<char>,
    i: int,
    n: int,
) -> (p: int)
    requires
        0 <= i,
        0 < n,
        i + n <= text.len(),
        rules_of(keys, values).contains_key(text.skip(i).take(n)),
    ensures
        0 <= p < keys.len(),
        keys[p] == text.skip(i).take(n),
        occurs_at(patterns_of(keys)[p], encode_utf8(text), byte_offset(text, i)),
        patterns_of(keys)[p].len() == byte_offset(text, i + n) - byte_offset(text, i),
{
    let key = text.skip(i).take(n);
    let p = choose|p: int| 0 <= p < keys.len() && keys[p] == key;
    assert(text.subrange(i, i + n) =~= key);
    lemma_occurrence_in_bytes(key, text, i);
    p
}

/// No key starts at the characters after the last match.
pub proof fn lemma_no_match_left(
    keys: Seq<Seq<char>>,
    values: Seq<Seq<char>>,
    text: Seq<char>,
    p: int,
)
    requires
        0 <= p <= text.len(),
        are_leftmost_longest(
            patterns_of(keys),
            encode_utf8(text),
            byte_offset(text, p),
            Seq::<PatternMatch>::empty(),
        ),
    ensures
        forall|i: int|
            p <= i < text.len() ==> !#[trigger] key_starts_at(rules_of(keys, values), text, i),
{
    let rules = rules_of(keys, values);
    assert forall|i: int| p <= i < text.len() implies !#[trigger] key_starts_at(
        rules,
        text,
        i,
    ) by {
        lemma_longest_key(rules, text.skip(i), text.len() - i);
        if let Some(n) = longest_key(rules, text.skip(i), text.len() - i) {
            let k = lemma_key_occurs(keys, values, text, i, n);
            lemma_offset_monotonic(text, p, i);
        }
    }
}

/// Up to the next match no key starts, and the match is the longest key that starts where
/// it starts. Returns the index of the character where the match starts.
pub proof fn lemma_next_match(
    keys: Seq<Seq<char>>,
    values: Seq<Seq<char>>,
    text: Seq<char>,
    p: int,
    m: PatternMatch,
) -> (q: int)
    requires
        keys.len() == values.len(),
        keys.no_duplicates(),
        forall|i: int| 0 <= i < keys.len() ==> (#[trigger] keys[i]).len() > 0,
        0 <= p <= text.len(),
        is_leftmost_longest(patterns_of(keys), encode_utf8(text), byte_offset(text, p), m),
    ensures
        m.pattern < keys.len(),
        p <= q,
        q + keys[m.pattern as int].len() <= text.len(),
        byte_offset(text, q) == m.start,
        byte_offset(text, q + keys[m.pattern as int].len()) == m.end,
        forall|i: int|
            p <= i < q ==> !#[trigger] key_starts_at(rules_of(keys, values), text, i),
        longest_key(rules_of(keys, values), text.skip(q), text.len() - q) == Some(
            keys[m.pattern as int].len() as int,
        ),
        text.skip(q).take(keys[m.pattern as int].len() as int) == keys[m.pattern as int],
        rules_of(keys, values)[keys[m.pattern as int]] == values[m.pattern as int],
{
    let rules = rules_of(keys, values);
    let bytes = encode_utf8(text);
    let key = keys[m.pattern as int];
    let n = key.len() as int;
    assert(keys[m.pattern as int].len() > 0);
    let q = lemma_occurrence_is_aligned(key, text, m.start as int);
    if q < p {
        lemma_offset_monotonic(text, q, p);
    }
    assert forall|i: int| p <= i < q implies !#[trigger] key_starts_at(rules, text, i) by {
        lemma_longest_key(rules, text.skip(i), text.len() - i);
        if let Some(k) = longest_key(rules, text.skip(i), text.len() - i) {
            let j = lemma_key_occurs(keys, values, text, i, k);
            lemma_offset_monotonic(text, p, i);
            lemma_offset_monotonic(text, i, q);
        }
    }
    assert(text.skip(q).take(n) =~= text.subrange(q, q + n));
    assert(keys.contains(key));
    lemma_longest_key(rules, text.skip(q), text.len() - q);
    let longest = longest_key(rules, text.skip(q), text.len() - q);
    assert(rules.contains_key(text.skip(q).take(n)));
    assert(longest is Some);
    let k = longest->Some_0;
    assert(k >= n);
    if k > n {
        let j = lemma_key_occurs(keys, values, text, q, k);
        lemma_offset_monotonic(text, q + n, q + k);
    }
    q
}

/// Characters where no key starts are edited one by one.
pub proof fn lemma_skip_gap(
    rules: Map<Seq<char>, Seq<char>>,
    normalize: bool,
    ignored: Set<char>,
    text: Seq<char>,
    p: int,
    q: int,
)
    requires
        0 <= p <= q <= text.len(),
        forall|i: int| p <= i < q ==> !#[trigger] key_starts_at(rules, text, i),
    ensures
        edits_from(rules, normalize, ignored, text, p) == gap_edits(
            normalize,
            ignored,
            text,
            p,
            q,
        ) + edits_from(rules, normalize, ignored, text, q),
    decreases q - p,
{
    if p < q {
        lemma_skip_gap(rules, normalize, ignored, text, p + 1, q);
        lemma_offset_step(text, p);
        assert(!key_starts_at(rules, text, p));
        assert(text.skip(p).drop_first() =~= text.skip(p + 1));
        assert(text.subrange(p, q).drop_first() =~= text.subrange(p + 1, q));
        let rest = edits_from(rules, normalize, ignored, text, q);
        if normalize {
            let here = char_edit(text[p], ignored, byte_offset(text, p));
            let tail = gap_edits(normalize, ignored, text, p + 1, q);
            assert(here + (tail + rest) =~= (here + tail) + rest);
        } else {
            assert(Seq::<Edit>::empty() + rest =~= rest);
        }
    } else {
        assert(text.subrange(p, q) =~= Seq::empty());
        assert(gap_edits(normalize, ignored, text, p, q) =~= Seq::empty());
        assert(Seq::<Edit>::empty() + edits_from(rules, normalize, ignored, text, q)
            =~= edits_from(rules, normalize, ignored, text, q));
    }
}

/// The edits up to the end of the next match.
pub proof fn lemma_edit_match(
    keys: Seq<Seq<char>>,
    values: Seq<Seq<char>>,
    normalize: bool,
    ignored: Set<char>,
    text: Seq<char>,
    p: int,
    m: PatternMatch,
) -> (q: int)
    requires
        keys.len() == values.len(),
        keys.no_duplicates(),
        forall|i: int| 0 <= i < keys.len() ==> (#[trigger] keys[i]).len() > 0,
        0 <= p <= text.len(),
        is_leftmost_longest(patterns_of(keys), encode_utf8(text), byte_offset(text, p), m),
    ensures
        m.pattern < keys.len(),
        p <= q,
        q + keys[m.pattern as int].len() <= text.len(),
        byte_offset(text, q) == m.start,
        byte_offset(text, q + keys[m.pattern as int].len()) == m.end,
        edits_from(rules_of(keys, values), normalize, ignored, text, p) == (gap_edits(
            normalize,
            ignored,
            text,
            p,
            q,
        ).push(
            Edit { start: m.start as int, end: m.end as int, with: values[m.pattern as int] },
        )) + edits_from(
            rules_of(keys, values),
            normalize,
            ignored,
            text,
            q + keys[m.pattern as int].len(),
        ),
{
    let rules = rules_of(keys, values);
    let q = lemma_next_match(keys, values, text, p, m);
    let n = keys[m.pattern as int].len() as int;
    lemma_skip_gap(rules, normalize, ignored, text, p, q);
    lemma_encode_subrange(text, q, q + n);
    assert(text.skip(q).take(n) =~= text.subrange(q, q + n));
    assert(text.skip(q).skip(n) =~= text.skip(q + n));
    let gap = gap_edits(normalize, ignored, text, p, q);
    let edit = Edit { start: m.start as int, end: m.end as int, with: values[m.pattern as int] };
    let rest = edits_from(rules, normalize, ignored, text, q + n);
    assert(edits_from(rules, normalize, ignored, text, q) == seq![edit] + rest);
    assert(gap + (seq![edit] + rest) =~= gap.push(edit) + rest);
    q
}

// ---------------------------------------------------------------------------
// Laws
// ---------------------------------------------------------------------------
/// Text whose characters need no normalization is edited alike with and without it: not
/// normalizing is only faster.
pub proof fn law_normalized_text_is_left_alone(
    rules: Map<Seq<char>, Seq<char>>,
    ignored: Set<char>,
    text: Seq<char>,
    at: int,
)
    requires
        forall|i: int|
            0 <= i < text.len() ==> !char_is_uppercase(#[trigger] text[i]) && nfkc_quick(
                seq![text[i]],
            ) is Yes,
    ensures
        rewrite_edits(rules, true, ignored, text, at) == rewrite_edits(
            rules,
            false,
            ignored,
            text,
            at,
        ),
    decreases text.len(),
{
    if text.len() > 0 {
        match longest_key(rules, text, text.len() as int) {
            Some(n) if 0 < n <= text.len() => {
                law_normalized_text_is_left_alone(
                    rules,
                    ignored,
                    text.skip(n),
                    at + encode_utf8(text.take(n)).len(),
                );
            },
            _ => {
                assert(!char_is_uppercase(text[0]));
                assert(char_edit(text[0], ignored, at) =~= Seq::empty());
                law_normalized_text_is_left_alone(
                    rules,
                    ignored,
                    text.drop_first(),
                    at + char_width(text[0]),
                );
            },
        }
    }
}

/// Whether `edits` change separate parts of the bytes from `from` to `to`, from left to
/// right.
pub open spec fn are_in_order(edits: Seq<Edit>, from: int, to: int) -> bool {
    &&& forall|i: int|
        0 <= i < edits.len() ==> from <= (#[trigger] edits[i]).start < edits[i].end <= to
    &&& forall|i: int, j: int|
        0 <= i < j < edits.len() ==> (#[trigger] edits[i]).end <= (#[trigger] edits[j]).start
}

/// Edits stand in the order of the text, do not overlap and stay inside of it.
pub proof fn law_edits_are_in_order(
    rules: Map<Seq<char>, Seq<char>>,
    normalize: bool,
    ignored: Set<char>,
    text: Seq<char>,
    at: int,
)
    ensures
        are_in_order(
            rewrite_edits(rules, normalize, ignored, text, at),
            at,
            at + encode_utf8(text).len(),
        ),
    decreases text.len(),
{
    if text.len() > 0 {
        encode_utf8_first_scalar(text);
        match longest_key(rules, text, text.len() as int) {
            Some(n) if 0 < n <= text.len() => {
                let end = at + encode_utf8(text.take(n)).len();
                law_edits_are_in_order(rules, normalize, ignored, text.skip(n), end);
                assert(text =~= text.take(n) + text.skip(n));
                lemma_encode_concat(text.take(n), text.skip(n));
                encode_utf8_first_scalar(text.take(n));
                let rest = rewrite_edits(rules, normalize, ignored, text.skip(n), end);
                let all = rewrite_edits(rules, normalize, ignored, text, at);
                assert forall|i: int| 0 < i < all.len() implies #[trigger] all[i] == rest[i
                    - 1] by {}
            },
            _ => {
                let end = at + char_width(text[0]);
                law_edits_are_in_order(rules, normalize, ignored, text.drop_first(), end);
                let here = if normalize {
                    char_edit(text[0], ignored, at)
                } else {
                    Seq::empty()
                };
                let rest = rewrite_edits(rules, normalize, ignored, text.drop_first(), end);
                let all = rewrite_edits(rules, normalize, ignored, text, at);
                assert(all == here + rest);
                assert forall|i: int| here.len() <= i < all.len() implies #[trigger] all[i]
                    == rest[i - here.len()] by {}
            },
        }
    }
}

/// Without normalization the ignored characters make no difference.
pub proof fn law_fast_way_ignores_no_character(
    rules: Map<Seq<char>, Seq<char>>,
    ignored: Set<char>,
    others: Set<char>,
    text: Seq<char>,
    at: int,
)
    ensures
        rewrite_edits(rules, false, ignored, text, at) == rewrite_edits(
            rules,
            false,
            others,
            text,
            at,
        ),
    decreases text.len(),
{
    if text.len() > 0 {
        match longest_key(rules, text, text.len() as int) {
            Some(n) if 0 < n <= text.len() => {
                let end = at + encode_utf8(text.take(n)).len();
                law_fast_way_ignores_no_character(rules, ignored, others, text.skip(n), end);
            },
            _ => {
                let end = at + char_width(text[0]);
                law_fast_way_ignores_no_character(rules, ignored, others, text.drop_first(), end);
            },
        }
    }
}

/// Replacements have priority over normalization: whatever is replaced without
/// normalization is replaced alike with it.
pub proof fn law_replacements_have_priority(
    rules: Map<Seq<char>, Seq<char>>,
    ignored: Set<char>,
    text: Seq<char>,
    at: int,
    edit: Edit,
)
    requires
        rewrite_edits(rules, false, ignored, text, at).contains(edit),
    ensures
        rewrite_edits(rules, true, ignored, text, at).contains(edit),
    decreases text.len(),
{
    let fast = rewrite_edits(rules, false, ignored, text, at);
    let slow = rewrite_edits(rules, true, ignored, text, at);
    let k = fast.index_of(edit);
    match longest_key(rules, text, text.len() as int) {
        Some(n) if 0 < n <= text.len() => {
            let end = at + encode_utf8(text.take(n)).len();
            let fast_rest = rewrite_edits(rules, false, ignored, text.skip(n), end);
            let slow_rest = rewrite_edits(rules, true, ignored, text.skip(n), end);
            if k == 0 {
                assert(slow[0] == edit);
            } else {
                assert(fast_rest[k - 1] == edit);
                law_replacements_have_priority(rules, ignored, text.skip(n), end, edit);
                let j = slow_rest.index_of(edit);
                assert(slow[j + 1] == edit);
            }
        },
        _ => {
            let end = at + char_width(text[0]);
            let here = char_edit(text[0], ignored, at);
            let slow_rest = rewrite_edits(rules, true, ignored, text.drop_first(), end);
            assert(fast =~= rewrite_edits(rules, false, ignored, text.drop_first(), end));
            law_replacements_have_priority(rules, ignored, text.drop_first(), end, edit);
            let j = slow_rest.index_of(edit);
            assert(slow[here.len() + j] == edit);
        },
    }
}

/// The bytes from `at` on with the edits made.
pub open spec fn apply_edits(bytes: Seq<u8>, edits: Seq<Edit>, at: int) -> Seq<u8>
    decreases edits.len(),
{
    if edits.len() == 0 {
        bytes.skip(at)
    } else {
        bytes.subrange(at, edits[0].start) + encode_utf8(edits[0].with) + apply_edits(
            bytes,
            edits.drop_first(),
            edits[0].end,
        )
    }
}

/// The text that rewriting makes of `text`.
pub open spec fn rewritten(
    rules: Map<Seq<char>, Seq<char>>,
    normalize: bool,
    ignored: Set<char>,
    text: Seq<char>,
) -> Seq<char>
    decreases text.len(),
{
    if text.len() == 0 {
        Seq::empty()
    } else {
        match longest_key(rules, text, text.len() as int) {
            Some(n) if 0 < n <= text.len() => rules[text.take(n)] + rewritten(
                rules,
                normalize,
                ignored,
                text.skip(n),
            ),
            _ => {
                let normal = normalize_char(text[0], ignored);
                (if normalize && normal.len() > 0 && normal[0] != text[0] {
                    normal
                } else {
                    seq![text[0]]
                }) + rewritten(rules, normalize, ignored, text.drop_first())
            },
        }
    }
}

/// Making the edits of a text turns its bytes into those of the rewritten text.
pub proof fn law_edits_rewrite_the_text(
    rules: Map<Seq<char>, Seq<char>>,
    normalize: bool,
    ignored: Set<char>,
    text: Seq<char>,
)
    ensures
        apply_edits(
            encode_utf8(text),
            rewrite_edits(rules, normalize, ignored, text, 0),
            0,
        ) == encode_utf8(rewritten(rules, normalize, ignored, text)),
{
    assert(text.skip(0) =~= text);
    lemma_offset_ends(text);
    lemma_apply_from(rules, normalize, ignored, text, 0);
}

proof fn lemma_apply_earlier(bytes: Seq<u8>, edits: Seq<Edit>, at: int, mid: int)
    requires
        0 <= at <= mid <= bytes.len(),
        are_in_order(edits, mid, bytes.len() as int),
    ensures
        apply_edits(bytes, edits, at) == bytes.subrange(at, mid) + apply_edits(bytes, edits, mid),
{
    if edits.len() == 0 {
        assert(bytes.skip(at) =~= bytes.subrange(at, mid) + bytes.skip(mid));
    } else {
        let start = edits[0].start;
        assert(bytes.subrange(at, start) =~= bytes.subrange(at, mid) + bytes.subrange(mid, start));
        assert(apply_edits(bytes, edits, at) =~= bytes.subrange(at, mid) + apply_edits(
            bytes,
            edits,
            mid,
        ));
    }
}

proof fn lemma_apply_from(
    rules: Map<Seq<char>, Seq<char>>,
    normalize: bool,
    ignored: Set<char>,
    text: Seq<char>,
    p: int,
)
    requires
        0 <= p <= text.len(),
    ensures
        apply_edits(
            encode_utf8(text),
            edits_from(rules, normalize, ignored, text, p),
            byte_offset(text, p),
        ) == encode_utf8(rewritten(rules, normalize, ignored, text.skip(p))),
    decreases text.len() - p,
{
    let bytes = encode_utf8(text);
    let at = byte_offset(text, p);
    let rest = text.skip(p);
    let edits = edits_from(rules, normalize, ignored, text, p);
    lemma_offset_ends(text);
    lemma_encode_subrange(text, p, text.len() as int);
    assert(text.subrange(p, text.len() as int) =~= rest);
    if rest.len() == 0 {
        assert(bytes.skip(at) =~= encode_utf8(Seq::<char>::empty()));
    } else {
        match longest_key(rules, rest, rest.len() as int) {
            Some(n) if 0 < n <= rest.len() => {
                lemma_apply_from(rules, normalize, ignored, text, p + n);
                lemma_encode_subrange(text, p, p + n);
                assert(text.subrange(p, p + n) =~= rest.take(n));
                assert(rest.skip(n) =~= text.skip(p + n));
                lemma_encode_concat(
                    rules[rest.take(n)],
                    rewritten(rules, normalize, ignored, rest.skip(n)),
                );
                assert(edits.drop_first() =~= edits_from(rules, normalize, ignored, text, p + n));
                assert(bytes.subrange(at, at) =~= Seq::empty());
                assert(apply_edits(bytes, edits, at) =~= encode_utf8(
                    rewritten(rules, normalize, ignored, rest),
                ));
            },
            _ => {
                let c = rest[0];
                let after = edits_from(rules, normalize, ignored, text, p + 1);
                let tail = rewritten(rules, normalize, ignored, text.skip(p + 1));
                lemma_apply_from(rules, normalize, ignored, text, p + 1);
                lemma_offset_step(text, p);
                lemma_encode_subrange(text, p, p + 1);
                assert(text.subrange(p, p + 1) =~= seq![c]);
                assert(rest.drop_first() =~= text.skip(p + 1));
                lemma_encode_subrange(text, p + 1, text.len() as int);
                assert(text.subrange(p + 1, text.len() as int) =~= text.skip(p + 1));
                let normal = normalize_char(c, ignored);
                if normalize && normal.len() > 0 && normal[0] != c {
                    lemma_encode_concat(normal, tail);
                    assert(edits.drop_first() =~= after);
                    assert(bytes.subrange(at, at) =~= Seq::empty());
                    assert(apply_edits(bytes, edits, at) =~= encode_utf8(
                        rewritten(rules, normalize, ignored, rest),
                    ));
                } else {
                    lemma_encode_concat(seq![c], tail);
                    assert(edits =~= after);
                    law_edits_are_in_order(
                        rules,
                        normalize,
                        ignored,
                        text.skip(p + 1),
                        byte_offset(text, p + 1),
                    );
                    lemma_apply_earlier(bytes, after, at, byte_offset(text, p + 1));
                }
            },
        }
    }
}

} // verus!
