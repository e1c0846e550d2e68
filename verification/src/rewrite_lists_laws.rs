//! What a rewrite definition means, told by its lines.
use crate::rewrite_lists::{
    columns, empty_def, law_columns_have_no_white_space, law_columns_of_trimmed_line,
    law_first_column_starts_line, line_error, read_lines, with_line, RewriteDef,
};
use crate::unicode::char_is_whitespace;
use vstd::prelude::*;

verus! {

// ---------------------------------------------------------------------------
// Columns
// ---------------------------------------------------------------------------
/// Text without white space is one column, and no text is none.
pub proof fn law_text_without_white_space_is_a_column(text: Seq<char>)
    requires
        forall|i: int| 0 <= i < text.len() ==> !char_is_whitespace(#[trigger] text[i]),
    ensures
        text.len() > 0 ==> columns(text) == seq![text],
        text.len() == 0 ==> columns(text) == Seq::<Seq<char>>::empty(),
    decreases text.len(),
{
    if text.len() > 0 {
        let before = text.drop_last();
        law_text_without_white_space_is_a_column(before);
        assert(!char_is_whitespace(text.last()));
        if text.len() > 1 {
            assert(!char_is_whitespace(text[text.len() - 2]));
            assert(before.push(text.last()) =~= text);
            assert(columns(text) =~= seq![text]);
        } else {
            assert(seq![text.last()] =~= text);
            assert(columns(text) =~= seq![text]);
        }
    }
}

/// White space parts columns: the columns of a line are those of what is before a white
/// space character, followed by those of what is after it.
pub proof fn law_white_space_parts_columns(before: Seq<char>, space: char, after: Seq<char>)
    requires
        char_is_whitespace(space),
    ensures
        columns(before + seq![space] + after) == columns(before) + columns(after),
    decreases after.len(),
{
    let head = before + seq![space];
    let line = head + after;
    if after.len() == 0 {
        assert(line =~= before.push(space));
        law_columns_of_trimmed_line(before, space);
        assert(columns(before) + columns(after) =~= columns(before));
    } else {
        let most = after.drop_last();
        law_white_space_parts_columns(before, space, most);
        law_columns_have_no_white_space(most);
        assert(line.drop_last() =~= head + most);
        assert(line.last() == after.last());
        if after.len() == 1 {
            assert(line[line.len() - 2] == space);
        } else {
            assert(line[line.len() - 2] == after[after.len() - 2]);
            assert(most.last() == after[after.len() - 2]);
        }
        assert(columns(line) =~= columns(before) + columns(after));
    }
}

/// The columns of a line are those of what follows the white space at its start.
proof fn lemma_skip_white_space(line: Seq<char>, n: int)
    requires
        0 <= n <= line.len(),
        forall|i: int| 0 <= i < n ==> char_is_whitespace(#[trigger] line[i]),
    ensures
        columns(line) == columns(line.skip(n)),
    decreases n,
{
    if n > 0 {
        let rest = line.skip(1);
        assert forall|i: int| 0 <= i < n - 1 implies char_is_whitespace(#[trigger] rest[i]) by {
            assert(rest[i] == line[i + 1]);
        }
        lemma_skip_white_space(rest, n - 1);
        law_columns_of_trimmed_line(rest, line[0]);
        assert(seq![line[0]] + rest =~= line);
        assert(rest.skip(n - 1) =~= line.skip(n));
    } else {
        assert(line.skip(0) =~= line);
    }
}

// ---------------------------------------------------------------------------
// Lines
// ---------------------------------------------------------------------------
/// A line whose first character that is no white space is `#` is a comment, whatever
/// follows: it is not wrong, and the definition with it is the one without it.
pub proof fn law_comment_says_nothing(def: RewriteDef, line: Seq<char>, n: int)
    requires
        0 <= n < line.len(),
        forall|i: int| 0 <= i < n ==> char_is_whitespace(#[trigger] line[i]),
        line[n] == '#',
    ensures
        line_error(def, columns(line)) is None,
        with_line(def, columns(line)) == def,
{
    lemma_skip_white_space(line, n);
    law_first_column_starts_line(line.skip(n));
}

/// A line of white space says nothing either.
pub proof fn law_blank_line_says_nothing(def: RewriteDef, line: Seq<char>)
    requires
        forall|i: int| 0 <= i < line.len() ==> char_is_whitespace(#[trigger] line[i]),
    ensures
        line_error(def, columns(line)) is None,
        with_line(def, columns(line)) == def,
{
    lemma_skip_white_space(line, line.len() as int);
    assert(line.skip(line.len() as int) =~= Seq::empty());
}

/// Columns of which the first one starts with `#` say nothing, whatever they hold, and no
/// more does a line without columns.
pub proof fn law_commented_columns_say_nothing(def: RewriteDef, cols: Seq<Seq<char>>)
    requires
        cols.len() == 0 || (cols[0].len() > 0 && cols[0][0] == '#'),
    ensures
        line_error(def, cols) is None,
        with_line(def, cols) == def,
{
}

/// Putting a comment or a blank line among other lines changes nothing in what they say;
/// only the index of a wrong line after it is one higher.
pub proof fn law_comments_can_be_put_anywhere(
    before: Seq<Seq<char>>,
    line: Seq<char>,
    n: int,
    after: Seq<Seq<char>>,
)
    requires
        0 <= n <= line.len(),
        forall|i: int| 0 <= i < n ==> char_is_whitespace(#[trigger] line[i]),
        n < line.len() ==> line[n] == '#',
    ensures
        ({
            let without = read_lines(before + after, 0, empty_def());
            let with = read_lines(before + seq![line] + after, 0, empty_def());
            match without {
                Ok(def) => with == Ok::<RewriteDef, (int, Seq<char>)>(def),
                Err((i, message)) => with == Err::<RewriteDef, (int, Seq<char>)>(
                    (
                        if i < before.len() {
                            i
                        } else {
                            i + 1
                        },
                        message,
                    ),
                ),
            }
        }),
{
    lemma_comment_among(before, line, n, after, 0, empty_def());
}

proof fn lemma_comment_among(
    before: Seq<Seq<char>>,
    line: Seq<char>,
    n: int,
    after: Seq<Seq<char>>,
    i: int,
    def: RewriteDef,
)
    requires
        0 <= i <= before.len(),
        0 <= n <= line.len(),
        forall|k: int| 0 <= k < n ==> char_is_whitespace(#[trigger] line[k]),
        n < line.len() ==> line[n] == '#',
    ensures
        ({
            let without = read_lines(before + after, i, def);
            let with = read_lines(before + seq![line] + after, i, def);
            match without {
                Ok(all) => with == Ok::<RewriteDef, (int, Seq<char>)>(all),
                Err((k, message)) => with == Err::<RewriteDef, (int, Seq<char>)>(
                    (
                        if k < before.len() {
                            k
                        } else {
                            k + 1
                        },
                        message,
                    ),
                ),
            }
        }),
    decreases before.len() - i,
{
    let fewer = before + after;
    let more = before + seq![line] + after;
    if i < before.len() {
        let cols = columns(before[i]);
        assert(fewer[i] == before[i]);
        assert(more[i] == before[i]);
        if line_error(def, cols) is None {
            lemma_comment_among(before, line, n, after, i + 1, with_line(def, cols));
        }
    } else {
        assert(more[i] == line);
        if n < line.len() {
            law_comment_says_nothing(def, line, n);
        } else {
            law_blank_line_says_nothing(def, line);
        }
        lemma_lines_moved(fewer, more, i, def);
    }
}

/// Lines that stand one place later say the same.
proof fn lemma_lines_moved(fewer: Seq<Seq<char>>, more: Seq<Seq<char>>, i: int, def: RewriteDef)
    requires
        0 <= i,
        more.len() == fewer.len() + 1,
        forall|k: int| i <= k < fewer.len() ==> #[trigger] fewer[k] == more[k + 1],
    ensures
        match read_lines(fewer, i, def) {
            Ok(all) => read_lines(more, i + 1, def) == Ok::<RewriteDef, (int, Seq<char>)>(all),
            Err((k, message)) => k >= i && read_lines(more, i + 1, def) == Err::<
                RewriteDef,
                (int, Seq<char>),
            >((k + 1, message)),
        },
    decreases fewer.len() - i,
{
    if i < fewer.len() {
        let cols = columns(fewer[i]);
        assert(more[i + 1] == fewer[i]);
        if line_error(def, cols) is None {
            lemma_lines_moved(fewer, more, i + 1, with_line(def, cols));
        }
    }
}

/// A line with one character, which is not `#`, is not wrong; the character is added to
/// those that are not brought into NFKC, and nothing else changes.
pub proof fn law_character_is_added(def: RewriteDef, c: char)
    requires
        c != '#',
    ensures
        line_error(def, seq![seq![c]]) is None,
        with_line(def, seq![seq![c]]).ignored == def.ignored.insert(c),
        with_line(def, seq![seq![c]]).rules == def.rules,
        with_line(def, seq![seq![c]]).keys == def.keys,
        with_line(def, seq![seq![c]]).key_lengths == def.key_lengths,
{
    assert(seq![seq![c]][0][0] == c);
}

/// A line with a text that is not yet a key, and another text, is not wrong; the rules get
/// the first text as a key, with the second one as its replacement, whatever they are, and
/// the other rules stay. The length for the first character of the key becomes that of the
/// key unless a longer one is known, and the other lengths stay.
pub proof fn law_rule_is_added(def: RewriteDef, cols: Seq<Seq<char>>)
    requires
        cols.len() == 2,
        cols[0].len() > 0,
        cols[0][0] != '#',
        !def.rules.contains_key(cols[0]),
    ensures
        line_error(def, cols) is None,
        ({
            let next = with_line(def, cols);
            let first = cols[0][0];
            &&& next.rules == def.rules.insert(cols[0], cols[1])
            &&& next.keys == def.keys.push(cols[0])
            &&& next.ignored == def.ignored
            &&& next.key_lengths.dom() == def.key_lengths.dom().insert(first)
            &&& forall|c: char|
                c != first && #[trigger] def.key_lengths.contains_key(c) ==> next.key_lengths[c]
                    == def.key_lengths[c]
            &&& cols[0].len() <= next.key_lengths[first]
            &&& def.key_lengths.contains_key(first) ==> def.key_lengths[first]
                <= next.key_lengths[first]
            &&& next.key_lengths[first] == cols[0].len() || (def.key_lengths.contains_key(first)
                && next.key_lengths[first] == def.key_lengths[first])
        }),
{
    let next = with_line(def, cols);
    assert(next.key_lengths.dom() =~= def.key_lengths.dom().insert(cols[0][0]));
}

/// A line that is no comment is wrong if it is one text that is not a single character, if
/// its first column is already a key, or if it has more than two columns.
pub proof fn law_wrong_line_is_refused(def: RewriteDef, cols: Seq<Seq<char>>)
    requires
        cols.len() > 0,
        cols[0].len() > 0,
        cols[0][0] != '#',
    ensures
        cols.len() == 1 && cols[0].len() != 1 ==> line_error(def, cols) == Some(
            cols[0] + " is not character"@,
        ),
        cols.len() == 2 && def.rules.contains_key(cols[0]) ==> line_error(def, cols) == Some(
            cols[0] + " is already defined"@,
        ),
        cols.len() > 2 ==> line_error(def, cols) == Some(Seq::<char>::empty()),
{
    reveal_strlit("");
    assert(""@ =~= Seq::<char>::empty());
}

// ---------------------------------------------------------------------------
// Definitions
// ---------------------------------------------------------------------------
/// Whether a line holds a rule: it has exactly two columns and is no comment.
pub open spec fn is_rule_line(line: Seq<char>) -> bool {
    columns(line).len() == 2 && columns(line)[0][0] != '#'
}

/// Whether a line holds a character that is not brought into NFKC: it has exactly one column,
/// which is that character, and is no comment.
pub open spec fn is_char_line(line: Seq<char>, c: char) -> bool {
    columns(line) == seq![seq![c]] && c != '#'
}

/// Whether a line can stand in no definition after the lines before it: it is no comment and
/// has one column of more than one character, or more than two columns, or the key of an
/// earlier rule.
pub open spec fn is_wrong_line(lines: Seq<Seq<char>>, i: int) -> bool {
    let cols = columns(lines[i]);
    &&& cols.len() > 0
    &&& cols[0][0] != '#'
    &&& {
        ||| cols.len() == 1 && cols[0].len() > 1
        ||| cols.len() > 2
        ||| cols.len() == 2 && exists|k: int|
            0 <= k < i && is_rule_line(#[trigger] lines[k]) && columns(lines[k])[0] == cols[0]
    }
}

/// Whether `def` is what the first `n` lines say, line by line: each rule is in one of
/// these lines, and each of these lines with a rule has it in `def`; likewise for the
/// characters, and for the greatest length of the keys that start with a character.
pub open spec fn is_said_by(def: RewriteDef, lines: Seq<Seq<char>>, n: int) -> bool {
    &&& forall|i: int|
        0 <= i < n && is_rule_line(#[trigger] lines[i]) ==> {
            &&& def.rules.contains_key(columns(lines[i])[0])
            &&& def.rules[columns(lines[i])[0]] == columns(lines[i])[1]
            &&& def.key_lengths.contains_key(columns(lines[i])[0][0])
            &&& columns(lines[i])[0].len() <= def.key_lengths[columns(lines[i])[0][0]]
        }
    &&& forall|key: Seq<char>| #[trigger]
        def.rules.contains_key(key) ==> exists|i: int|
            0 <= i < n && is_rule_line(#[trigger] lines[i]) && columns(lines[i])[0] == key
    &&& forall|key: Seq<char>| #[trigger] def.keys.contains(key) <==> def.rules.contains_key(key)
    &&& forall|c: char| #[trigger]
        def.ignored.contains(c) <==> exists|i: int|
            0 <= i < n && is_char_line(#[trigger] lines[i], c)
    &&& forall|c: char| #[trigger]
        def.key_lengths.contains_key(c) ==> exists|i: int|
            0 <= i < n && is_rule_line(#[trigger] lines[i]) && columns(lines[i])[0][0] == c
                && columns(lines[i])[0].len() == def.key_lengths[c]
}

/// A definition that can be read is what its lines say: for every line with exactly two
/// columns that is no comment the rules have its first column as a key, with its second
/// column as the replacement, and every key comes from such a line; the characters that are
/// not brought into NFKC are those of the lines with one column; and the known lengths are
/// the greatest ones of the keys that start with a character.
pub proof fn law_definition_is_what_its_lines_say(lines: Seq<Seq<char>>, def: RewriteDef)
    requires
        read_lines(lines, 0, empty_def()) == Ok::<RewriteDef, (int, Seq<char>)>(def),
    ensures
        is_said_by(def, lines, lines.len() as int),
{
    lemma_read_from(lines, 0, empty_def());
}

/// A definition can be read exactly if none of its lines is wrong. Otherwise the first wrong
/// line is reported, with what is wrong with it.
pub proof fn law_definition_is_read_unless_a_line_is_wrong(lines: Seq<Seq<char>>)
    ensures
        match read_lines(lines, 0, empty_def()) {
            Ok(_) => forall|i: int| 0 <= i < lines.len() ==> !#[trigger] is_wrong_line(lines, i),
            Err((i, message)) => {
                let cols = columns(lines[i]);
                &&& 0 <= i < lines.len()
                &&& is_wrong_line(lines, i)
                &&& forall|k: int| 0 <= k < i ==> !#[trigger] is_wrong_line(lines, k)
                &&& cols.len() == 1 ==> message == cols[0] + " is not character"@
                &&& cols.len() == 2 ==> message == cols[0] + " is already defined"@
                &&& cols.len() > 2 ==> message.len() == 0
            },
        },
{
    lemma_read_from(lines, 0, empty_def());
}

proof fn lemma_line_said(lines: Seq<Seq<char>>, i: int, def: RewriteDef)
    requires
        0 <= i < lines.len(),
        is_said_by(def, lines, i),
    ensures
        line_error(def, columns(lines[i])) is Some <==> is_wrong_line(lines, i),
        line_error(def, columns(lines[i])) is None ==> is_said_by(
            with_line(def, columns(lines[i])),
            lines,
            i + 1,
        ),
{
    let cols = columns(lines[i]);
    let next = with_line(def, cols);
    law_columns_have_no_white_space(lines[i]);
    if line_error(def, cols) is None {
        if cols.len() == 1 && cols[0][0] != '#' {
            let here = cols[0][0];
            assert(cols[0] =~= seq![here]);
            assert(cols =~= seq![seq![here]]);
            assert(is_char_line(lines[i], here));
        }
        assert forall|c: char| #[trigger] next.ignored.contains(c) <==> exists|k: int|
            0 <= k < i + 1 && is_char_line(#[trigger] lines[k], c) by {
            if is_char_line(lines[i], c) {
                assert(cols[0] == seq![c]);
                assert(cols[0][0] == c);
            }
        }
        if is_rule_line(lines[i]) {
            let key = cols[0];
            assert forall|k: Seq<char>| #[trigger]
                next.keys.contains(k) <==> next.rules.contains_key(k) by {
                if def.keys.contains(k) {
                    assert(next.keys[def.keys.index_of(k)] == k);
                }
                if next.keys.contains(k) && k != key {
                    assert(def.keys[next.keys.index_of(k)] == k);
                }
                assert(next.keys[def.keys.len() as int] == key);
            }
            assert forall|c: char| #[trigger] next.key_lengths.contains_key(c) implies exists|
                k: int,
            |
                0 <= k < i + 1 && is_rule_line(#[trigger] lines[k]) && columns(lines[k])[0][0] == c
                    && columns(lines[k])[0].len() == next.key_lengths[c] by {
                if c == key[0] && next.key_lengths[c] == key.len() {
                    assert(is_rule_line(lines[i]));
                } else {
                    assert(def.key_lengths.contains_key(c));
                }
            }
            assert forall|k: Seq<char>| #[trigger] next.rules.contains_key(k) implies exists|
                j: int,
            |
                0 <= j < i + 1 && is_rule_line(#[trigger] lines[j]) && columns(lines[j])[0]
                    == k by {
                if k != key {
                    assert(def.rules.contains_key(k));
                }
            }
        }
    }
}

proof fn lemma_read_from(lines: Seq<Seq<char>>, i: int, def: RewriteDef)
    requires
        0 <= i <= lines.len(),
        is_said_by(def, lines, i),
    ensures
        match read_lines(lines, i, def) {
            Ok(all) => {
                &&& is_said_by(all, lines, lines.len() as int)
                &&& forall|k: int|
                    i <= k < lines.len() ==> !#[trigger] is_wrong_line(lines, k)
            },
            Err((k, message)) => {
                let cols = columns(lines[k]);
                &&& i <= k < lines.len()
                &&& is_wrong_line(lines, k)
                &&& forall|j: int| i <= j < k ==> !#[trigger] is_wrong_line(lines, j)
                &&& cols.len() == 1 ==> message == cols[0] + " is not character"@
                &&& cols.len() == 2 ==> message == cols[0] + " is already defined"@
                &&& cols.len() > 2 ==> message.len() == 0
            },
        },
    decreases lines.len() - i,
{
    if i < lines.len() {
        let cols = columns(lines[i]);
        lemma_line_said(lines, i, def);
        law_columns_have_no_white_space(lines[i]);
        if line_error(def, cols) is None {
            lemma_read_from(lines, i + 1, with_line(def, cols));
        } else {
            law_wrong_line_is_refused(def, cols);
        }
    }
}

} // verus!
