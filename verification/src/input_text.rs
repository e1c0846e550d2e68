//! Edits of the input text.
use std::ops::Range;
use vstd::prelude::*;

verus! {

/// An edit: the bytes from `start` to `end` of the text are replaced with other text.
pub struct Edit {
    pub start: int,
    pub end: int,
    pub with: Seq<char>,
}

/// The text that replaces a part of the input.
pub enum ReplaceTgt<'a> {
    Ref(&'a str),
    Chars(Vec<char>),
}

impl<'a> View for ReplaceTgt<'a> {
    type V = Seq<char>;

    open spec fn view(&self) -> Seq<char> {
        match *self {
            ReplaceTgt::Ref(text) => text@,
            ReplaceTgt::Chars(chars) => chars@,
        }
    }
}

/// A replacement of a byte range of the input.
pub struct ReplaceOp<'a> {
    pub what: Range<usize>,
    pub with: ReplaceTgt<'a>,
}

impl<'a> View for ReplaceOp<'a> {
    type V = Edit;

    open spec fn view(&self) -> Edit {
        Edit { start: self.what.start as int, end: self.what.end as int, with: self.with@ }
    }
}

/// Collects the edits of the input text, in the order in which they are made.
pub struct InputEditor<'a> {
    pub replaces: Vec<ReplaceOp<'a>>,
}

impl<'a> InputEditor<'a> {
    /// The edits made so far.
    pub open spec fn edits(self) -> Seq<Edit> {
        self.replaces@.map_values(|op: ReplaceOp<'a>| op@)
    }

    pub fn new() -> (r: InputEditor<'a>)
        ensures
            r.edits() == Seq::<Edit>::empty(),
    {
        let r = InputEditor { replaces: Vec::new() };
        assert(r.edits() =~= Seq::<Edit>::empty());
        r
    }

    /// Replaces a range with borrowed text.
    pub fn replace_ref(&mut self, range: Range<usize>, with: &'a str)
        ensures
            final(self).edits() == old(self).edits().push(
                (Edit { start: range.start as int, end: range.end as int, with: with@ }),
            ),
    {
        self.replaces.push(ReplaceOp { what: range, with: ReplaceTgt::Ref(with) });
        assert(self.edits() =~= old(self).edits().push(
            (Edit { start: range.start as int, end: range.end as int, with: with@ }),
        ));
    }

    /// Replaces a range with characters.
    pub fn replace_chars(&mut self, range: Range<usize>, with: Vec<char>)
        ensures
            final(self).edits() == old(self).edits().push(
                (Edit { start: range.start as int, end: range.end as int, with: with@ }),
            ),
    {
        self.replaces.push(ReplaceOp { what: range, with: ReplaceTgt::Chars(with) });
        assert(self.edits() =~= old(self).edits().push(
            (Edit { start: range.start as int, end: range.end as int, with: with@ }),
        ));
    }
}

/// Each collected replacement is one edit, in the same order: it has the range of the
/// replacement, and its text as it is, be it borrowed or made of characters.
pub proof fn law_replacements_are_the_edits<'a>(editor: InputEditor<'a>, i: int)
    requires
        0 <= i < editor.replaces@.len(),
    ensures
        editor.edits().len() == editor.replaces@.len(),
        editor.edits()[i].start == editor.replaces@[i].what.start,
        editor.edits()[i].end == editor.replaces@[i].what.end,
        editor.replaces@[i].with matches ReplaceTgt::Ref(text) ==> editor.edits()[i].with == text@,
        editor.replaces@[i].with matches ReplaceTgt::Chars(chars) ==> editor.edits()[i].with
            == chars@,
{
}

} // verus!
