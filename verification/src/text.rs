//! Facts about the UTF-8 encoding of text.
use vstd::prelude::*;
use vstd::utf8::*;

verus! {

/// The encoding of a concatenation is the concatenation of the encodings.
pub proof fn lemma_encode_concat(a: Seq<char>, b: Seq<char>)
    ensures
        encode_utf8(a + b) == encode_utf8(a) + encode_utf8(b),
    decreases a.len(),
{
    if a.len() == 0 {
        assert(a + b =~= b);
    } else {
        lemma_encode_concat(a.drop_first(), b);
        assert((a + b).drop_first() =~= a.drop_first() + b);
        assert(encode_scalar(a[0] as u32) + (encode_utf8(a.drop_first()) + encode_utf8(b))
            =~= (encode_scalar(a[0] as u32) + encode_utf8(a.drop_first())) + encode_utf8(b));
    }
}

/// The encoding of a single character.
pub proof fn lemma_encode_single(c: char)
    ensures
        encode_utf8(seq![c]) == encode_scalar(c as u32),
{
    assert(seq![c].drop_first() =~= Seq::<char>::empty());
    assert(encode_utf8(Seq::<char>::empty()) =~= Seq::<u8>::empty());
    assert(encode_utf8(seq![c]) =~= encode_scalar(c as u32));
}

/// The encoding of text with one more character.
pub proof fn lemma_encode_push(a: Seq<char>, c: char)
    ensures
        encode_utf8(a.push(c)) == encode_utf8(a) + encode_scalar(c as u32),
{
    assert(a.push(c) =~= a + seq![c]);
    lemma_encode_concat(a, seq![c]);
    lemma_encode_single(c);
}

// ---------------------------------------------------------------------------
// Positions: the index of a character and the offset of its first byte
// ---------------------------------------------------------------------------
/// The number of bytes before the character with index `i`.
pub open spec fn byte_offset(text: Seq<char>, i: int) -> int {
    encode_utf8(text.take(i)).len() as int
}

/// `part` stands in `whole` at position `at`.
pub open spec fn occurs_at<T>(part: Seq<T>, whole: Seq<T>, at: int) -> bool {
    &&& 0 <= at
    &&& at + part.len() <= whole.len()
    &&& whole.subrange(at, at + part.len()) == part
}

pub proof fn lemma_offset_step(text: Seq<char>, i: int)
    requires
        0 <= i < text.len(),
    ensures
        byte_offset(text, i + 1) == byte_offset(text, i) + encode_scalar(text[i] as u32).len(),
{
    assert(text.take(i + 1) =~= text.take(i).push(text[i]));
    lemma_encode_push(text.take(i), text[i]);
}

pub proof fn lemma_offset_ends(text: Seq<char>)
    ensures
        byte_offset(text, 0) == 0,
        byte_offset(text, text.len() as int) == encode_utf8(text).len(),
{
    assert(text.take(0) =~= Seq::empty());
    assert(text.take(text.len() as int) =~= text);
}

/// Offsets grow with the index.
pub proof fn lemma_offset_monotonic(text: Seq<char>, i: int, j: int)
    requires
        0 <= i <= j <= text.len(),
    ensures
        byte_offset(text, i) <= byte_offset(text, j),
        i < j ==> byte_offset(text, i) < byte_offset(text, j),
        byte_offset(text, j) <= encode_utf8(text).len(),
    decreases j - i,
{
    assert(text =~= text.take(j) + text.skip(j));
    lemma_encode_concat(text.take(j), text.skip(j));
    if i < j {
        lemma_offset_monotonic(text, i, j - 1);
        lemma_offset_step(text, j - 1);
    }
}

/// The bytes between two characters are the encoding of what stands between them.
pub proof fn lemma_encode_subrange(text: Seq<char>, i: int, j: int)
    requires
        0 <= i <= j <= text.len(),
    ensures
        0 <= byte_offset(text, i) <= byte_offset(text, j) <= encode_utf8(text).len(),
        byte_offset(text, j) == byte_offset(text, i) + encode_utf8(text.subrange(i, j)).len(),
        encode_utf8(text).subrange(byte_offset(text, i), byte_offset(text, j)) == encode_utf8(
            text.subrange(i, j),
        ),
{
    let a = text.take(i);
    let b = text.subrange(i, j);
    let c = text.skip(j);
    assert(text.take(j) =~= a + b);
    assert(text =~= (a + b) + c);
    lemma_encode_concat(a, b);
    lemma_encode_concat(a + b, c);
    assert(encode_utf8(text).subrange(byte_offset(text, i), byte_offset(text, j))
        =~= encode_utf8(b));
}

/// A character starts at every byte that is no continuation byte.
pub proof fn lemma_char_starts_at(text: Seq<char>, at: int) -> (i: int)
    requires
        0 <= at < encode_utf8(text).len(),
        !is_continuation_byte(encode_utf8(text)[at]),
    ensures
        0 <= i < text.len(),
        byte_offset(text, i) == at,
    decreases text.len(),
{
    let bytes = encode_utf8(text);
    lemma_offset_ends(text);
    if at == 0 {
        0
    } else {
        encode_utf8_first_scalar(text);
        let rest = text.drop_first();
        let width = encode_scalar(text[0] as u32).len() as int;
        assert(at >= width);
        let k = lemma_char_starts_at(rest, at - width);
        assert(text.take(k + 1) =~= seq![text[0]] + rest.take(k));
        lemma_encode_concat(seq![text[0]], rest.take(k));
        lemma_encode_single(text[0]);
        k + 1
    }
}

/// Text whose bytes stand at the start of the bytes of other text stands at its start.
pub proof fn lemma_encode_prefix(part: Seq<char>, whole: Seq<char>)
    requires
        occurs_at(encode_utf8(part), encode_utf8(whole), 0),
    ensures
        occurs_at(part, whole, 0),
    decreases part.len(),
{
    let pb = encode_utf8(part);
    let wb = encode_utf8(whole);
    if part.len() > 0 {
        encode_utf8_first_scalar(part);
        if whole.len() == 0 {
            assert(wb.len() == 0);
            assert(false);
        }
        encode_utf8_first_scalar(whole);
        assert forall|k: int| 0 <= k < pb.len() implies pb[k] == wb[k] by {
            assert(wb.subrange(0, pb.len() as int)[k] == wb[k]);
        }
        assert(part[0] as u32 == whole[0] as u32);
        char_u32_cast(part[0], part[0] as u32);
        char_u32_cast(whole[0], part[0] as u32);
        let width = encode_scalar(part[0] as u32).len() as int;
        let pr = part.drop_first();
        let wr = whole.drop_first();
        assert(encode_utf8(pr) =~= pb.skip(width));
        assert(encode_utf8(wr) =~= wb.skip(width));
        assert(encode_utf8(wr).subrange(0, encode_utf8(pr).len() as int) =~= encode_utf8(pr));
        lemma_encode_prefix(pr, wr);
        assert forall|k: int| 0 <= k < part.len() implies part[k] == whole[k] by {
            if k > 0 {
                assert(wr.subrange(0, pr.len() as int)[k - 1] == pr[k - 1]);
            }
        }
    }
    assert(whole.subrange(0, part.len() as int) =~= part);
}

/// Text that is not empty occurs in the bytes of other text only at whole characters.
pub proof fn lemma_occurrence_is_aligned(part: Seq<char>, text: Seq<char>, at: int) -> (i: int)
    requires
        part.len() > 0,
        occurs_at(encode_utf8(part), encode_utf8(text), at),
    ensures
        occurs_at(part, text, i),
        byte_offset(text, i) == at,
        byte_offset(text, i + part.len()) == at + encode_utf8(part).len(),
{
    let pb = encode_utf8(part);
    let tb = encode_utf8(text);
    encode_utf8_first_scalar(part);
    assert(tb.subrange(at, at + pb.len())[0] == tb[at]);
    let i = lemma_char_starts_at(text, at);
    let rest = text.skip(i);
    lemma_encode_subrange(text, i, text.len() as int);
    lemma_offset_ends(text);
    assert(text.subrange(i, text.len() as int) =~= rest);
    assert(encode_utf8(rest).subrange(0, pb.len() as int) =~= tb.subrange(at, at + pb.len()));
    lemma_encode_prefix(part, rest);
    assert(text.subrange(i, i + part.len()) =~= rest.subrange(0, part.len() as int));
    lemma_encode_subrange(text, i, i + part.len());
    i
}

/// Text that occurs at a character occurs in the bytes at the offset of that character.
pub proof fn lemma_occurrence_in_bytes(part: Seq<char>, text: Seq<char>, i: int)
    requires
        occurs_at(part, text, i),
    ensures
        occurs_at(encode_utf8(part), encode_utf8(text), byte_offset(text, i)),
        byte_offset(text, i + part.len()) == byte_offset(text, i) + encode_utf8(part).len(),
{
    lemma_encode_subrange(text, i, i + part.len());
}

/// Characters start at character boundaries.
pub proof fn lemma_offset_is_boundary(text: Seq<char>, i: int)
    requires
        0 <= i <= text.len(),
    ensures
        is_char_boundary(encode_utf8(text), byte_offset(text, i)),
{
    let bytes = encode_utf8(text);
    encode_utf8_valid_utf8(text);
    lemma_encode_subrange(text, i, text.len() as int);
    lemma_offset_ends(text);
    if i == text.len() {
        is_char_boundary_start_end_of_seq(bytes);
    } else {
        let rest = text.subrange(i, text.len() as int);
        encode_utf8_first_scalar(rest);
        assert(encode_utf8(rest)[0] == bytes[byte_offset(text, i)]);
        is_char_boundary_iff_not_is_continuation_byte(bytes, byte_offset(text, i));
    }
}

/// The index of the character that starts at a boundary.
pub proof fn lemma_boundary_is_offset(text: Seq<char>, at: int) -> (i: int)
    requires
        is_char_boundary(encode_utf8(text), at),
    ensures
        0 <= i <= text.len(),
        byte_offset(text, i) == at,
    decreases text.len(),
{
    let bytes = encode_utf8(text);
    encode_utf8_valid_utf8(text);
    lemma_offset_ends(text);
    if at == 0 {
        0
    } else {
        assert(text.len() > 0);
        encode_utf8_first_scalar(text);
        let rest = text.drop_first();
        let width = encode_scalar(text[0] as u32).len() as int;
        assert(pop_first_scalar(bytes) =~= encode_utf8(rest));
        let k = lemma_boundary_is_offset(rest, at - width);
        assert(text.take(k + 1) =~= seq![text[0]] + rest.take(k));
        lemma_encode_concat(seq![text[0]], rest.take(k));
        lemma_encode_single(text[0]);
        k + 1
    }
}

/// A boundary before another one is a boundary of the text up to there.
pub proof fn lemma_boundary_in_prefix(text: Seq<char>, start: int, end: int)
    requires
        start <= end,
        is_char_boundary(encode_utf8(text), start),
        is_char_boundary(encode_utf8(text), end),
    ensures
        0 <= start <= end <= encode_utf8(text).len(),
        forall|head: Seq<char>|
            encode_utf8(head) == encode_utf8(text).subrange(0, end) ==> is_char_boundary(
                #[trigger] encode_utf8(head),
                start,
            ),
{
    let i = lemma_boundary_is_offset(text, start);
    let j = lemma_boundary_is_offset(text, end);
    if j < i {
        lemma_offset_monotonic(text, j, i);
    }
    lemma_offset_monotonic(text, i, j);
    lemma_offset_ends(text);
    let prefix = text.take(j);
    assert(prefix.take(i) =~= text.take(i));
    lemma_offset_is_boundary(prefix, i);
    lemma_encode_subrange(text, 0, j);
    assert(text.subrange(0, j) =~= prefix);
}

/// The number of bytes of a character.
pub fn len_utf8(ch: char) -> (r: usize)
    ensures
        r == encode_scalar(ch as u32).len(),
        1 <= r <= 4,
{
    proof {
        char_is_scalar(ch);
    }
    let cp: u32 = ch as u32;
    if cp < 0x80 {
        1
    } else if cp < 0x800 {
        2
    } else if cp < 0x10000 {
        3
    } else {
        4
    }
}

} // verus!
