//! Table of the characters that need no normalization.
use crate::unicode::{
    char_is_uppercase, char_lowercase, combining_class, is_inert, is_nfkc_quick, nfkc_quick,
    to_lowercase, IsNormalized,
};
use vstd::prelude::*;
use vstd::utf8::is_scalar;

verus! {

/// The number of code points in the Basic Multilingual Plane.
const BMP_SIZE: u32 = 0x10000;

/// A character of the Basic Multilingual Plane is trivially normalized if its NFKC quick
/// check says `Yes`, its canonical combining class is 0 and it has no lowercase mapping:
/// it is not uppercase, and lowercasing gives back the character itself.
pub open spec fn is_trivial_char(c: char) -> bool {
    &&& (c as u32) < 0x10000
    &&& combining_class(c) == 0
    &&& !char_is_uppercase(c)
    &&& char_lowercase(c) == seq![c]
    &&& nfkc_quick(seq![c]) is Yes
}

spec fn is_trivial_code(cp: u32) -> bool {
    is_scalar(cp) && is_trivial_char(cp as char)
}

proof fn lemma_ascii(c: char)
    requires
        c as u32 <= 0x7f,
    ensures
        c <= '\x7f',
{
}

spec fn bit(bits: Seq<u64>, cp: u32) -> bool {
    (bits[(cp / 64) as int] >> (cp % 64)) & 1 == 1
}

/// Bitmap over the Basic Multilingual Plane of the trivially normalized characters.
///
/// Almost all characters of Japanese text belong to this set, so that most text can be
/// recognized as normalized without consulting the Unicode tables.
pub struct TrivialChars {
    bits: Vec<u64>,
}

impl TrivialChars {
    #[verifier::type_invariant]
    spec fn inv(self) -> bool {
        &&& self.bits@.len() == BMP_SIZE / 64
        &&& forall|p: u32|
            p < BMP_SIZE ==> #[trigger] bit(self.bits@, p) == is_trivial_code(p)
        &&& forall|c: char| #[trigger] is_trivial_char(c) ==> is_inert(c)
        &&& nfkc_quick(Seq::empty()) is Yes
    }

    /// Whether the table holds a character.
    pub closed spec fn contains(self, c: char) -> bool {
        (c as u32) < BMP_SIZE && bit(self.bits@, c as u32)
    }

    /// Whether a character with these properties is trivially normalized. `lowered` is its
    /// lowercase mapping.
    pub fn is_trivial_with(
        ch: char,
        class: u8,
        uppercase: bool,
        lowered: &[char],
        quick: IsNormalized,
    ) -> (r: bool)
        ensures
            r == (class == 0 && !uppercase && lowered@ == seq![ch] && quick is Yes),
    {
        let unchanged: bool = lowered.len() == 1 && lowered[0] == ch;
        assert(unchanged == (lowered@ =~= seq![ch]));
        class == 0 && !uppercase && unchanged && quick == IsNormalized::Yes
    }

    /// Computes the table.
    pub fn compute() -> (r: TrivialChars)
        ensures
            forall|c: char| #[trigger] r.contains(c) == is_trivial_char(c),
    {
        let mut bits: Vec<u64> = vec![0u64; 1024];
        let mut cp: u32 = 0;
        proof {
            assert forall|p: u32| p < BMP_SIZE implies !#[trigger] bit(bits@, p) by {
                let k = p % 64;
                assert((0u64 >> k) & 1 == 0) by (bit_vector);
            }
        }
        while cp < BMP_SIZE
            invariant
                cp <= BMP_SIZE,
                bits@.len() == 1024,
                forall|p: u32| p < cp ==> #[trigger] bit(bits@, p) == is_trivial_code(p),
                forall|p: u32| cp <= p < BMP_SIZE ==> !#[trigger] bit(bits@, p),
                forall|p: u32| p < cp && #[trigger] is_trivial_code(p) ==> is_inert(p as char),
                cp > 0 ==> nfkc_quick(Seq::empty()) is Yes,
            decreases BMP_SIZE - cp,
        {
            let ghost before = bits@;
            let ghost mut trivial_here = false;
            match char::from_u32(cp) {
                Some(ch) => {
                    let class: u8 = unicode_normalization::char::canonical_combining_class(ch);
                    let uppercase: bool = ch.is_uppercase();
                    let lowered = to_lowercase(ch);
                    let single = [ch];
                    let quick = is_nfkc_quick(single.as_slice());
                    proof {
                        vstd::utf8::char_u32_cast(ch, cp);
                        assert(single@ =~= seq![ch]);
                        if cp == 0 {
                            lemma_ascii(ch);
                            assert(nfkc_quick(Seq::empty().push(ch)) == nfkc_quick(Seq::empty()));
                            assert(Seq::<char>::empty().push(ch) =~= seq![ch]);
                        }
                    }
                    if TrivialChars::is_trivial_with(
                        ch,
                        class,
                        uppercase,
                        lowered.as_slice(),
                        quick,
                    ) {
                        proof {
                            trivial_here = true;
                        }
                        let i: usize = (cp / 64) as usize;
                        let word: u64 = bits[i];
                        bits.set(i, word | (1u64 << (cp % 64)));
                    }
                },
                None => {},
            }
            proof {
                let i = (cp / 64) as int;
                let k = cp % 64;
                let word = before[i];
                assert forall|p: u32| p < BMP_SIZE implies #[trigger] bit(bits@, p) == (bit(
                    before,
                    p,
                ) || (p == cp && trivial_here)) by {
                    let j = p % 64;
                    assert(((word | (1u64 << k)) >> j) & 1 == 1 <==> (j == k || (word >> j) & 1
                        == 1)) by (bit_vector)
                        requires
                            j < 64,
                            k < 64,
                    ;
                }
            }
            cp = cp + 1;
        }
        proof {
            assert forall|c: char| #[trigger] is_trivial_char(c) implies is_inert(c) by {
                vstd::utf8::char_is_scalar(c);
                vstd::utf8::char_u32_cast(c, c as u32);
                assert(is_trivial_code(c as u32));
            }
        }
        let r = TrivialChars { bits };
        proof {
            assert forall|c: char| #[trigger] r.contains(c) == is_trivial_char(c) by {
                vstd::utf8::char_is_scalar(c);
                vstd::utf8::char_u32_cast(c, c as u32);
                if (c as u32) < BMP_SIZE {
                    assert(bit(r.bits@, c as u32) == is_trivial_code(c as u32));
                }
            }
        }
        r
    }

    /// Returns true if it is known that the character needs no normalization.
    ///
    /// False means that the slow check is needed, not that the character is not normalized.
    pub fn is_trivial(&self, ch: char) -> (r: bool)
        ensures
            r == self.contains(ch),
            r == is_trivial_char(ch),
    {
        proof {
            use_type_invariant(self);
        }
        let cp: u32 = ch as u32;
        proof {
            vstd::utf8::char_is_scalar(ch);
            vstd::utf8::char_u32_cast(ch, cp);
            assert(cp < BMP_SIZE ==> bit(self.bits@, cp) == is_trivial_code(cp));
        }
        if cp >= BMP_SIZE {
            return false;
        }
        (self.bits[(cp / 64) as usize] >> (cp % 64)) & 1 == 1
    }

    /// Whether text consists of such characters only. If it does, it is normalized: the
    /// NFKC quick check says `Yes` of it, and it has nothing to lowercase.
    pub fn all_trivial(&self, text: &str) -> (r: bool)
        ensures
            r == (forall|i: int| 0 <= i < text@.len() ==> #[trigger] is_trivial_char(text@[i])),
            r ==> nfkc_quick(text@) is Yes,
            r ==> forall|i: int|
                0 <= i < text@.len() ==> !char_is_uppercase(#[trigger] text@[i])
                    && char_lowercase(text@[i]) == seq![text@[i]],
    {
        proof {
            use_type_invariant(self);
            assert(text@.take(0) =~= Seq::empty());
        }
        for ch in it: text.chars()
            invariant
                it.seq() == text@,
                forall|i: int| 0 <= i < it.index() ==> #[trigger] is_trivial_char(text@[i]),
                nfkc_quick(text@.take(it.index() as int)) is Yes,
                forall|c: char| #[trigger] is_trivial_char(c) ==> is_inert(c),
        {
            if !self.is_trivial(ch) {
                return false;
            }
            proof {
                let n = it.index() as int;
                assert(text@.take(n + 1) =~= text@.take(n).push(ch));
            }
        }
        proof {
            assert(text@.take(text@.len() as int) =~= text@);
            assert forall|i: int| 0 <= i < text@.len() implies !char_is_uppercase(
                #[trigger] text@[i],
            ) && char_lowercase(text@[i]) == seq![text@[i]] by {
                assert(is_trivial_char(text@[i]));
            }
        }
        true
    }
}

/// A character is trivially normalized exactly if it is in the Basic Multilingual Plane, the
/// quick check for NFKC says `Yes` of it, its canonical combining class is 0, it is not
/// uppercase and is its own lowercase mapping.
pub proof fn law_trivial_characters(c: char)
    ensures
        is_trivial_char(c) ==> (c as u32) < 0x10000 && combining_class(c) == 0
            && !char_is_uppercase(c) && char_lowercase(c) == seq![c] && nfkc_quick(seq![c]) is Yes,
        (c as u32) < 0x10000 && combining_class(c) == 0 && !char_is_uppercase(c) && char_lowercase(
            c,
        ) == seq![c] && nfkc_quick(seq![c]) is Yes ==> is_trivial_char(c),
{
}

} // verus!
