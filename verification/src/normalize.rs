//! Normalizes raw plaintext: keeps only letters, case-folds them to
//! uppercase, and maps each letter to its zero-based alphabet index.

use vstd::prelude::*;

verus! {

use vstd::string::StrSliceExecFns;
use crate::codec::{is_upper_letter, letter_of};

/// Whether `c` is a lowercase ASCII letter: its code point lies between
/// those of 'a' and 'z'.
pub open spec fn is_lower_letter(c: char) -> bool {
    97 <= c as u32 && c as u32 <= 122
}

/// Whether `c` is a letter of the alphabet the cipher works on.
pub open spec fn is_letter(c: char) -> bool {
    is_upper_letter(c) || is_lower_letter(c)
}

/// `c` case-folded to uppercase: lowercase letters move 32 code points down,
/// everything else stays as it is.
pub open spec fn upper(c: char) -> char {
    if is_lower_letter(c) {
        ((c as u32 - 32) as u32) as char
    } else {
        c
    }
}

/// The displayable normalization of `s`: its letters, in order, case-folded
/// to uppercase; every other character dropped.
pub open spec fn norm_letters(s: Seq<char>) -> Seq<char>
    decreases s.len(),
{
    if s.len() == 0 {
        Seq::empty()
    } else {
        let rest = norm_letters(s.drop_last());
        if is_letter(s.last()) {
            rest.push(upper(s.last()))
        } else {
            rest
        }
    }
}

/// The alphabet indices of the uppercase letters of `s`, in order; every
/// other character dropped.
pub open spec fn upper_indices(s: Seq<char>) -> Seq<u8>
    decreases s.len(),
{
    if s.len() == 0 {
        Seq::empty()
    } else {
        let rest = upper_indices(s.drop_last());
        if is_upper_letter(s.last()) {
            rest.push((s.last() as u32 - 65) as u8)
        } else {
            rest
        }
    }
}

/// Every normalized character is an uppercase letter, and the index stream of
/// a normalized sequence maps it position by position: same length, and each
/// index is its letter's offset from 'A', a value in 0..=25.
pub proof fn lemma_norm_letters_upper(s: Seq<char>)
    ensures
        forall|i: int|
            0 <= i < norm_letters(s).len() ==> is_upper_letter(#[trigger] norm_letters(s)[i]),
        upper_indices(norm_letters(s)).len() == norm_letters(s).len(),
        forall|i: int|
            0 <= i < norm_letters(s).len() ==> #[trigger] upper_indices(norm_letters(s))[i]
                == (norm_letters(s)[i] as u32 - 65) as u8,
        forall|i: int|
            0 <= i < norm_letters(s).len() ==> #[trigger] upper_indices(norm_letters(s))[i] < 26,
    decreases s.len(),
{
    if s.len() == 0 {
    } else {
        lemma_norm_letters_upper(s.drop_last());
        let pre = norm_letters(s.drop_last());
        if is_letter(s.last()) {
            let c = upper(s.last());
            assert(is_upper_letter(c));
            assert(norm_letters(s) == pre.push(c));
            assert(pre.push(c).drop_last() =~= pre);
            assert(upper_indices(pre.push(c)) == upper_indices(pre).push((c as u32 - 65) as u8));
        }
    }
}

/// Round trip through the codec: decoding any residue in 0..=25 to its letter
/// and mapping that letter back through the letter-to-index table yields the
/// residue again.
pub proof fn lemma_codec_round_trip(r: u8)
    requires
        r < 26,
    ensures
        upper_indices(seq![letter_of(r as int)]) =~= seq![r],
{
    let c = letter_of(r as int);
    crate::codec::lemma_letter_residue_inverse(r as int);
    assert(seq![c].drop_last() =~= Seq::<char>::empty());
    assert(upper_indices(seq![c]) == upper_indices(Seq::<char>::empty()).push(
        (c as u32 - 65) as u8,
    ));
}

/// Keeps only the letters of the raw text, case-folded to uppercase, in
/// their original order.
pub fn clean_plaintext(raw_text: &String) -> (r: Vec<char>)
    ensures
        r@ == norm_letters(raw_text@),
{
    let s: &str = raw_text.as_str();
    let len = s.unicode_len();
    let mut out: Vec<char> = Vec::new();
    let mut i: usize = 0;
    while i < len
        invariant
            len == s@.len(),
            s@ == raw_text@,
            i <= len,
            out@ == norm_letters(s@.take(i as int)),
        decreases len - i,
    {
        let c = s.get_char(i);
        let u = c as u32;
        if u >= 65 && u <= 90 {
            out.push(c);
        } else if u >= 97 && u <= 122 {
            out.push(((u - 32) as u8) as char);
        }
        proof {
            assert(s@.take(i as int + 1).drop_last() =~= s@.take(i as int));
            assert(s@.take(i as int + 1).last() == c);
        }
        i = i + 1;
    }
    proof {
        assert(s@.take(len as int) =~= s@);
    }
    out
}

/// Maps each uppercase letter to its zero-based alphabet index (A to 0, B to
/// 1, and so on); characters that are not uppercase letters are dropped.
pub fn letter_to_index(text_array: Vec<char>) -> (r: Vec<u8>)
    ensures
        r@ == upper_indices(text_array@),
{
    let mut out: Vec<u8> = Vec::new();
    let mut i: usize = 0;
    while i < text_array.len()
        invariant
            i <= text_array@.len(),
            out@ == upper_indices(text_array@.take(i as int)),
        decreases text_array@.len() - i,
    {
        let c = text_array[i];
        let u = c as u32;
        if u >= 65 && u <= 90 {
            out.push((u - 65) as u8);
        }
        proof {
            assert(text_array@.take(i as int + 1).drop_last() =~= text_array@.take(i as int));
            assert(text_array@.take(i as int + 1).last() == c);
            if 65 <= u && u <= 90 {
                assert(is_upper_letter(c));
            } else {
                assert(!is_upper_letter(c));
            }
        }
        i = i + 1;
    }
    proof {
        assert(text_array@.take(text_array@.len() as int) =~= text_array@);
    }
    out
}

/// Normalizes raw plaintext into its displayable uppercase letters and,
/// alongside them, the numeric stream of their alphabet indices: the two
/// sequences have the same length and correspond position by position.
pub fn normalize_plaintext(raw_text: &String) -> (r: (Vec<char>, Vec<u8>))
    ensures
        r.0@ == norm_letters(raw_text@),
        r.1@ == upper_indices(norm_letters(raw_text@)),
        r.1@.len() == r.0@.len(),
        forall|i: int| 0 <= i < r.1@.len() ==> #[trigger] r.1@[i] < 26,
        forall|i: int| 0 <= i < r.1@.len() ==> r.0@[i] == letter_of(#[trigger] r.1@[i] as int),
{
    let letters = clean_plaintext(raw_text);
    let stream = letter_to_index(letters.clone());
    proof {
        lemma_norm_letters_upper(raw_text@);
        assert forall|i: int| 0 <= i < stream@.len() implies letters@[i] == letter_of(
            #[trigger] stream@[i] as int,
        ) by {
            assert(is_upper_letter(letters@[i]));
            vstd::utf8::char_u32_cast(letters@[i], letters@[i] as u32);
        }
    }
    (letters, stream)
}

} // verus!
