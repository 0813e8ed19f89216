//! Bidirectional mapping between numeric residues 0..=25 and the uppercase
//! letters 'A'..='Z'.

use vstd::prelude::*;

verus! {

/// The letter standing for residue `r`: the character at offset `r` from 'A'.
pub open spec fn letter_of(r: int) -> char {
    ((r + 65) as u32) as char
}

/// The residue a letter stands for: its offset from 'A'.
pub open spec fn residue_of(c: char) -> int {
    c as u32 - 65
}

/// Whether `c` is an uppercase ASCII letter: its code point lies between
/// those of 'A' and 'Z'.
pub open spec fn is_upper_letter(c: char) -> bool {
    65 <= c as u32 && c as u32 <= 90
}

/// For residues in range, the letter map lands on uppercase letters and the
/// residue map inverts it.
pub proof fn lemma_letter_residue_inverse(r: int)
    requires
        0 <= r < 26,
    ensures
        is_upper_letter(letter_of(r)),
        residue_of(letter_of(r)) == r,
{
}

/// Maps each numeric ciphertext value to its letter ('A' + value).
pub fn num_to_letter(int_cipher: &Vec<i64>) -> (r: Vec<char>)
    requires
        forall|i: int| 0 <= i < int_cipher@.len() ==> 0 <= #[trigger] int_cipher@[i] < 26,
    ensures
        r@.len() == int_cipher@.len(),
        forall|i: int| 0 <= i < r@.len() ==> #[trigger] r@[i] == letter_of(int_cipher@[i] as int),
        forall|i: int| 0 <= i < r@.len() ==> is_upper_letter(#[trigger] r@[i]),
{
    let mut out: Vec<char> = Vec::new();
    let mut i: usize = 0;
    while i < int_cipher.len()
        invariant
            i <= int_cipher@.len(),
            out@.len() == i,
            forall|k: int| 0 <= k < int_cipher@.len() ==> 0 <= #[trigger] int_cipher@[k] < 26,
            forall|k: int| 0 <= k < i ==> #[trigger] out@[k] == letter_of(int_cipher@[k] as int),
        decreases int_cipher@.len() - i,
    {
        let n: i64 = int_cipher[i];
        let c: char = (n as u8 + 65) as char;
        out.push(c);
        i = i + 1;
    }
    proof {
        assert forall|k: int| 0 <= k < out@.len() implies is_upper_letter(#[trigger] out@[k]) by {
            lemma_letter_residue_inverse(int_cipher@[k] as int);
        }
    }
    out
}

/// Converts a numeric cipher stream into its letter stream, element-wise and
/// order-preserving.
pub fn decode_symbols(cipher_stream: &Vec<i64>) -> (r: Vec<char>)
    requires
        forall|i: int| 0 <= i < cipher_stream@.len() ==> 0 <= #[trigger] cipher_stream@[i] < 26,
    ensures
        r@.len() == cipher_stream@.len(),
        forall|i: int| 0 <= i < r@.len() ==> #[trigger] r@[i] == letter_of(cipher_stream@[i] as int),
        forall|i: int| 0 <= i < r@.len() ==> is_upper_letter(#[trigger] r@[i]),
{
    num_to_letter(cipher_stream)
}

} // verus!
