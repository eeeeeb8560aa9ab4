//! Caesar shift cipher: encrypt, decrypt, and the verified core of the
//! frequency-analysis brute-force attack (the 26 candidate decryptions).

use vstd::prelude::*;
use vstd::string::StringExecFns;
use crate::alphabet::{
    is_letter, is_upper, letter_index, letter_at, shift_char, lemma_shift_char_zero,
    lemma_shift_char_round, char_to_index, index_to_char, normalize_index,
};
use crate::error::CipherError;
use crate::numbers::{is_i32_literal, int_val, parse_i32};
use crate::text::{chars_of, string_from_chars};

verus! {

/// The Caesar transform of a whole text under shift `n`.
pub open spec fn caesar_map(s: Seq<char>, n: int) -> Seq<char> {
    Seq::new(s.len(), |i: int| shift_char(s[i], n))
}

/// The effective encryption shift for an integer key.
pub open spec fn enc_shift(k: int) -> int {
    k % 26
}

/// The effective decryption shift for an integer key: the additive
/// inverse of the encryption shift mod 26.
pub open spec fn dec_shift(k: int) -> int {
    (26 - k % 26) % 26
}

pub struct CaesarCipher;

impl CaesarCipher {
    /// Applies a normalized shift to every character of the text.
    fn apply_shift(text: &str, n: i32) -> (r: String)
        requires
            0 <= n < 26,
        ensures
            r@ == caesar_map(text@, n as int),
    {
        let v = chars_of(text);
        let len = v.len();
        let mut out: Vec<char> = Vec::new();
        let mut i: usize = 0;
        while i < len
            invariant
                0 <= n < 26,
                len == v@.len(),
                v@ == text@,
                i <= len,
                out@.len() == i,
                forall|j: int| 0 <= j < i ==> out@[j] == shift_char(v@[j], n as int),
            decreases len - i,
        {
            let c = v[i];
            let idx = char_to_index(c);
            if idx >= 0 {
                let shifted = (idx + n) % 26;
                let up = 'A' <= c && c <= 'Z';
                out.push(index_to_char(shifted, up));
                proof {
                    assert(letter_at(shifted as int, up) == letter_at(
                        letter_index(c) + n,
                        is_upper(c),
                    ));
                }
            } else {
                out.push(c);
            }
            i += 1;
        }
        proof {
            assert(out@ =~= caesar_map(text@, n as int));
        }
        string_from_chars(&out)
    }

    /// Encrypts by shifting each letter forward by the key, a decimal
    /// integer; non-letters pass through unchanged. A key that is not a
    /// valid integer is rejected.
    pub fn encrypt(text: &str, key: &str) -> (r: Result<String, CipherError>)
        ensures
            r is Ok <==> is_i32_literal(key@),
            r matches Ok(out) ==> out@ == caesar_map(text@, enc_shift(int_val(key@))),
            r matches Err(e) ==> e matches CipherError::InvalidKey(_),
    {
        let kv = chars_of(key);
        match parse_i32(&kv) {
            Some(k) => {
                let n = normalize_index(k);
                Ok(Self::apply_shift(text, n))
            },
            None => Err(CipherError::InvalidKey(String::from_str("Invalid key: must be a number"))),
        }
    }

    /// Decrypts by shifting each letter backward by the key; exactly the
    /// encryption under the negated key.
    pub fn decrypt(text: &str, key: &str) -> (r: Result<String, CipherError>)
        ensures
            r is Ok <==> is_i32_literal(key@),
            r matches Ok(out) ==> out@ == caesar_map(text@, dec_shift(int_val(key@))),
            r matches Err(e) ==> e matches CipherError::InvalidKey(_),
    {
        let kv = chars_of(key);
        match parse_i32(&kv) {
            Some(k) => {
                let n = normalize_index(k);
                let d = if n == 0 {
                    0
                } else {
                    26 - n
                };
                Ok(Self::apply_shift(text, d))
            },
            None => Err(CipherError::InvalidKey(String::from_str("Invalid key: must be a number"))),
        }
    }

    /// The 26 candidate decryptions that the brute-force attack scores:
    /// entry `i` pairs shift `i` with the text decrypted under shift `i`
    /// (the letters shifted back by `i`), and shift 0 leaves the text
    /// unchanged.
    pub fn brute_force_candidates(text: &str) -> (r: Vec<(i32, String)>)
        ensures
            r@.len() == 26,
            forall|i: int|
                0 <= i < 26 ==> (#[trigger] r@[i]).0 == i && r@[i].1@ == caesar_map(
                    text@,
                    dec_shift(i),
                ),
            r@[0].1@ == text@,
    {
        let mut r: Vec<(i32, String)> = Vec::new();
        let mut shift: i32 = 0;
        while shift < 26
            invariant
                0 <= shift <= 26,
                r@.len() == shift,
                forall|i: int|
                    0 <= i < shift ==> (#[trigger] r@[i]).0 == i && r@[i].1@ == caesar_map(
                        text@,
                        dec_shift(i),
                    ),
            decreases 26 - shift,
        {
            let back = if shift == 0 {
                0
            } else {
                26 - shift
            };
            r.push((shift, Self::apply_shift(text, back)));
            shift += 1;
        }
        proof {
            lemma_caesar_identity(text@);
            assert(dec_shift(0) == 0);
        }
        r
    }
}

/// Shifting by zero changes nothing.
pub proof fn lemma_caesar_identity(t: Seq<char>)
    ensures
        caesar_map(t, 0) == t,
{
    assert forall|i: int| 0 <= i < t.len() implies caesar_map(t, 0)[i] == t[i] by {
        lemma_shift_char_zero(t[i]);
    }
    assert(caesar_map(t, 0) =~= t);
}

/// Decrypting an encryption with the same key restores the text: the
/// Caesar round trip, for every text and every integer key.
pub proof fn lemma_caesar_round_trip(t: Seq<char>, k: int)
    ensures
        caesar_map(caesar_map(t, enc_shift(k)), dec_shift(k)) == t,
{
    let e = enc_shift(k);
    let d = dec_shift(k);
    assert forall|i: int| 0 <= i < t.len() implies caesar_map(caesar_map(t, e), d)[i] == t[i] by {
        lemma_shift_char_round(t[i], e, d);
    }
    assert(caesar_map(caesar_map(t, e), d) =~= t);
}

/// The Caesar transform preserves text length, non-letter characters,
/// letter-ness and character case, position by position.
pub proof fn lemma_caesar_preserves_shape(t: Seq<char>, n: int)
    ensures
        caesar_map(t, n).len() == t.len(),
        forall|i: int|
            0 <= i < t.len() && !is_letter(t[i]) ==> (#[trigger] caesar_map(t, n)[i]) == t[i],
        forall|i: int|
            0 <= i < t.len() ==> is_letter(#[trigger] caesar_map(t, n)[i]) == is_letter(t[i]),
        forall|i: int|
            0 <= i < t.len() ==> is_upper(#[trigger] caesar_map(t, n)[i]) == is_upper(t[i]),
{
}

} // verus!
