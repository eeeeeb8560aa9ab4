//! Vigenère cipher: repeating-key polyalphabetic substitution. The key
//! index advances only on alphabetic input characters; non-letters pass
//! through without consuming a key letter.

use vstd::prelude::*;
use vstd::string::StringExecFns;
use crate::alphabet::{
    is_letter, letter_index, shift_char, lemma_shift_char_round, char_to_index, index_to_char,
};
use crate::error::CipherError;
use crate::text::{chars_of, string_from_chars};

verus! {

/// Every character of `s` is an ASCII letter.
pub open spec fn all_letters(s: Seq<char>) -> bool {
    forall|i: int| 0 <= i < s.len() ==> is_letter(s[i])
}

/// The shift values of a key, one per key character, case-insensitive.
pub open spec fn key_vals(k: Seq<char>) -> Seq<int> {
    k.map_values(|c: char| letter_index(c))
}

/// The Vigenère transform: starting at key position `ki`, each letter is
/// shifted by the current key value (forward when `enc`, backward
/// otherwise) and advances the key; every other character is kept and
/// does not advance the key.
pub open spec fn vig_map(s: Seq<char>, kv: Seq<int>, ki: int, enc: bool) -> Seq<char>
    decreases s.len(),
{
    if s.len() == 0 || kv.len() == 0 {
        s
    } else if is_letter(s.first()) {
        let k = kv[ki % (kv.len() as int)];
        let n = if enc {
            k % 26
        } else {
            (26 - k % 26) % 26
        };
        seq![shift_char(s.first(), n)] + vig_map(s.drop_first(), kv, ki + 1, enc)
    } else {
        seq![s.first()] + vig_map(s.drop_first(), kv, ki, enc)
    }
}

pub struct VigenereCipher;

impl VigenereCipher {
    /// Checks the key and turns it into shift values; the shared front
    /// half of encrypt and decrypt.
    fn key_values(key: &str) -> (r: Result<Vec<i32>, CipherError>)
        ensures
            r is Ok <==> (key@.len() > 0 && all_letters(key@)),
            r matches Ok(v) ==> {
                &&& v@.len() == key@.len()
                &&& forall|j: int|
                    0 <= j < v@.len() ==> #[trigger] v@[j] == key_vals(key@)[j] && 0 <= v@[j] < 26
            },
            r matches Err(e) ==> e matches CipherError::InvalidKey(_),
    {
        let kc = chars_of(key);
        let len = kc.len();
        if len == 0 {
            return Err(
                CipherError::InvalidKey(String::from_str("Key must contain only letters")),
            );
        }
        let mut vals: Vec<i32> = Vec::new();
        let mut i: usize = 0;
        while i < len
            invariant
                len == key@.len(),
                kc@ == key@,
                i <= len,
                vals@.len() == i,
                forall|j: int| 0 <= j < i ==> #[trigger] vals@[j] == key_vals(key@)[j] && 0 <= vals@[j] < 26,
            decreases len - i,
        {
            let idx = char_to_index(kc[i]);
            if idx < 0 {
                proof {
                    assert(!is_letter(key@[i as int]));
                    assert(!all_letters(key@));
                }
                return Err(
                    CipherError::InvalidKey(String::from_str("Key must contain only letters")),
                );
            }
            vals.push(idx);
            i += 1;
        }
        proof {
            assert forall|j: int| 0 <= j < key@.len() implies is_letter(key@[j]) by {
                assert(vals@[j] == key_vals(key@)[j]);
                assert(key_vals(key@)[j] == letter_index(key@[j]));
            }
        }
        Ok(vals)
    }

    /// Applies the Vigenère transform in the chosen direction.
    fn apply(text: &str, vals: &Vec<i32>, enc: bool) -> (r: String)
        requires
            vals@.len() > 0,
            forall|j: int| 0 <= j < vals@.len() ==> 0 <= #[trigger] vals@[j] < 26,
        ensures
            r@ == vig_map(text@, vals@.map_values(|x: i32| x as int), 0, enc),
    {
        let t = chars_of(text);
        let len = t.len();
        let klen = vals.len();
        let ghost kv = vals@.map_values(|x: i32| x as int);
        let mut out: Vec<char> = Vec::new();
        let mut key_index: usize = 0;
        let mut i: usize = 0;
        proof {
            assert(text@.skip(0) =~= text@);
            assert(out@ + vig_map(text@, kv, 0, enc) =~= vig_map(text@, kv, 0, enc));
        }
        while i < len
            invariant
                len == text@.len(),
                t@ == text@,
                klen == vals@.len(),
                klen > 0,
                kv == vals@.map_values(|x: i32| x as int),
                forall|j: int| 0 <= j < vals@.len() ==> 0 <= #[trigger] vals@[j] < 26,
                i <= len,
                key_index <= i,
                vig_map(text@, kv, 0, enc) == out@ + vig_map(
                    text@.skip(i as int),
                    kv,
                    key_index as int,
                    enc,
                ),
            decreases len - i,
        {
            let ghost rest = text@.skip(i as int);
            proof {
                assert(rest.len() > 0);
                assert(rest.first() == text@[i as int]);
                assert(rest.drop_first() =~= text@.skip(i + 1));
            }
            let c = t[i];
            let idx = char_to_index(c);
            if idx >= 0 {
                let k = vals[key_index % klen];
                let shifted = if enc {
                    (idx + k) % 26
                } else {
                    (idx + (26 - k)) % 26
                };
                let up = 'A' <= c && c <= 'Z';
                out.push(index_to_char(shifted, up));
                key_index += 1;
                proof {
                    let kval = kv[(key_index - 1) % (kv.len() as int)];
                    let n = if enc {
                        kval % 26
                    } else {
                        (26 - kval % 26) % 26
                    };
                    assert(shifted as int == (letter_index(c) + n) % 26);
                    assert(out@.last() == shift_char(c, n));
                    assert(out@ =~= out@.drop_last().push(out@.last()));
                    assert(out@.drop_last() + vig_map(rest, kv, key_index - 1, enc) == out@
                        + vig_map(text@.skip(i + 1), kv, key_index as int, enc));
                }
            } else {
                out.push(c);
                proof {
                    assert(out@.last() == c);
                    assert(out@ =~= out@.drop_last().push(out@.last()));
                    assert(out@.drop_last() + vig_map(rest, kv, key_index as int, enc) == out@
                        + vig_map(text@.skip(i + 1), kv, key_index as int, enc));
                }
            }
            i += 1;
        }
        proof {
            assert(text@.skip(len as int) =~= Seq::<char>::empty());
            assert(vig_map(text@.skip(len as int), kv, key_index as int, enc) =~= Seq::<
                char,
            >::empty());
            assert(out@ + Seq::<char>::empty() =~= out@);
        }
        string_from_chars(&out)
    }

    /// Encrypts: each letter is shifted forward by the next key letter's
    /// value, cycling through the key; the key must be non-empty and all
    /// letters.
    pub fn encrypt(text: &str, key: &str) -> (r: Result<String, CipherError>)
        ensures
            r is Ok <==> (key@.len() > 0 && all_letters(key@)),
            r matches Ok(out) ==> out@ == vig_map(text@, key_vals(key@), 0, true),
            r matches Err(e) ==> e matches CipherError::InvalidKey(_),
    {
        match Self::key_values(key) {
            Ok(vals) => {
                proof {
                    assert(vals@.map_values(|x: i32| x as int) =~= key_vals(key@));
                }
                Ok(Self::apply(text, &vals, true))
            },
            Err(e) => Err(e),
        }
    }

    /// Decrypts: each letter is shifted backward by the next key letter's
    /// value, with the same key-advance rule as encryption.
    pub fn decrypt(text: &str, key: &str) -> (r: Result<String, CipherError>)
        ensures
            r is Ok <==> (key@.len() > 0 && all_letters(key@)),
            r matches Ok(out) ==> out@ == vig_map(text@, key_vals(key@), 0, false),
            r matches Err(e) ==> e matches CipherError::InvalidKey(_),
    {
        match Self::key_values(key) {
            Ok(vals) => {
                proof {
                    assert(vals@.map_values(|x: i32| x as int) =~= key_vals(key@));
                }
                Ok(Self::apply(text, &vals, false))
            },
            Err(e) => Err(e),
        }
    }
}

/// Decrypting an encryption with the same key and starting key position
/// restores the text, for every text and every key-value sequence.
pub proof fn lemma_vig_round_trip(t: Seq<char>, kv: Seq<int>, ki: int)
    requires
        kv.len() > 0,
    ensures
        vig_map(vig_map(t, kv, ki, true), kv, ki, false) == t,
    decreases t.len(),
{
    if t.len() == 0 {
    } else {
        let c = t.first();
        let rest = t.drop_first();
        if is_letter(c) {
            let k = kv[ki % (kv.len() as int)];
            let e = k % 26;
            let d = (26 - k % 26) % 26;
            let c2 = shift_char(c, e);
            lemma_shift_char_round(c, e, d);
            assert(is_letter(c2));
            let enc = vig_map(t, kv, ki, true);
            assert(enc == seq![c2] + vig_map(rest, kv, ki + 1, true));
            assert(enc.first() == c2);
            assert(enc.drop_first() =~= vig_map(rest, kv, ki + 1, true));
            lemma_vig_round_trip(rest, kv, ki + 1);
            assert(vig_map(enc, kv, ki, false) == seq![c] + rest);
            assert(seq![c] + rest =~= t);
        } else {
            assert(vig_map(t, kv, ki, true) == seq![c] + vig_map(rest, kv, ki, true));
            assert((seq![c] + vig_map(rest, kv, ki, true)).first() == c);
            assert((seq![c] + vig_map(rest, kv, ki, true)).drop_first() =~= vig_map(
                rest,
                kv,
                ki,
                true,
            ));
            lemma_vig_round_trip(rest, kv, ki);
            assert(vig_map(vig_map(t, kv, ki, true), kv, ki, false) == seq![c] + rest);
            assert(seq![c] + rest =~= t);
        }
    }
}

/// The Vigenère round trip stated over texts and alphabetic keys: for
/// every text and every non-empty all-letter key, decrypting the
/// encryption restores the text.
pub proof fn lemma_vigenere_round_trip(t: Seq<char>, key: Seq<char>)
    requires
        key.len() > 0,
        all_letters(key),
    ensures
        vig_map(vig_map(t, key_vals(key), 0, true), key_vals(key), 0, false) == t,
{
    lemma_vig_round_trip(t, key_vals(key), 0);
}

} // verus!
