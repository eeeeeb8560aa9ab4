//! Selecting a cipher by name: the uniform entry points that the
//! command-line collaborator calls.

use vstd::prelude::*;
use vstd::string::StringExecFns;
use crate::alphabet::to_lower;
use crate::caesar::{CaesarCipher, caesar_map, enc_shift, dec_shift};
use crate::error::CipherError;
use crate::hill::{HillCipher, hill_key_ok, hill_matrix, hill_inverse, hill_indices, hill_blocks,
    hill_det, hill_dim, upper_letters, gcd};
use crate::numbers::{is_i32_literal, int_val};
use crate::playfair::{PlayfairCipher, pf_square, pf_prepare, pf_process, pf_collapse, pf_strip};
use crate::text::chars_of;
use crate::vigenere::{VigenereCipher, vig_map, key_vals, all_letters};

verus! {

/// The cipher name folded to lower case, for case-insensitive
/// selection.
pub open spec fn lower_seq(s: Seq<char>) -> Seq<char> {
    s.map_values(|c: char| to_lower(c))
}

/// Whether the lowered name equals a candidate cipher name.
fn name_is(lowered: &Vec<char>, name: &str) -> (r: bool)
    ensures
        r == (lowered@ == name@),
{
    let nv = chars_of(name);
    if lowered.len() != nv.len() {
        return false;
    }
    let len = lowered.len();
    let mut i: usize = 0;
    while i < len
        invariant
            len == lowered@.len(),
            nv@ == name@,
            lowered@.len() == name@.len(),
            i <= len,
            forall|j: int| 0 <= j < i ==> lowered@[j] == name@[j],
        decreases len - i,
    {
        if lowered[i] != nv[i] {
            return false;
        }
        i += 1;
    }
    proof {
        assert(lowered@ =~= name@);
    }
    true
}

/// Lowers a cipher name for comparison.
fn lower_name(cipher: &str) -> (r: Vec<char>)
    ensures
        r@ == lower_seq(cipher@),
{
    let cv = chars_of(cipher);
    let len = cv.len();
    let mut out: Vec<char> = Vec::new();
    let mut i: usize = 0;
    while i < len
        invariant
            len == cipher@.len(),
            cv@ == cipher@,
            i <= len,
            out@.len() == i,
            forall|j: int| 0 <= j < i ==> out@[j] == to_lower(cipher@[j]),
        decreases len - i,
    {
        out.push(crate::alphabet::lower_char(cv[i]));
        i += 1;
    }
    proof {
        assert(out@ =~= lower_seq(cipher@));
    }
    out
}

/// Encrypts `text` with the cipher selected by (case-insensitive) name:
/// one of caesar, vigenere, playfair and hill; any other name is an
/// `InvalidCipher` error.
pub fn encrypt(cipher: &str, text: &str, key: &str) -> (r: Result<String, CipherError>)
    ensures
        lower_seq(cipher@) == "caesar"@ ==> {
            &&& (r is Ok <==> is_i32_literal(key@))
            &&& (r matches Ok(out) ==> out@ == caesar_map(text@, enc_shift(int_val(key@))))
            &&& (r matches Err(e) ==> e matches CipherError::InvalidKey(_))
        },
        lower_seq(cipher@) == "vigenere"@ ==> {
            &&& (r is Ok <==> (key@.len() > 0 && all_letters(key@)))
            &&& (r matches Ok(out) ==> out@ == vig_map(text@, key_vals(key@), 0, true))
            &&& (r matches Err(e) ==> e matches CipherError::InvalidKey(_))
        },
        lower_seq(cipher@) == "playfair"@ ==> {
            &&& r is Ok
            &&& (r matches Ok(out) ==> out@ == pf_process(pf_square(key@), pf_prepare(text@), true))
        },
        lower_seq(cipher@) == "hill"@ ==> {
            &&& (r is Ok <==> (hill_key_ok(key@) && all_letters(text@)))
            &&& (r matches Ok(out) ==> out@ == upper_letters(
                hill_blocks(hill_matrix(key@), hill_indices(text@)),
            ))
            &&& (!hill_key_ok(key@) ==> r matches Err(CipherError::InvalidKey(_)))
            &&& ((hill_key_ok(key@) && !all_letters(text@)) ==> r matches Err(
                CipherError::InvalidInput(_),
            ))
        },
        (lower_seq(cipher@) != "caesar"@ && lower_seq(cipher@) != "vigenere"@ && lower_seq(cipher@)
            != "playfair"@ && lower_seq(cipher@) != "hill"@) ==> (r matches Err(
            CipherError::InvalidCipher(m),
        ) && m@ == cipher@),
{
    proof {
        reveal_strlit("caesar");
        reveal_strlit("vigenere");
        reveal_strlit("playfair");
        reveal_strlit("hill");
        assert("caesar"@.len() == 6);
        assert("vigenere"@.len() == 8);
        assert("playfair"@.len() == 8);
        assert("hill"@.len() == 4);
        assert("vigenere"@ != "playfair"@) by {
            assert("vigenere"@[0] == 'v');
            assert("playfair"@[0] == 'p');
        }
    }
    let lowered = lower_name(cipher);
    if name_is(&lowered, "caesar") {
        CaesarCipher::encrypt(text, key)
    } else if name_is(&lowered, "vigenere") {
        VigenereCipher::encrypt(text, key)
    } else if name_is(&lowered, "playfair") {
        PlayfairCipher::encrypt(text, key)
    } else if name_is(&lowered, "hill") {
        HillCipher::encrypt(text, key)
    } else {
        Err(CipherError::InvalidCipher(String::from_str(cipher)))
    }
}

/// Decrypts `text` with the cipher selected by (case-insensitive) name,
/// with the same name rules as `encrypt`.
pub fn decrypt(cipher: &str, text: &str, key: &str) -> (r: Result<String, CipherError>)
    ensures
        lower_seq(cipher@) == "caesar"@ ==> {
            &&& (r is Ok <==> is_i32_literal(key@))
            &&& (r matches Ok(out) ==> out@ == caesar_map(text@, dec_shift(int_val(key@))))
            &&& (r matches Err(e) ==> e matches CipherError::InvalidKey(_))
        },
        lower_seq(cipher@) == "vigenere"@ ==> {
            &&& (r is Ok <==> (key@.len() > 0 && all_letters(key@)))
            &&& (r matches Ok(out) ==> out@ == vig_map(text@, key_vals(key@), 0, false))
            &&& (r matches Err(e) ==> e matches CipherError::InvalidKey(_))
        },
        lower_seq(cipher@) == "playfair"@ ==> {
            &&& (r is Ok <==> text@.len() % 2 == 0)
            &&& (r matches Ok(out) ==> out@ == pf_strip(
                pf_collapse(pf_process(pf_square(key@), text@, false)),
            ))
            &&& (r matches Err(e) ==> e matches CipherError::InvalidInput(_))
        },
        lower_seq(cipher@) == "hill"@ ==> {
            &&& (r is Ok <==> (hill_key_ok(key@) && (hill_dim(key@) == 2 || hill_dim(key@) == 3)
                && gcd(26, hill_det(hill_matrix(key@))) == 1 && all_letters(text@)
                && text@.len() as int % hill_dim(key@) == 0))
            &&& (r matches Ok(out) ==> out@ == upper_letters(
                hill_blocks(hill_inverse(hill_matrix(key@)), hill_indices(text@)),
            ))
            &&& ((!hill_key_ok(key@) || !(hill_dim(key@) == 2 || hill_dim(key@) == 3) || gcd(
                26,
                hill_det(hill_matrix(key@)),
            ) != 1) ==> r matches Err(CipherError::InvalidKey(_)))
            &&& ((hill_key_ok(key@) && (hill_dim(key@) == 2 || hill_dim(key@) == 3) && gcd(
                26,
                hill_det(hill_matrix(key@)),
            ) == 1 && !(all_letters(text@) && text@.len() as int % hill_dim(key@) == 0))
                ==> r matches Err(CipherError::InvalidInput(_)))
        },
        (lower_seq(cipher@) != "caesar"@ && lower_seq(cipher@) != "vigenere"@ && lower_seq(cipher@)
            != "playfair"@ && lower_seq(cipher@) != "hill"@) ==> (r matches Err(
            CipherError::InvalidCipher(m),
        ) && m@ == cipher@),
{
    proof {
        reveal_strlit("caesar");
        reveal_strlit("vigenere");
        reveal_strlit("playfair");
        reveal_strlit("hill");
        assert("caesar"@.len() == 6);
        assert("vigenere"@.len() == 8);
        assert("playfair"@.len() == 8);
        assert("hill"@.len() == 4);
        assert("vigenere"@ != "playfair"@) by {
            assert("vigenere"@[0] == 'v');
            assert("playfair"@[0] == 'p');
        }
    }
    let lowered = lower_name(cipher);
    if name_is(&lowered, "caesar") {
        CaesarCipher::decrypt(text, key)
    } else if name_is(&lowered, "vigenere") {
        VigenereCipher::decrypt(text, key)
    } else if name_is(&lowered, "playfair") {
        PlayfairCipher::decrypt(text, key)
    } else if name_is(&lowered, "hill") {
        HillCipher::decrypt(text, key)
    } else {
        Err(CipherError::InvalidCipher(String::from_str(cipher)))
    }
}

} // verus!
