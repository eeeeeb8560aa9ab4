//! Character/index mapping over the 26-letter Latin alphabet, and the
//! letter-counting core of frequency analysis.

use vstd::prelude::*;

verus! {

/// `c` is an ASCII uppercase letter.
pub open spec fn is_upper(c: char) -> bool {
    'A' <= c && c <= 'Z'
}

/// `c` is an ASCII lowercase letter.
pub open spec fn is_lower(c: char) -> bool {
    'a' <= c && c <= 'z'
}

/// `c` is an ASCII letter.
pub open spec fn is_letter(c: char) -> bool {
    is_upper(c) || is_lower(c)
}

/// Alphabet position of a letter, case-insensitive: 0 for `A`/`a` up to
/// 25 for `Z`/`z`; -1 for everything else.
pub open spec fn letter_index(c: char) -> int {
    if is_upper(c) {
        c as u32 - 'A' as u32
    } else if is_lower(c) {
        c as u32 - 'a' as u32
    } else {
        -1
    }
}

/// The uppercase letter at alphabet position `i % 26` (Euclidean modulus,
/// so the position is always in 0..26, also for negative `i`).
pub open spec fn upper_letter(i: int) -> char {
    (('A' as u32 + (i % 26)) as u8) as char
}

/// The lowercase letter at alphabet position `i % 26`.
pub open spec fn lower_letter(i: int) -> char {
    (('a' as u32 + (i % 26)) as u8) as char
}

/// The letter at alphabet position `i % 26`, in the chosen case.
pub open spec fn letter_at(i: int, uppercase: bool) -> char {
    if uppercase {
        upper_letter(i)
    } else {
        lower_letter(i)
    }
}

/// ASCII-uppercases a single character, leaving all others unchanged.
pub open spec fn to_upper(c: char) -> char {
    if is_lower(c) {
        ((c as u32 - 32) as u8) as char
    } else {
        c
    }
}

/// ASCII-lowercases a single character, leaving all others unchanged.
pub open spec fn to_lower(c: char) -> char {
    if is_upper(c) {
        ((c as u32 + 32) as u8) as char
    } else {
        c
    }
}

/// ASCII-uppercases a character in executable code.
pub fn upper_char(c: char) -> (r: char)
    ensures
        r == to_upper(c),
{
    if 'a' <= c && c <= 'z' {
        ((c as u32 as u8) - 32) as char
    } else {
        c
    }
}

/// ASCII-lowercases a character in executable code.
pub fn lower_char(c: char) -> (r: char)
    ensures
        r == to_lower(c),
{
    if 'A' <= c && c <= 'Z' {
        ((c as u32 as u8) + 32) as char
    } else {
        c
    }
}

/// Shifts a single character by `n` alphabet positions within its own
/// case, leaving non-letters unchanged.
pub open spec fn shift_char(c: char, n: int) -> char {
    if is_letter(c) {
        letter_at(letter_index(c) + n, is_upper(c))
    } else {
        c
    }
}

/// Shifting a character by zero positions changes nothing.
pub proof fn lemma_shift_char_zero(c: char)
    ensures
        shift_char(c, 0) == c,
{
    if is_letter(c) {
        assert(letter_at(letter_index(c), is_upper(c)) == c);
    }
}

/// A character survives a forward shift followed by the complementary
/// backward shift.
pub proof fn lemma_shift_char_round(c: char, e: int, d: int)
    requires
        0 <= e < 26,
        d == (26 - e) % 26,
    ensures
        shift_char(shift_char(c, e), d) == c,
{
    if is_letter(c) {
        let idx = letter_index(c);
        let mid = shift_char(c, e);
        assert(letter_index(mid) == (idx + e) % 26);
        assert(is_upper(mid) == is_upper(c));
        assert(is_letter(mid));
        assert((letter_index(mid) + d) % 26 == idx);
        assert(letter_at(letter_index(mid) + d, is_upper(mid)) == c);
    }
}

/// Maps ASCII letters to their alphabet position 0..25 (case-insensitive)
/// and everything else to the sentinel -1.
pub fn char_to_index(c: char) -> (r: i32)
    ensures
        r == letter_index(c),
{
    if 'A' <= c && c <= 'Z' {
        (c as u32 as i32) - 65
    } else if 'a' <= c && c <= 'z' {
        (c as u32 as i32) - 97
    } else {
        -1
    }
}

/// Reduces any shift to the canonical alphabet position in 0..26, with a
/// non-negative result also for negative inputs.
pub fn normalize_index(x: i32) -> (r: i32)
    ensures
        r == (x as int) % 26,
        0 <= r < 26,
{
    let r = x % 26;
    if r < 0 {
        r + 26
    } else {
        r
    }
}

/// Maps an alphabet position back to a letter, wrapping the position mod
/// 26 first; `uppercase` selects the `A`..`Z` or `a`..`z` range.
pub fn index_to_char(index: i32, uppercase: bool) -> (r: char)
    ensures
        r == letter_at(index as int, uppercase),
{
    let i = normalize_index(index) as u8;
    if uppercase {
        (65 + i) as char
    } else {
        (97 + i) as char
    }
}

/// How many characters of `s` are the letter at alphabet position
/// `idx`, counted case-insensitively.
pub open spec fn count_letter(s: Seq<char>, idx: int) -> int
    decreases s.len(),
{
    if s.len() == 0 {
        0
    } else {
        count_letter(s.drop_last(), idx) + if letter_index(s.last()) == idx {
            1int
        } else {
            0int
        }
    }
}

/// Counts the letters of a text case-insensitively: entry `k` of the
/// result is the number of occurrences of the k-th alphabet letter.
/// Non-letters are ignored. The integer core of frequency analysis.
pub fn letter_counts(text: &str) -> (r: Vec<u64>)
    ensures
        r@.len() == 26,
        forall|k: int| 0 <= k < 26 ==> (#[trigger] r@[k]) as int == count_letter(text@, k),
{
    let t = crate::text::chars_of(text);
    let len = t.len();
    let mut counts: Vec<u64> = Vec::new();
    let mut z: usize = 0;
    while z < 26
        invariant
            z <= 26,
            counts@.len() == z,
            forall|k: int| 0 <= k < z ==> (#[trigger] counts@[k]) == 0,
        decreases 26 - z,
    {
        counts.push(0);
        z += 1;
    }
    let mut j: usize = 0;
    proof {
        assert(text@.take(0) =~= Seq::<char>::empty());
    }
    while j < len
        invariant
            len == text@.len(),
            t@ == text@,
            j <= len,
            counts@.len() == 26,
            forall|k: int| 0 <= k < 26 ==> (#[trigger] counts@[k]) as int == count_letter(
                text@.take(j as int),
                k,
            ),
            forall|k: int| 0 <= k < 26 ==> (#[trigger] counts@[k]) <= j,
        decreases len - j,
    {
        proof {
            assert(text@.take(j + 1).drop_last() =~= text@.take(j as int));
            assert(text@.take(j + 1).last() == text@[j as int]);
        }
        let c = t[j];
        let idx = char_to_index(c);
        if idx >= 0 {
            let u = idx as usize;
            let cur = counts[u];
            counts[u] = cur + 1;
        }
        j += 1;
    }
    proof {
        assert(text@.take(len as int) =~= text@);
    }
    counts
}

} // verus!
