//! Playfair cipher: 5×5 key-square digraph substitution with I/J
//! merging, filler insertion between doubled letters, and the classical
//! (heuristic, lossy) filler removal on decryption.

use vstd::prelude::*;
use vstd::string::StringExecFns;
use crate::alphabet::{is_letter, is_upper, to_upper, upper_char, char_to_index, letter_index};
use crate::error::CipherError;
use crate::text::{chars_of, string_from_chars};
use vstd::arithmetic::div_mod::lemma_fundamental_div_mod_converse;

verus! {

/// Uppercases a character and merges J into I.
pub open spec fn pf_norm(c: char) -> char {
    if to_upper(c) == 'J' {
        'I'
    } else {
        to_upper(c)
    }
}

/// The cleaned text: letters only, uppercased, J merged into I.
pub open spec fn pf_clean(s: Seq<char>) -> Seq<char>
    decreases s.len(),
{
    if s.len() == 0 {
        Seq::empty()
    } else if is_letter(s.first()) {
        seq![pf_norm(s.first())] + pf_clean(s.drop_first())
    } else {
        pf_clean(s.drop_first())
    }
}

/// Digraph splitting of a cleaned text: a doubled letter gets an 'X'
/// filler and the repeated letter starts the next pair; a lone trailing
/// letter is padded with 'X'. The result always has even length.
pub open spec fn pf_pairs(s: Seq<char>) -> Seq<char>
    decreases s.len(),
{
    if s.len() == 0 {
        Seq::empty()
    } else if s.len() == 1 {
        seq![s[0], 'X']
    } else if s[0] == s[1] {
        seq![s[0], 'X'] + pf_pairs(s.skip(1))
    } else {
        seq![s[0], s[1]] + pf_pairs(s.skip(2))
    }
}

/// The fully prepared plaintext: cleaned, then split into digraphs.
pub open spec fn pf_prepare(s: Seq<char>) -> Seq<char> {
    pf_pairs(pf_clean(s))
}

/// First occurrences of the candidates, in order, appended to `acc`.
pub open spec fn distinct_add(s: Seq<char>, acc: Seq<char>) -> Seq<char>
    decreases s.len(),
{
    if s.len() == 0 {
        acc
    } else if acc.contains(s.first()) {
        distinct_add(s.drop_first(), acc)
    } else {
        distinct_add(s.drop_first(), acc.push(s.first()))
    }
}

/// The 25-letter alphabet A..Z without J, in order.
pub open spec fn alpha25() -> Seq<char> {
    Seq::new(
        25,
        |i: int|
            (('A' as u32 + (if i < 9 {
                i
            } else {
                i + 1
            })) as u8) as char,
    )
}

/// The key square as a flat row-major sequence of 25 letters: first
/// occurrences of the cleaned key, then the remaining alphabet.
pub open spec fn pf_square(key: Seq<char>) -> Seq<char> {
    distinct_add(pf_clean(key) + alpha25(), Seq::empty())
}

/// The flattened view of the executable 5×5 square.
pub open spec fn square_flat(sq: Seq<Vec<char>>) -> Seq<char> {
    Seq::new(25, |p: int| sq[p / 5]@[p % 5])
}

/// The flat position of `c` in the square: its unique index when
/// present, 0 otherwise.
pub open spec fn pos_of(sq: Seq<char>, c: char) -> int {
    if exists|p: int| 0 <= p < 25 && sq[p] == c {
        choose|p: int| 0 <= p < 25 && sq[p] == c
    } else {
        0
    }
}

/// One digraph through the square: same row shifts columns (right to
/// encrypt, left to decrypt), same column shifts rows (down to encrypt,
/// up to decrypt), a rectangle swaps columns.
pub open spec fn pf_map_pair(sq: Seq<char>, a: char, b: char, enc: bool) -> Seq<char> {
    let pa = pos_of(sq, a);
    let pb = pos_of(sq, b);
    let ra = pa / 5;
    let ca = pa % 5;
    let rb = pb / 5;
    let cb = pb % 5;
    let d = if enc {
        1int
    } else {
        4int
    };
    if ra == rb {
        seq![sq[ra * 5 + (ca + d) % 5], sq[rb * 5 + (cb + d) % 5]]
    } else if ca == cb {
        seq![sq[((ra + d) % 5) * 5 + ca], sq[((rb + d) % 5) * 5 + cb]]
    } else {
        seq![sq[ra * 5 + cb], sq[rb * 5 + ca]]
    }
}

/// The whole text mapped digraph by digraph.
pub open spec fn pf_process(sq: Seq<char>, s: Seq<char>, enc: bool) -> Seq<char>
    decreases s.len(),
{
    if s.len() < 2 {
        Seq::empty()
    } else {
        pf_map_pair(sq, s[0], s[1], enc) + pf_process(sq, s.skip(2), enc)
    }
}

/// Filler removal: an 'X' standing between two equal letters is
/// dropped; a heuristic that can lose a genuine 'X'.
pub open spec fn pf_collapse(s: Seq<char>) -> Seq<char>
    decreases s.len(),
{
    if s.len() == 0 {
        Seq::empty()
    } else if s.len() >= 3 && s[1] == 'X' && s[0] == s[2] {
        seq![s[0]] + pf_collapse(s.skip(2))
    } else {
        seq![s[0]] + pf_collapse(s.skip(1))
    }
}

/// Drops one trailing 'X', the possible padding.
pub open spec fn pf_strip(s: Seq<char>) -> Seq<char> {
    if s.len() > 0 && s.last() == 'X' {
        s.drop_last()
    } else {
        s
    }
}

/// Every character of a cleaned text is an uppercase letter other
/// than 'J'.
proof fn lemma_pf_clean_elems(s: Seq<char>)
    ensures
        forall|i: int|
            0 <= i < pf_clean(s).len() ==> is_upper(#[trigger] pf_clean(s)[i]) && pf_clean(s)[i]
                != 'J',
    decreases s.len(),
{
    if s.len() > 0 {
        let rest = s.drop_first();
        lemma_pf_clean_elems(rest);
        if is_letter(s.first()) {
            assert(is_upper(pf_norm(s.first())) && pf_norm(s.first()) != 'J');
            assert forall|i: int|
                0 <= i < pf_clean(s).len() implies is_upper(#[trigger] pf_clean(s)[i]) && pf_clean(
                s,
            )[i] != 'J' by {
                if i > 0 {
                    assert(pf_clean(s)[i] == pf_clean(rest)[i - 1]);
                }
            }
        } else {
            assert forall|i: int|
                0 <= i < pf_clean(s).len() implies is_upper(#[trigger] pf_clean(s)[i]) && pf_clean(
                s,
            )[i] != 'J' by {
                assert(pf_clean(s)[i] == pf_clean(rest)[i]);
            }
        }
    }
}

/// A prepared text has even length and draws its characters from the
/// cleaned text plus the filler 'X'.
proof fn lemma_pf_pairs_props(s: Seq<char>)
    ensures
        pf_pairs(s).len() % 2 == 0,
        forall|i: int|
            0 <= i < pf_pairs(s).len() ==> s.contains(#[trigger] pf_pairs(s)[i]) || pf_pairs(s)[i]
                == 'X',
    decreases s.len(),
{
    if s.len() == 0 {
    } else if s.len() == 1 {
        assert(s.contains(s[0]));
    } else if s[0] == s[1] {
        lemma_pf_pairs_props(s.skip(1));
        assert(s.contains(s[0]));
        assert forall|i: int|
            0 <= i < pf_pairs(s).len() implies s.contains(#[trigger] pf_pairs(s)[i]) || pf_pairs(
            s,
        )[i] == 'X' by {
            if i >= 2 {
                let t = s.skip(1);
                assert(pf_pairs(s)[i] == pf_pairs(t)[i - 2]);
                if t.contains(pf_pairs(t)[i - 2]) {
                    let w = choose|k: int| 0 <= k < t.len() && t[k] == pf_pairs(t)[i - 2];
                    assert(s[w + 1] == pf_pairs(s)[i]);
                    assert(s.contains(pf_pairs(s)[i]));
                }
            }
        }
    } else {
        lemma_pf_pairs_props(s.skip(2));
        assert(s.contains(s[0]));
        assert(s.contains(s[1]));
        assert forall|i: int|
            0 <= i < pf_pairs(s).len() implies s.contains(#[trigger] pf_pairs(s)[i]) || pf_pairs(
            s,
        )[i] == 'X' by {
            if i >= 2 {
                let t = s.skip(2);
                assert(pf_pairs(s)[i] == pf_pairs(t)[i - 2]);
                if t.contains(pf_pairs(t)[i - 2]) {
                    let w = choose|k: int| 0 <= k < t.len() && t[k] == pf_pairs(t)[i - 2];
                    assert(s[w + 2] == pf_pairs(s)[i]);
                    assert(s.contains(pf_pairs(s)[i]));
                }
            }
        }
    }
}

/// A candidate that appears in `acc` or in `s` appears in the result of
/// `distinct_add`.
proof fn lemma_distinct_add_contains(s: Seq<char>, acc: Seq<char>, x: char)
    requires
        acc.contains(x) || s.contains(x),
    ensures
        distinct_add(s, acc).contains(x),
    decreases s.len(),
{
    if s.len() == 0 {
    } else {
        let rest = s.drop_first();
        if s.contains(x) && !acc.contains(x) {
            if s.first() != x {
                let w = choose|k: int| 0 <= k < s.len() && s[k] == x;
                assert(rest[w - 1] == x);
                assert(rest.contains(x));
            }
        }
        if acc.contains(s.first()) {
            lemma_distinct_add_contains(rest, acc, x);
        } else {
            let acc2 = acc.push(s.first());
            if acc.contains(x) {
                let w = choose|k: int| 0 <= k < acc.len() && acc[k] == x;
                assert(acc2[w] == x);
                assert(acc2.contains(x));
            }
            if x == s.first() {
                assert(acc2[acc.len() as int] == x);
                assert(acc2.contains(x));
            }
            lemma_distinct_add_contains(rest, acc2, x);
        }
    }
}

/// The key-square properties: 25 distinct uppercase letters, no 'J',
/// and every other letter present.
pub proof fn lemma_pf_square_props(key: Seq<char>)
    ensures
        pf_square(key).len() == 25,
        pf_square(key).no_duplicates(),
        forall|p: int|
            0 <= p < 25 ==> is_upper(#[trigger] pf_square(key)[p]) && pf_square(key)[p] != 'J',
        forall|c: char| is_upper(c) && c != 'J' ==> pf_square(key).contains(c),
{
    let cands = pf_clean(key) + alpha25();
    lemma_pf_clean_elems(key);
    assert forall|i: int|
        0 <= i < cands.len() implies is_upper(#[trigger] cands[i]) && cands[i] != 'J' by {
        if i >= pf_clean(key).len() {
            assert(cands[i] == alpha25()[i - pf_clean(key).len()]);
        }
    }
    lemma_distinct_add_props(cands, Seq::empty());
    assert forall|c: char| is_upper(c) && c != 'J' implies pf_square(key).contains(c) by {
        let li = letter_index(c);
        let p = if li < 9 {
            li
        } else {
            li - 1
        };
        assert(alpha25()[p] == c);
        assert(alpha25().contains(c));
        assert(cands[pf_clean(key).len() + p] == c);
        assert(cands.contains(c));
        lemma_distinct_add_contains(cands, Seq::empty(), c);
    }
    // Cardinality: the square is a duplicate-free sequence over exactly
    // the 25 letters, so its length is 25.
    let sq = pf_square(key);
    assert(sq.to_set() =~= alpha25().to_set()) by {
        assert forall|c: char| sq.to_set().contains(c) implies alpha25().to_set().contains(c) by {
            assert(sq.contains(c));
            let w = choose|k: int| 0 <= k < sq.len() && sq[k] == c;
            assert(is_upper(c) && c != 'J');
            let li = letter_index(c);
            let p = if li < 9 {
                li
            } else {
                li - 1
            };
            assert(alpha25()[p] == c);
            assert(alpha25().contains(c));
        }
        assert forall|c: char| alpha25().to_set().contains(c) implies sq.to_set().contains(c) by {
            assert(alpha25().contains(c));
            let w = choose|k: int| 0 <= k < 25 && alpha25()[k] == c;
            assert(is_upper(c) && c != 'J');
            assert(sq.contains(c));
        }
    }
    assert(alpha25().no_duplicates());
    alpha25().unique_seq_to_set();
    sq.unique_seq_to_set();
}

/// `distinct_add` keeps the accumulator duplicate-free and draws every
/// element from the accumulator or the candidates.
proof fn lemma_distinct_add_props(s: Seq<char>, acc: Seq<char>)
    requires
        acc.no_duplicates(),
    ensures
        distinct_add(s, acc).no_duplicates(),
        forall|i: int|
            0 <= i < distinct_add(s, acc).len() ==> acc.contains(#[trigger] distinct_add(s, acc)[i])
                || s.contains(distinct_add(s, acc)[i]),
    decreases s.len(),
{
    if s.len() == 0 {
        assert forall|i: int| 0 <= i < acc.len() implies acc.contains(#[trigger] acc[i]) by {}
    } else {
        let rest = s.drop_first();
        if acc.contains(s.first()) {
            lemma_distinct_add_props(rest, acc);
            assert forall|i: int|
                0 <= i < distinct_add(s, acc).len() implies acc.contains(
                #[trigger] distinct_add(s, acc)[i],
            ) || s.contains(distinct_add(s, acc)[i]) by {
                if rest.contains(distinct_add(s, acc)[i]) {
                    let w = choose|k: int|
                        0 <= k < rest.len() && rest[k] == distinct_add(s, acc)[i];
                    assert(s[w + 1] == distinct_add(s, acc)[i]);
                }
            }
        } else {
            let acc2 = acc.push(s.first());
            assert(acc2.no_duplicates());
            lemma_distinct_add_props(rest, acc2);
            assert forall|i: int|
                0 <= i < distinct_add(s, acc).len() implies acc.contains(
                #[trigger] distinct_add(s, acc)[i],
            ) || s.contains(distinct_add(s, acc)[i]) by {
                let e = distinct_add(s, acc)[i];
                if acc2.contains(e) {
                    let w = choose|k: int| 0 <= k < acc2.len() && acc2[k] == e;
                    if w < acc.len() {
                        assert(acc[w] == e);
                    } else {
                        assert(e == s.first());
                        assert(s[0] == e);
                    }
                } else if rest.contains(e) {
                    let w = choose|k: int| 0 <= k < rest.len() && rest[k] == e;
                    assert(s[w + 1] == e);
                }
            }
        }
    }
}

pub struct PlayfairCipher;

impl PlayfairCipher {
    /// Whether a vector of characters already holds `c`.
    fn contains_char(v: &Vec<char>, c: char) -> (r: bool)
        ensures
            r == v@.contains(c),
    {
        let mut i: usize = 0;
        while i < v.len()
            invariant
                i <= v@.len(),
                forall|j: int| 0 <= j < i ==> v@[j] != c,
            decreases v@.len() - i,
        {
            if v[i] == c {
                return true;
            }
            i += 1;
        }
        false
    }

    /// Cleans a text: keeps letters only, uppercased, J merged into I.
    fn clean_chars(text: &str) -> (r: Vec<char>)
        ensures
            r@ == pf_clean(text@),
    {
        let t = chars_of(text);
        let len = t.len();
        let mut out: Vec<char> = Vec::new();
        let mut i: usize = 0;
        proof {
            assert(text@.skip(0) =~= text@);
            assert(out@ + pf_clean(text@) =~= pf_clean(text@));
        }
        while i < len
            invariant
                len == text@.len(),
                t@ == text@,
                i <= len,
                pf_clean(text@) == out@ + pf_clean(text@.skip(i as int)),
            decreases len - i,
        {
            let ghost rest = text@.skip(i as int);
            proof {
                assert(rest.first() == text@[i as int]);
                assert(rest.drop_first() =~= text@.skip(i + 1));
            }
            let c = t[i];
            if char_to_index(c) >= 0 {
                let u = upper_char(c);
                let n = if u == 'J' {
                    'I'
                } else {
                    u
                };
                out.push(n);
                proof {
                    assert(out@ =~= out@.drop_last() + seq![pf_norm(c)]);
                    assert(out@.drop_last() + (seq![pf_norm(c)] + pf_clean(text@.skip(i + 1)))
                        =~= out@ + pf_clean(text@.skip(i + 1)));
                }
            }
            i += 1;
        }
        proof {
            assert(text@.skip(len as int) =~= Seq::<char>::empty());
            assert(out@ + pf_clean(text@.skip(len as int)) =~= out@);
        }
        out
    }

    /// Builds the 5×5 key square: first occurrences of the cleaned key,
    /// then the remaining letters of the alphabet (J excluded), filled
    /// row-major.
    pub fn create_key_square(key: &str) -> (r: Vec<Vec<char>>)
        ensures
            r@.len() == 5,
            forall|i: int| 0 <= i < 5 ==> (#[trigger] r@[i]@).len() == 5,
            forall|i: int, j: int|
                0 <= i < 5 && 0 <= j < 5 ==> (#[trigger] r@[i]@[j]) == pf_square(key@)[i * 5 + j],
            square_flat(r@) == pf_square(key@),
    {
        let cleaned = Self::clean_chars(key);
        let mut cands: Vec<char> = cleaned;
        let mut p: usize = 0;
        proof {
            assert(cands@ =~= pf_clean(key@) + alpha25().take(0));
        }
        while p < 25
            invariant
                p <= 25,
                cands@ == pf_clean(key@) + alpha25().take(p as int),
            decreases 25 - p,
        {
            let li: usize = if p < 9 {
                p
            } else {
                p + 1
            };
            let c = (65 + li as u8) as char;
            cands.push(c);
            proof {
                assert(alpha25()[p as int] == c);
                assert(alpha25().take(p + 1) =~= alpha25().take(p as int).push(c));
                assert(cands@ =~= pf_clean(key@) + alpha25().take(p + 1));
            }
            p += 1;
        }
        proof {
            assert(alpha25().take(25) =~= alpha25());
            assert(cands@ =~= pf_clean(key@) + alpha25());
        }
        let mut flat: Vec<char> = Vec::new();
        let clen = cands.len();
        let mut i: usize = 0;
        proof {
            assert(cands@.skip(0) =~= cands@);
        }
        while i < clen
            invariant
                clen == cands@.len(),
                cands@ == pf_clean(key@) + alpha25(),
                i <= clen,
                pf_square(key@) == distinct_add(cands@.skip(i as int), flat@),
            decreases clen - i,
        {
            let ghost rest = cands@.skip(i as int);
            proof {
                assert(rest.first() == cands@[i as int]);
                assert(rest.drop_first() =~= cands@.skip(i + 1));
            }
            let c = cands[i];
            if !Self::contains_char(&flat, c) {
                flat.push(c);
            }
            i += 1;
        }
        proof {
            assert(cands@.skip(clen as int) =~= Seq::<char>::empty());
            assert(flat@ == pf_square(key@));
            lemma_pf_square_props(key@);
        }
        let mut square: Vec<Vec<char>> = Vec::new();
        let mut rr: usize = 0;
        while rr < 5
            invariant
                flat@ == pf_square(key@),
                flat@.len() == 25,
                rr <= 5,
                square@.len() == rr,
                forall|i: int| 0 <= i < rr ==> (#[trigger] square@[i]@).len() == 5,
                forall|i: int, j: int|
                    0 <= i < rr && 0 <= j < 5 ==> (#[trigger] square@[i]@[j]) == flat@[i * 5 + j],
            decreases 5 - rr,
        {
            let mut row: Vec<char> = Vec::new();
            let mut cc: usize = 0;
            while cc < 5
                invariant
                    flat@.len() == 25,
                    rr < 5,
                    cc <= 5,
                    row@.len() == cc,
                    forall|j: int|
                        0 <= j < cc ==> (#[trigger] row@[j]) == flat@[rr as int * 5 + j],
                decreases 5 - cc,
            {
                row.push(flat[rr * 5 + cc]);
                cc += 1;
            }
            square.push(row);
            rr += 1;
        }
        proof {
            assert(square_flat(square@) =~= pf_square(key@));
        }
        square
    }

    /// Finds the row and column of a character in the key square by
    /// row-major scan; (0, 0) when the character is absent.
    pub fn find_position(key_square: &Vec<Vec<char>>, c: char) -> (r: (usize, usize))
        requires
            key_square@.len() == 5,
            forall|i: int| 0 <= i < 5 ==> (#[trigger] key_square@[i]@).len() == 5,
        ensures
            r.0 < 5,
            r.1 < 5,
            square_flat(key_square@).contains(c) ==> key_square@[r.0 as int]@[r.1 as int] == c,
            !square_flat(key_square@).contains(c) ==> r == (0usize, 0usize),
    {
        let ghost flat = square_flat(key_square@);
        let mut i: usize = 0;
        while i < 5
            invariant
                key_square@.len() == 5,
                forall|a: int| 0 <= a < 5 ==> (#[trigger] key_square@[a]@).len() == 5,
                flat == square_flat(key_square@),
                i <= 5,
                forall|a: int, b: int| 0 <= a < i && 0 <= b < 5 ==> key_square@[a]@[b] != c,
            decreases 5 - i,
        {
            let rowref = &key_square[i];
            let mut j: usize = 0;
            while j < 5
                invariant
                    key_square@.len() == 5,
                    forall|a: int| 0 <= a < 5 ==> (#[trigger] key_square@[a]@).len() == 5,
                    flat == square_flat(key_square@),
                    i < 5,
                    rowref@ == key_square@[i as int]@,
                    j <= 5,
                    forall|b: int| 0 <= b < j ==> key_square@[i as int]@[b] != c,
                decreases 5 - j,
            {
                if rowref[j] == c {
                    proof {
                        lemma_fundamental_div_mod_converse(
                            i as int * 5 + j as int,
                            5,
                            i as int,
                            j as int,
                        );
                        assert(flat[i as int * 5 + j as int] == c);
                        assert(flat.contains(c));
                    }
                    return (i, j);
                }
                j += 1;
            }
            i += 1;
        }
        proof {
            assert forall|p: int| 0 <= p < 25 implies flat[p] != c by {
                assert(flat[p] == key_square@[p / 5]@[p % 5]);
            }
            assert(!flat.contains(c));
        }
        (0, 0)
    }

    /// Prepares a plaintext for encryption: clean, split into digraphs
    /// with 'X' filler, pad to even length.
    pub fn prepare_text(text: &str) -> (r: String)
        ensures
            r@ == pf_prepare(text@),
    {
        let cleaned = Self::clean_chars(text);
        let clen = cleaned.len();
        let mut out: Vec<char> = Vec::new();
        let mut i: usize = 0;
        proof {
            assert(cleaned@.skip(0) =~= cleaned@);
            assert(out@ + pf_pairs(cleaned@) =~= pf_pairs(cleaned@));
        }
        while i < clen
            invariant
                clen == cleaned@.len(),
                i <= clen,
                pf_pairs(cleaned@) == out@ + pf_pairs(cleaned@.skip(i as int)),
            decreases clen - i,
        {
            let ghost rest = cleaned@.skip(i as int);
            proof {
                assert(rest[0] == cleaned@[i as int]);
                if rest.len() >= 2 {
                    assert(rest[1] == cleaned@[i + 1]);
                }
                assert(rest.skip(1) =~= cleaned@.skip(i + 1));
                if rest.len() >= 2 {
                    assert(rest.skip(2) =~= cleaned@.skip(i + 2));
                }
            }
            let c = cleaned[i];
            if i + 1 < clen {
                let c2 = cleaned[i + 1];
                if c == c2 {
                    out.push(c);
                    out.push('X');
                    proof {
                        assert(out@ =~= out@.subrange(0, out@.len() - 2) + seq![c, 'X']);
                        assert(out@.subrange(0, out@.len() - 2) + (seq![c, 'X'] + pf_pairs(
                            cleaned@.skip(i + 1),
                        )) =~= out@ + pf_pairs(cleaned@.skip(i + 1)));
                    }
                    i += 1;
                } else {
                    out.push(c);
                    out.push(c2);
                    proof {
                        assert(out@ =~= out@.subrange(0, out@.len() - 2) + seq![c, c2]);
                        assert(out@.subrange(0, out@.len() - 2) + (seq![c, c2] + pf_pairs(
                            cleaned@.skip(i + 2),
                        )) =~= out@ + pf_pairs(cleaned@.skip(i + 2)));
                    }
                    i += 2;
                }
            } else {
                out.push(c);
                out.push('X');
                proof {
                    assert(rest.len() == 1);
                    assert(out@ =~= out@.subrange(0, out@.len() - 2) + seq![c, 'X']);
                    assert(pf_pairs(rest) == seq![c, 'X']);
                    assert(cleaned@.skip(clen as int) =~= Seq::<char>::empty());
                    assert(out@.subrange(0, out@.len() - 2) + (pf_pairs(rest) + pf_pairs(
                        cleaned@.skip(clen as int),
                    )) =~= out@ + pf_pairs(cleaned@.skip(clen as int)));
                }
                i = clen;
            }
        }
        proof {
            assert(cleaned@.skip(clen as int) =~= Seq::<char>::empty());
            assert(out@ + pf_pairs(cleaned@.skip(clen as int)) =~= out@);
            assert(out@ == pf_pairs(cleaned@));
        }
        string_from_chars(&out)
    }

    /// Substitutes one digraph through the key square.
    #[verifier::rlimit(60)]
    fn map_pair(square: &Vec<Vec<char>>, c1: char, c2: char, enc: bool, ghost_key: Ghost<
        Seq<char>,
    >) -> (r: (char, char))
        requires
            square@.len() == 5,
            forall|i: int| 0 <= i < 5 ==> (#[trigger] square@[i]@).len() == 5,
            square_flat(square@) == pf_square(ghost_key@),
        ensures
            seq![r.0, r.1] == pf_map_pair(square_flat(square@), c1, c2, enc),
    {
        let ghost sqf = square_flat(square@);
        proof {
            lemma_pf_square_props(ghost_key@);
        }
        let (r1, col1) = Self::find_position(square, c1);
        let (r2, col2) = Self::find_position(square, c2);
        proof {
            lemma_fundamental_div_mod_converse(
                r1 as int * 5 + col1 as int,
                5,
                r1 as int,
                col1 as int,
            );
            lemma_fundamental_div_mod_converse(
                r2 as int * 5 + col2 as int,
                5,
                r2 as int,
                col2 as int,
            );
            if sqf.contains(c1) {
                lemma_pos_unique(sqf, c1, r1 as int * 5 + col1 as int);
            }
            if sqf.contains(c2) {
                lemma_pos_unique(sqf, c2, r2 as int * 5 + col2 as int);
            }
            assert(pos_of(sqf, c1) == r1 as int * 5 + col1 as int);
            assert(pos_of(sqf, c2) == r2 as int * 5 + col2 as int);
            assert(pos_of(sqf, c1) / 5 == r1 as int && pos_of(sqf, c1) % 5 == col1 as int);
            assert(pos_of(sqf, c2) / 5 == r2 as int && pos_of(sqf, c2) % 5 == col2 as int);
        }
        let d: usize = if enc {
            1
        } else {
            4
        };
        let (n1, n2) = if r1 == r2 {
            let a = Self::square_at(square, r1, (col1 + d) % 5);
            let b = Self::square_at(square, r2, (col2 + d) % 5);
            (a, b)
        } else if col1 == col2 {
            let a = Self::square_at(square, (r1 + d) % 5, col1);
            let b = Self::square_at(square, (r2 + d) % 5, col2);
            (a, b)
        } else {
            let a = Self::square_at(square, r1, col2);
            let b = Self::square_at(square, r2, col1);
            (a, b)
        };
        proof {
            assert(seq![n1, n2] =~= pf_map_pair(sqf, c1, c2, enc));
        }
        (n1, n2)
    }

    /// Maps an even-length sequence of square letters digraph by
    /// digraph; the shared core of encrypt and decrypt.
    #[verifier::rlimit(100)]
    fn process_pairs(square: &Vec<Vec<char>>, v: &Vec<char>, enc: bool, ghost_key: Ghost<
        Seq<char>,
    >) -> (r: Vec<char>)
        requires
            square@.len() == 5,
            forall|i: int| 0 <= i < 5 ==> (#[trigger] square@[i]@).len() == 5,
            square_flat(square@) == pf_square(ghost_key@),
            v@.len() % 2 == 0,
        ensures
            r@ == pf_process(square_flat(square@), v@, enc),
    {
        let ghost sqf = square_flat(square@);
        let len = v.len();
        let mut out: Vec<char> = Vec::new();
        let mut i: usize = 0;
        proof {
            assert(v@.skip(0) =~= v@);
            assert(out@ + pf_process(sqf, v@, enc) =~= pf_process(sqf, v@, enc));
        }
        while i < len
            invariant
                len == v@.len(),
                len % 2 == 0,
                i <= len,
                i % 2 == 0,
                square@.len() == 5,
                forall|a: int| 0 <= a < 5 ==> (#[trigger] square@[a]@).len() == 5,
                sqf == square_flat(square@),
                sqf == pf_square(ghost_key@),
                pf_process(sqf, v@, enc) == out@ + pf_process(sqf, v@.skip(i as int), enc),
            decreases len - i,
        {
            let ghost rest = v@.skip(i as int);
            proof {
                assert(rest.len() >= 2);
                assert(rest[0] == v@[i as int]);
                assert(rest[1] == v@[i + 1]);
                assert(rest.skip(2) =~= v@.skip(i + 2));
            }
            let c1 = v[i];
            let c2 = v[i + 1];
            let (n1, n2) = Self::map_pair(square, c1, c2, enc, ghost_key);
            out.push(n1);
            out.push(n2);
            proof {
                assert(out@ =~= out@.subrange(0, out@.len() - 2) + seq![n1, n2]);
                assert(out@.subrange(0, out@.len() - 2) + (seq![n1, n2] + pf_process(
                    sqf,
                    v@.skip(i + 2),
                    enc,
                )) =~= out@ + pf_process(sqf, v@.skip(i + 2), enc));
            }
            i += 2;
        }
        proof {
            assert(v@.skip(len as int) =~= Seq::<char>::empty());
            assert(out@ + pf_process(sqf, v@.skip(len as int), enc) =~= out@);
        }
        out
    }

    /// One square entry, addressed by row and column.
    fn square_at(square: &Vec<Vec<char>>, r: usize, c: usize) -> (x: char)
        requires
            square@.len() == 5,
            forall|i: int| 0 <= i < 5 ==> (#[trigger] square@[i]@).len() == 5,
            r < 5,
            c < 5,
        ensures
            x == square_flat(square@)[r as int * 5 + c as int],
    {
        let row = &square[r];
        row[c]
    }

    /// Encrypts: the text is cleaned and split into digraphs, and each
    /// digraph is substituted through the key square.
    pub fn encrypt(text: &str, key: &str) -> (r: Result<String, CipherError>)
        ensures
            r is Ok,
            r matches Ok(out) ==> out@ == pf_process(
                pf_square(key@),
                pf_prepare(text@),
                true,
            ),
    {
        let square = Self::create_key_square(key);
        let prepared = Self::prepare_text(text);
        let pv = chars_of(prepared.as_str());
        proof {
            lemma_pf_pairs_props(pf_clean(text@));
        }
        let out = Self::process_pairs(&square, &pv, true, Ghost(key@));
        Ok(string_from_chars(&out))
    }

    /// Decrypts an even-length ciphertext digraph by digraph with the
    /// inverse square rules, then removes 'X' fillers between equal
    /// letters and a trailing 'X' pad — a heuristic that can differ
    /// from the original plaintext where it genuinely contained 'X'.
    pub fn decrypt(text: &str, key: &str) -> (r: Result<String, CipherError>)
        ensures
            r is Ok <==> text@.len() % 2 == 0,
            r matches Ok(out) ==> out@ == pf_strip(
                pf_collapse(pf_process(pf_square(key@), text@, false)),
            ),
            r matches Err(e) ==> e matches CipherError::InvalidInput(_),
    {
        let square = Self::create_key_square(key);
        let tv = chars_of(text);
        if tv.len() % 2 != 0 {
            return Err(
                CipherError::InvalidInput(
                    String::from_str("Text length must be even"),
                ),
            );
        }
        let mapped = Self::process_pairs(&square, &tv, false, Ghost(key@));
        let ghost m = mapped@;
        let mlen = mapped.len();
        let mut out: Vec<char> = Vec::new();
        let mut i: usize = 0;
        proof {
            assert(m.skip(0) =~= m);
            assert(out@ + pf_collapse(m) =~= pf_collapse(m));
        }
        while i < mlen
            invariant
                mlen == m.len(),
                mapped@ == m,
                i <= mlen,
                pf_collapse(m) == out@ + pf_collapse(m.skip(i as int)),
            decreases mlen - i,
        {
            let ghost rest = m.skip(i as int);
            proof {
                assert(rest[0] == m[i as int]);
                if rest.len() >= 3 {
                    assert(rest[1] == m[i + 1]);
                    assert(rest[2] == m[i + 2]);
                }
                assert(rest.skip(1) =~= m.skip(i + 1));
                if rest.len() >= 2 {
                    assert(rest.skip(2) =~= m.skip(i + 2));
                }
            }
            let c = mapped[i];
            if mlen - i > 2 && mapped[i + 1] == 'X' && c == mapped[i + 2] {
                out.push(c);
                proof {
                    assert(out@ =~= out@.drop_last() + seq![c]);
                    assert(out@.drop_last() + (seq![c] + pf_collapse(m.skip(i + 2))) =~= out@
                        + pf_collapse(m.skip(i + 2)));
                }
                i += 2;
            } else {
                out.push(c);
                proof {
                    assert(out@ =~= out@.drop_last() + seq![c]);
                    assert(out@.drop_last() + (seq![c] + pf_collapse(m.skip(i + 1))) =~= out@
                        + pf_collapse(m.skip(i + 1)));
                }
                i += 1;
            }
        }
        proof {
            assert(m.skip(mlen as int) =~= Seq::<char>::empty());
            assert(out@ + pf_collapse(m.skip(mlen as int)) =~= out@);
            assert(out@ == pf_collapse(m));
        }
        let olen = out.len();
        if olen > 0 {
            let last = out[olen - 1];
            if last == 'X' {
                proof {
                    assert(out@.last() == 'X');
                }
                let mut stripped = out;
                stripped.pop();
                proof {
                    assert(stripped@ =~= pf_strip(pf_collapse(m)));
                }
                return Ok(string_from_chars(&stripped));
            }
        }
        proof {
            assert(out@ =~= pf_strip(pf_collapse(m)));
        }
        Ok(string_from_chars(&out))
    }
}

/// Digraph splitting changes nothing on a text that needs no filler:
/// even length and no doubled letter.
proof fn lemma_pf_pairs_identity(s: Seq<char>)
    requires
        s.len() % 2 == 0,
        forall|i: int| 0 <= i < s.len() - 1 ==> (#[trigger] s[i]) != s[i + 1],
    ensures
        pf_pairs(s) == s,
    decreases s.len(),
{
    if s.len() == 0 {
        assert(pf_pairs(s) =~= s);
    } else {
        let t = s.skip(2);
        assert forall|i: int| 0 <= i < t.len() - 1 implies (#[trigger] t[i]) != t[i + 1] by {
            assert(t[i] == s[i + 2]);
            assert(t[i + 1] == s[i + 3]);
        }
        lemma_pf_pairs_identity(t);
        assert(pf_pairs(s) =~= s);
    }
}

/// One digraph comes back unchanged from an encrypting and then a
/// decrypting pass through the square.
#[verifier::rlimit(100)]
proof fn lemma_pf_pair_round(sq: Seq<char>, a: char, b: char)
    requires
        sq.len() == 25,
        sq.no_duplicates(),
        sq.contains(a),
        sq.contains(b),
    ensures
        ({
            let e = pf_map_pair(sq, a, b, true);
            pf_map_pair(sq, e[0], e[1], false) == seq![a, b]
        }),
{
    let wa = choose|i: int| 0 <= i < sq.len() && sq[i] == a;
    let wb = choose|i: int| 0 <= i < sq.len() && sq[i] == b;
    assert(exists|p: int| 0 <= p < 25 && sq[p] == a);
    assert(exists|p: int| 0 <= p < 25 && sq[p] == b);
    let pa = pos_of(sq, a);
    let pb = pos_of(sq, b);
    assert(0 <= pa < 25 && sq[pa] == a);
    assert(0 <= pb < 25 && sq[pb] == b);
    let ra = pa / 5;
    let ca = pa % 5;
    let rb = pb / 5;
    let cb = pb % 5;
    assert(0 <= ra < 5 && 0 <= ca < 5 && 0 <= rb < 5 && 0 <= cb < 5);
    lemma_fundamental_div_mod_converse(pa, 5, ra, ca);
    lemma_fundamental_div_mod_converse(pb, 5, rb, cb);
    let e = pf_map_pair(sq, a, b, true);
    if ra == rb {
        let p1 = ra * 5 + (ca + 1) % 5;
        let p2 = rb * 5 + (cb + 1) % 5;
        assert(0 <= p1 < 25 && 0 <= p2 < 25);
        assert(e == seq![sq[p1], sq[p2]]);
        lemma_pos_unique(sq, sq[p1], p1);
        lemma_pos_unique(sq, sq[p2], p2);
        lemma_fundamental_div_mod_converse(p1, 5, ra, (ca + 1) % 5);
        lemma_fundamental_div_mod_converse(p2, 5, rb, (cb + 1) % 5);
        assert(((ca + 1) % 5 + 4) % 5 == ca);
        assert(((cb + 1) % 5 + 4) % 5 == cb);
        assert(pf_map_pair(sq, e[0], e[1], false) =~= seq![a, b]);
    } else if ca == cb {
        let p1 = ((ra + 1) % 5) * 5 + ca;
        let p2 = ((rb + 1) % 5) * 5 + cb;
        assert(0 <= p1 < 25 && 0 <= p2 < 25);
        assert(e == seq![sq[p1], sq[p2]]);
        lemma_pos_unique(sq, sq[p1], p1);
        lemma_pos_unique(sq, sq[p2], p2);
        lemma_fundamental_div_mod_converse(p1, 5, (ra + 1) % 5, ca);
        lemma_fundamental_div_mod_converse(p2, 5, (rb + 1) % 5, cb);
        assert((ra + 1) % 5 != (rb + 1) % 5);
        assert(((ra + 1) % 5 + 4) % 5 == ra);
        assert(((rb + 1) % 5 + 4) % 5 == rb);
        assert(pf_map_pair(sq, e[0], e[1], false) =~= seq![a, b]);
    } else {
        let p1 = ra * 5 + cb;
        let p2 = rb * 5 + ca;
        assert(0 <= p1 < 25 && 0 <= p2 < 25);
        assert(e == seq![sq[p1], sq[p2]]);
        lemma_pos_unique(sq, sq[p1], p1);
        lemma_pos_unique(sq, sq[p2], p2);
        lemma_fundamental_div_mod_converse(p1, 5, ra, cb);
        lemma_fundamental_div_mod_converse(p2, 5, rb, ca);
        assert(pf_map_pair(sq, e[0], e[1], false) =~= seq![a, b]);
    }
}

/// A whole even-length text of square letters comes back unchanged from
/// the digraph map run forward and then backward.
proof fn lemma_pf_process_round(sq: Seq<char>, s: Seq<char>)
    requires
        sq.len() == 25,
        sq.no_duplicates(),
        s.len() % 2 == 0,
        forall|i: int| 0 <= i < s.len() ==> sq.contains(#[trigger] s[i]),
    ensures
        pf_process(sq, pf_process(sq, s, true), false) == s,
    decreases s.len(),
{
    if s.len() == 0 {
        assert(pf_process(sq, s, true) =~= Seq::<char>::empty());
    } else {
        let e = pf_map_pair(sq, s[0], s[1], true);
        assert(e.len() == 2);
        let rest = s.skip(2);
        let enc = pf_process(sq, s, true);
        assert(enc == e + pf_process(sq, rest, true));
        assert(enc[0] == e[0] && enc[1] == e[1]);
        assert(enc.skip(2) =~= pf_process(sq, rest, true));
        lemma_pf_pair_round(sq, s[0], s[1]);
        assert forall|i: int| 0 <= i < rest.len() implies sq.contains(#[trigger] rest[i]) by {
            assert(rest[i] == s[i + 2]);
        }
        lemma_pf_process_round(sq, rest);
        assert(pf_process(sq, enc, false) == pf_map_pair(sq, e[0], e[1], false) + pf_process(
            sq,
            enc.skip(2),
            false,
        ));
        assert(seq![s[0], s[1]] + rest =~= s);
    }
}

/// Filler removal changes nothing on a text that holds no 'X' between
/// two equal letters.
proof fn lemma_pf_collapse_identity(s: Seq<char>)
    requires
        forall|i: int| 0 <= i < s.len() - 2 ==> !(s[i + 1] == 'X' && (#[trigger] s[i]) == s[i + 2]),
    ensures
        pf_collapse(s) == s,
    decreases s.len(),
{
    if s.len() == 0 {
    } else {
        let t = s.skip(1);
        assert forall|i: int|
            0 <= i < t.len() - 2 implies !(t[i + 1] == 'X' && (#[trigger] t[i]) == t[i + 2]) by {
            assert(t[i] == s[i + 1]);
            assert(t[i + 1] == s[i + 2]);
            assert(t[i + 2] == s[i + 3]);
        }
        lemma_pf_collapse_identity(t);
        assert(seq![s[0]] + t =~= s);
    }
}

/// The Playfair round trip: where the cleaned text needed no filler and
/// no padding — even length, no doubled letter, no 'X' between two
/// equal letters, not ending in 'X' — decrypting the encryption
/// restores the cleaned text. Outside these conditions the reversal is
/// the documented lossy heuristic.
pub proof fn lemma_playfair_round_trip(t: Seq<char>, key: Seq<char>)
    requires
        pf_clean(t).len() % 2 == 0,
        forall|i: int|
            0 <= i < pf_clean(t).len() - 1 ==> (#[trigger] pf_clean(t)[i]) != pf_clean(t)[i + 1],
        forall|i: int|
            0 <= i < pf_clean(t).len() - 2 ==> !(pf_clean(t)[i + 1] == 'X' && (#[trigger] pf_clean(
                t,
            )[i]) == pf_clean(t)[i + 2]),
        pf_clean(t).len() > 0 ==> pf_clean(t).last() != 'X',
    ensures
        pf_strip(
            pf_collapse(
                pf_process(
                    pf_square(key),
                    pf_process(pf_square(key), pf_prepare(t), true),
                    false,
                ),
            ),
        ) == pf_clean(t),
{
    let s = pf_clean(t);
    let sq = pf_square(key);
    lemma_pf_square_props(key);
    lemma_pf_clean_elems(t);
    lemma_pf_pairs_identity(s);
    assert(pf_prepare(t) == s);
    assert forall|i: int| 0 <= i < s.len() implies sq.contains(#[trigger] s[i]) by {
        assert(is_upper(s[i]) && s[i] != 'J');
    }
    lemma_pf_process_round(sq, s);
    lemma_pf_collapse_identity(s);
}

/// In a duplicate-free square a character sits at exactly one position,
/// the one `pos_of` denotes.
proof fn lemma_pos_unique(sq: Seq<char>, c: char, p: int)
    requires
        sq.len() == 25,
        sq.no_duplicates(),
        0 <= p < 25,
        sq[p] == c,
    ensures
        pos_of(sq, c) == p,
{
    assert(sq.contains(c));
    let q = choose|k: int| 0 <= k < 25 && sq[k] == c;
    if q != p {
        assert(sq[q] == sq[p]);
    }
}

} // verus!
