//! Hill cipher: polygraphic substitution by an n×n key matrix mod 26
//! (n ∈ {2,3} for decryption), with modular matrix inversion via the
//! extended Euclidean algorithm.

use vstd::prelude::*;
use vstd::string::StringExecFns;
use crate::alphabet::{
    normalize_index, char_to_index, index_to_char, letter_index, upper_letter, letter_at, is_letter,
};
use crate::vigenere::all_letters;
use crate::text::string_from_chars;
use crate::error::CipherError;
use crate::numbers::{parse_i32, is_i32_literal, int_val};
use crate::text::chars_of;
use vstd::arithmetic::div_mod::{
    lemma_fundamental_div_mod, lemma_mod_multiples_basic, lemma_mod_equivalence,
    lemma_mul_mod_noop_right, lemma_add_mod_noop_right, lemma_small_mod,
    lemma_mod_multiples_vanish,
};

verus! {

/// Absolute value over the mathematical integers.
pub open spec fn iabs(x: int) -> int {
    if x < 0 {
        -x
    } else {
        x
    }
}

/// Greatest common divisor by Euclid's recurrence (of non-negative
/// arguments; the second argument clamps at 0).
pub open spec fn gcd(a: int, b: int) -> int
    decreases b,
{
    if b <= 0 {
        a
    } else {
        gcd(b, a % b)
    }
}

/// The partial dot product of the first `k` positions of `row` and `v`.
pub open spec fn dot(row: Seq<int>, v: Seq<int>, k: int) -> int
    decreases k,
{
    if k <= 0 {
        0
    } else {
        dot(row, v, k - 1) + row[k - 1] * v[k - 1]
    }
}

/// The matrix–vector product mod 26, one residue per matrix row.
pub open spec fn matvec(m: Seq<Seq<int>>, v: Seq<int>) -> Seq<int> {
    Seq::new(m.len(), |i: int| dot(m[i], v, v.len() as int) % 26)
}

/// `m` is a square matrix of residues mod 26.
pub open spec fn matrix_wf(m: Seq<Seq<int>>) -> bool {
    &&& forall|i: int| 0 <= i < m.len() ==> (#[trigger] m[i]).len() == m.len()
    &&& forall|i: int, j: int|
        0 <= i < m.len() && 0 <= j < m.len() ==> 0 <= #[trigger] m[i][j] < 26
}

/// The mathematical values of a vector of machine integers.
pub open spec fn row_view(r: Seq<i32>) -> Seq<int> {
    r.map_values(|x: i32| x as int)
}

/// The mathematical values of a matrix of machine integers.
pub open spec fn mat_view(m: Seq<Vec<i32>>) -> Seq<Seq<int>> {
    m.map_values(|r: Vec<i32>| row_view(r@))
}

/// `c` is a whitespace character (the Unicode White_Space set), the
/// separators accepted in a Hill key string.
pub open spec fn is_space(c: char) -> bool {
    ||| c == ' '
    ||| c == '\t'
    ||| c == '\n'
    ||| c == '\r'
    ||| c == '\u{b}'
    ||| c == '\u{c}'
    ||| c == '\u{85}'
    ||| c == '\u{a0}'
    ||| c == '\u{1680}'
    ||| ('\u{2000}' <= c && c <= '\u{200a}')
    ||| c == '\u{2028}'
    ||| c == '\u{2029}'
    ||| c == '\u{202f}'
    ||| c == '\u{205f}'
    ||| c == '\u{3000}'
}

/// Whitespace-splitting, one character at a time: `cur` is the token
/// being gathered, finished tokens are emitted in order.
pub open spec fn tokens_acc(s: Seq<char>, cur: Seq<char>) -> Seq<Seq<char>>
    decreases s.len(),
{
    if s.len() == 0 {
        if cur.len() > 0 {
            seq![cur]
        } else {
            Seq::empty()
        }
    } else if is_space(s.first()) {
        if cur.len() > 0 {
            seq![cur] + tokens_acc(s.drop_first(), Seq::empty())
        } else {
            tokens_acc(s.drop_first(), Seq::empty())
        }
    } else {
        tokens_acc(s.drop_first(), cur.push(s.first()))
    }
}

/// The whitespace-separated tokens of a key string.
pub open spec fn tokens_of(s: Seq<char>) -> Seq<Seq<char>> {
    tokens_acc(s, Seq::empty())
}

/// Every token of the key parses as an `i32`.
pub open spec fn tokens_ok(s: Seq<char>) -> bool {
    forall|i: int| 0 <= i < tokens_of(s).len() ==> is_i32_literal(#[trigger] tokens_of(s)[i])
}

/// The token count is a non-trivial perfect square.
pub open spec fn hill_dims_ok(s: Seq<char>) -> bool {
    exists|n: int| 1 <= n && #[trigger] (n * n) == tokens_of(s).len()
}

/// A Hill key is well-formed when its tokens are integers and their
/// count is a perfect square n*n with n at least 1.
pub open spec fn hill_key_ok(s: Seq<char>) -> bool {
    tokens_ok(s) && hill_dims_ok(s)
}

/// The dimension n of a well-formed key.
pub open spec fn hill_dim(s: Seq<char>) -> int {
    choose|n: int| 1 <= n && #[trigger] (n * n) == tokens_of(s).len()
}

/// The key matrix: tokens in row-major order, each reduced to its
/// residue mod 26.
pub open spec fn hill_matrix(s: Seq<char>) -> Seq<Seq<int>> {
    let n = hill_dim(s);
    Seq::new(
        n as nat,
        |i: int| Seq::new(n as nat, |j: int| int_val(tokens_of(s)[i * n + j]) % 26),
    )
}

/// The views of a vector of gathered tokens.
pub open spec fn views_of(ts: Seq<Vec<char>>) -> Seq<Seq<char>> {
    ts.map_values(|t: Vec<char>| t@)
}

/// Determinant of a 2x2 matrix.
pub open spec fn det2(m: Seq<Seq<int>>) -> int {
    m[0][0] * m[1][1] - m[0][1] * m[1][0]
}

/// Determinant of a 3x3 matrix by cofactor expansion along the first row.
pub open spec fn det3(m: Seq<Seq<int>>) -> int {
    m[0][0] * (m[1][1] * m[2][2] - m[1][2] * m[2][1]) - m[0][1] * (m[1][0] * m[2][2] - m[1][2]
        * m[2][0]) + m[0][2] * (m[1][0] * m[2][1] - m[1][1] * m[2][0])
}

/// The determinant of a 2x2 or 3x3 key matrix, reduced mod 26.
pub open spec fn hill_det(m: Seq<Seq<int>>) -> int {
    if m.len() == 2 {
        det2(m) % 26
    } else {
        det3(m) % 26
    }
}

/// The 2x2 minor of a 3x3 matrix obtained by deleting row `i` and
/// column `j`.
pub open spec fn minor3(m: Seq<Seq<int>>, i: int, j: int) -> int {
    let r1 = if i == 0 { 1int } else { 0int };
    let r2 = if i == 2 { 1int } else { 2int };
    let c1 = if j == 0 { 1int } else { 0int };
    let c2 = if j == 2 { 1int } else { 2int };
    m[r1][c1] * m[r2][c2] - m[r1][c2] * m[r2][c1]
}

/// The signed cofactor of entry (i, j) of a 3x3 matrix.
pub open spec fn cof3(m: Seq<Seq<int>>, i: int, j: int) -> int {
    if (i + j) % 2 == 0 {
        minor3(m, i, j)
    } else {
        -minor3(m, i, j)
    }
}

/// The residue mod 26 that is the multiplicative inverse of `a`, where
/// one exists.
pub open spec fn inv26(a: int) -> int {
    choose|b: int| 0 <= b < 26 && #[trigger] ((a * b) % 26) == 1
}

/// The modular inverse of a 2x2 matrix: adjugate times inverse
/// determinant, entries reduced mod 26.
pub open spec fn hill_inv2(m: Seq<Seq<int>>, di: int) -> Seq<Seq<int>> {
    seq![
        seq![(m[1][1] * di) % 26, ((-m[0][1]) * di) % 26],
        seq![((-m[1][0]) * di) % 26, (m[0][0] * di) % 26],
    ]
}

/// The modular inverse of a 3x3 matrix: transposed cofactors times
/// inverse determinant, entries reduced mod 26.
pub open spec fn hill_inv3(m: Seq<Seq<int>>, di: int) -> Seq<Seq<int>> {
    Seq::new(3, |r: int| Seq::new(3, |c: int| (cof3(m, c, r) * di) % 26))
}

/// The modular inverse of a 2x2 or 3x3 key matrix.
pub open spec fn hill_inverse(m: Seq<Seq<int>>) -> Seq<Seq<int>> {
    if m.len() == 2 {
        hill_inv2(m, inv26(hill_det(m)))
    } else {
        hill_inv3(m, inv26(hill_det(m)))
    }
}

/// A residue has at most one multiplicative inverse mod 26.
proof fn lemma_inv26_unique(a: int, b1: int, b2: int)
    requires
        0 <= b1 < 26,
        0 <= b2 < 26,
        (a * b1) % 26 == 1,
        (a * b2) % 26 == 1,
    ensures
        b1 == b2,
{
    lemma_mul_mod_noop_right(b1, a * b2, 26);
    lemma_small_mod(b1 as nat, 26);
    lemma_mul_mod_noop_right(b2, a * b1, 26);
    lemma_small_mod(b2 as nat, 26);
    assert(b1 * (a * b2) == b2 * (a * b1)) by (nonlinear_arith);
    assert(b1 == (b1 * (a * b2)) % 26);
    assert(b2 == (b2 * (a * b1)) % 26);
}

/// The alphabet positions of a text's characters, case-insensitive;
/// -1 marks a non-letter.
pub open spec fn hill_indices(s: Seq<char>) -> Seq<int> {
    s.map_values(|c: char| letter_index(c))
}

/// The Hill transform of a sequence of letter positions: consumed in
/// blocks of n (the matrix dimension), each block multiplied by the
/// matrix mod 26; a short final block is padded with 23 ('X').
pub open spec fn hill_blocks(m: Seq<Seq<int>>, v: Seq<int>) -> Seq<int>
    decreases v.len(),
{
    let n = m.len() as int;
    if v.len() == 0 || n <= 0 {
        Seq::empty()
    } else if v.len() < n {
        matvec(m, v + Seq::new((n - v.len()) as nat, |_j: int| 23int))
    } else {
        matvec(m, v.take(n)) + hill_blocks(m, v.skip(n))
    }
}

/// Letter positions rendered as uppercase letters.
pub open spec fn upper_letters(ix: Seq<int>) -> Seq<char> {
    ix.map_values(|i: int| upper_letter(i))
}

/// A positive square root is unique.
proof fn lemma_sqrt_unique(n1: int, n2: int, c: int)
    requires
        1 <= n1,
        1 <= n2,
        n1 * n1 == c,
        n2 * n2 == c,
    ensures
        n1 == n2,
{
    assert((n1 - n2) * (n1 + n2) == 0) by (nonlinear_arith)
        requires
            n1 * n1 == c,
            n2 * n2 == c,
    ;
    assert(n1 == n2) by (nonlinear_arith)
        requires
            (n1 - n2) * (n1 + n2) == 0,
            1 <= n1,
            1 <= n2,
    ;
}

pub struct HillCipher;

impl HillCipher {
    /// The modular inverse of `a` mod `m` by the extended Euclidean
    /// algorithm: `Some(b)` with `a*b ≡ 1 (mod m)` exactly when
    /// `gcd(a, m) == 1`, `None` otherwise.
    pub fn mod_inverse(a: i32, m: i32) -> (r: Option<i32>)
        requires
            1 <= m,
            0 <= a < m,
        ensures
            r is Some <==> gcd(m as int, a as int) == 1,
            r matches Some(b) ==> 0 <= b < m && (a as int * b as int) % (m as int) == 1int % (
            m as int),
    {
        let m64: i64 = m as i64;
        let mut t0: i64 = 0;
        let mut t1: i64 = 1;
        let mut r0: i64 = m64;
        let mut r1: i64 = a as i64;
        proof {
            lemma_mod_multiples_basic(0, m as int);
            assert((t0 * a - r0) % (m as int) == 0) by {
                assert(t0 * a - r0 == (-1) * m) by (nonlinear_arith)
                    requires
                        t0 == 0,
                        r0 == m,
                ;
                lemma_mod_multiples_basic(-1, m as int);
            }
            assert((t1 * a - r1) % (m as int) == 0) by {
                assert(t1 * a - r1 == 0) by (nonlinear_arith)
                    requires
                        t1 == 1,
                        r1 == a,
                ;
                lemma_mod_multiples_basic(0, m as int);
            }
            assert(iabs(t0 as int) == 0 && iabs(t1 as int) == 1);
            assert(iabs(t0 as int) * (r1 as int) == 0 && iabs(t1 as int) * (r0 as int) == m as int)
                by (nonlinear_arith)
                requires
                    iabs(t0 as int) == 0,
                    iabs(t1 as int) == 1,
                    r0 == m as int,
            ;
        }
        while r1 != 0
            invariant
                1 <= m,
                0 <= a < m,
                m64 == m as i64,
                1 <= r0,
                0 <= r1 < r0,
                r0 <= m,
                gcd(r0 as int, r1 as int) == gcd(m as int, a as int),
                (t0 * a - r0) % (m as int) == 0,
                (t1 * a - r1) % (m as int) == 0,
                iabs(t0 as int) * r1 + iabs(t1 as int) * r0 <= m,
                iabs(t0 as int) <= m,
                iabs(t1 as int) <= m,
            decreases r1,
        {
            proof {
                lemma_fundamental_div_mod(r0 as int, r1 as int);
            }
            let q = r0 / r1;
            proof {
                assert(0 <= q);
                assert(q * r1 <= r0) by (nonlinear_arith)
                    requires
                        r0 == r1 * q + (r0 as int % r1 as int),
                        r0 as int % r1 as int >= 0,
                ;
                assert(q <= r0) by (nonlinear_arith)
                    requires
                        q * r1 <= r0,
                        q >= 0,
                        r1 >= 1,
                ;
                assert(-(m as int) <= t0 <= m as int);
                assert(-(m as int) <= t1 <= m as int);
                assert(-4611686014132420609int <= q * t1 <= 4611686014132420609int)
                    by (nonlinear_arith)
                    requires
                        0 <= q <= 2147483647int,
                        -2147483647int <= t1 <= 2147483647int,
                ;
            }
            let r2 = r0 - q * r1;
            let t2 = t0 - q * t1;
            proof {
                // The remainder pair steps exactly as Euclid's recurrence.
                assert(r2 == r0 as int % r1 as int);
                assert(gcd(r1 as int, r2 as int) == gcd(m as int, a as int));
                // Both Bezout congruences are preserved.
                let x0 = t0 * a - r0;
                let x1 = t1 * a - r1;
                let x2 = t2 * a - r2;
                lemma_fundamental_div_mod(x0, m as int);
                lemma_fundamental_div_mod(x1, m as int);
                let k0 = x0 / (m as int);
                let k1 = x1 / (m as int);
                assert(x2 == (k0 - q * k1) * (m as int)) by (nonlinear_arith)
                    requires
                        x0 == t0 * a - r0,
                        x1 == t1 * a - r1,
                        x2 == t2 * a - r2,
                        t2 == t0 - q * t1,
                        r2 == r0 - q * r1,
                        x0 == (m as int) * k0,
                        x1 == (m as int) * k1,
                ;
                lemma_mod_multiples_basic(k0 - q * k1, m as int);
                assert((t2 * a - r2) % (m as int) == 0);
                // The coefficient bound is preserved, by the triangle
                // inequality and r2 + q * r1 == r0.
                let a0 = iabs(t0 as int);
                let a1 = iabs(t1 as int);
                let a2 = iabs(t2 as int);
                assert(-a0 <= t0 <= a0 && 0 <= a0);
                assert(-a1 <= t1 <= a1 && 0 <= a1);
                assert(-a2 <= t2 <= a2 && 0 <= a2 && (a2 == t2 || a2 == -(t2 as int)));
                assert(a2 <= a0 + q * a1) by (nonlinear_arith)
                    requires
                        t2 == t0 - q * t1,
                        q >= 0,
                        -a0 <= t0 <= a0,
                        -a1 <= t1 <= a1,
                        a2 == t2 || a2 == -(t2 as int),
                ;
                assert(a2 * r1 + a1 * r2 <= m) by (nonlinear_arith)
                    requires
                        a0 * r1 + a1 * r0 <= m,
                        r2 == r0 - q * r1,
                        a2 <= a0 + q * a1,
                        0 <= q,
                        0 <= r2,
                        1 <= r1,
                        0 <= a0,
                        0 <= a1,
                        0 <= a2,
                ;
                assert(a2 <= m) by (nonlinear_arith)
                    requires
                        a2 * r1 + a1 * r2 <= m,
                        1 <= r1,
                        0 <= r2,
                        0 <= a1,
                        0 <= a2,
                ;
            }
            t0 = t1;
            t1 = t2;
            r0 = r1;
            r1 = r2;
        }
        if r0 > 1 {
            None
        } else {
            proof {
                assert(gcd(r0 as int, 0) == r0 as int);
                assert(gcd(m as int, a as int) == 1);
            }
            let b = if t0 < 0 {
                t0 + m64
            } else if t0 >= m64 {
                t0 - m64
            } else {
                t0
            };
            proof {
                let bi = b as int;
                let ti = t0 as int;
                let mi = m as int;
                assert(0 <= bi < mi);
                assert((ti - bi) % mi == 0) by {
                    assert(ti - bi == 0 * mi || ti - bi == (-1) * mi || ti - bi == 1 * mi);
                    lemma_mod_multiples_basic(0, mi);
                    lemma_mod_multiples_basic(-1, mi);
                    lemma_mod_multiples_basic(1, mi);
                }
                lemma_mod_equivalence(ti, bi, mi);
                lemma_small_mod(bi as nat, mi as nat);
                lemma_mul_mod_noop_right(a as int, ti, mi);
                lemma_mul_mod_noop_right(a as int, bi, mi);
                assert((a as int * bi) % mi == (a as int * ti) % mi);
                assert((ti * a - 1) % mi == 0);
                lemma_mod_equivalence(ti * a, 1, mi);
                assert((a as int * ti) % mi == 1int % mi) by (nonlinear_arith)
                    requires
                        (ti * a as int) % mi == 1int % mi,
                ;
            }
            Some(b as i32)
        }
    }

    /// One entry of a key matrix, widened for determinant arithmetic.
    fn getm(m: &Vec<Vec<i32>>, i: usize, j: usize) -> (r: i64)
        requires
            matrix_wf(mat_view(m@)),
            i < m@.len(),
            j < m@.len(),
        ensures
            r == mat_view(m@)[i as int][j as int],
            0 <= r < 26,
    {
        proof {
            assert(mat_view(m@)[i as int] == row_view(m@[i as int]@));
            assert(0 <= mat_view(m@)[i as int][j as int] < 26);
        }
        let row = &m[i];
        row[j] as i64
    }

    /// A product of two small factors, computed without overflow; the
    /// extra clauses hand small ranges back to the callers.
    fn mul_small(x: i64, y: i64) -> (r: i64)
        requires
            -46875 <= x <= 46875,
            -46875 <= y <= 46875,
        ensures
            r == x * y,
            (0 <= x < 26 && 0 <= y < 26) ==> 0 <= r < 676,
            (-676 < x < 676 && -26 < y < 26) ==> -17576 < r < 17576,
            (-26 < x < 26 && -676 < y < 676) ==> -17576 < r < 17576,
    {
        proof {
            assert(-2197265625 <= x * y <= 2197265625) by (nonlinear_arith)
                requires
                    -46875 <= x <= 46875,
                    -46875 <= y <= 46875,
            ;
            assert((0 <= x < 26 && 0 <= y < 26) ==> 0 <= x * y < 676) by (nonlinear_arith);
            assert((-676 < x < 676 && -26 < y < 26) ==> -17576 < x * y < 17576)
                by (nonlinear_arith);
            assert((-26 < x < 26 && -676 < y < 676) ==> -17576 < x * y < 17576)
                by (nonlinear_arith);
        }
        x * y
    }

    /// The canonical residue mod 26 of a small signed value.
    fn mod26_i64(x: i64) -> (r: i64)
        ensures
            r == (x as int) % 26,
            0 <= r < 26,
    {
        let r = x % 26;
        if r < 0 {
            r + 26
        } else {
            r
        }
    }

    /// Inverts a 2x2 or 3x3 key matrix mod 26 by determinant and
    /// adjugate; fails on any other size and on a determinant with no
    /// inverse mod 26.
    pub fn matrix_inverse(matrix: &Vec<Vec<i32>>) -> (r: Result<Vec<Vec<i32>>, CipherError>)
        requires
            matrix_wf(mat_view(matrix@)),
        ensures
            r is Ok <==> ((mat_view(matrix@).len() == 2 || mat_view(matrix@).len() == 3) && gcd(
                26,
                hill_det(mat_view(matrix@)),
            ) == 1),
            r matches Ok(inv) ==> {
                &&& mat_view(inv@) == hill_inverse(mat_view(matrix@))
                &&& matrix_wf(mat_view(inv@))
                &&& inv@.len() == matrix@.len()
            },
            r matches Err(e) ==> e matches CipherError::InvalidKey(_),
    {
        let ghost mm = mat_view(matrix@);
        let n = matrix.len();
        if n != 2 && n != 3 {
            return Err(
                CipherError::InvalidKey(
                    String::from_str("Only 2x2 and 3x3 matrices are supported"),
                ),
            );
        }
        let d: i64;
        if n == 2 {
            let a00 = Self::getm(matrix, 0, 0);
            let a01 = Self::getm(matrix, 0, 1);
            let a10 = Self::getm(matrix, 1, 0);
            let a11 = Self::getm(matrix, 1, 1);
            d = Self::mod26_i64(Self::mul_small(a00, a11) - Self::mul_small(a01, a10));
            proof {
                assert(d == hill_det(mm));
            }
        } else {
            let a00 = Self::getm(matrix, 0, 0);
            let a01 = Self::getm(matrix, 0, 1);
            let a02 = Self::getm(matrix, 0, 2);
            let a10 = Self::getm(matrix, 1, 0);
            let a11 = Self::getm(matrix, 1, 1);
            let a12 = Self::getm(matrix, 1, 2);
            let a20 = Self::getm(matrix, 2, 0);
            let a21 = Self::getm(matrix, 2, 1);
            let a22 = Self::getm(matrix, 2, 2);
            let p0 = Self::mul_small(a00, Self::mul_small(a11, a22) - Self::mul_small(a12, a21));
            let p1 = Self::mul_small(a01, Self::mul_small(a10, a22) - Self::mul_small(a12, a20));
            let p2 = Self::mul_small(a02, Self::mul_small(a10, a21) - Self::mul_small(a11, a20));
            d = Self::mod26_i64(p0 - p1 + p2);
            proof {
                assert(d == hill_det(mm));
            }
        }
        match Self::mod_inverse(d as i32, 26) {
            None => Err(CipherError::InvalidKey(String::from_str("Matrix is not invertible"))),
            Some(di) => {
                proof {
                    assert((hill_det(mm) * di as int) % 26 == 1);
                    assert(0 <= inv26(hill_det(mm)) < 26 && (hill_det(mm) * inv26(hill_det(mm)))
                        % 26 == 1);
                    lemma_inv26_unique(hill_det(mm), di as int, inv26(hill_det(mm)));
                    assert(di as int == inv26(hill_det(mm)));
                }
                let di64 = di as i64;
                if n == 2 {
                    let a00 = Self::getm(matrix, 0, 0);
                    let a01 = Self::getm(matrix, 0, 1);
                    let a10 = Self::getm(matrix, 1, 0);
                    let a11 = Self::getm(matrix, 1, 1);
                    let e00 = Self::mod26_i64(Self::mul_small(a11, di64)) as i32;
                    let e01 = Self::mod26_i64(Self::mul_small(-a01, di64)) as i32;
                    let e10 = Self::mod26_i64(Self::mul_small(-a10, di64)) as i32;
                    let e11 = Self::mod26_i64(Self::mul_small(a00, di64)) as i32;
                    let mut inv: Vec<Vec<i32>> = Vec::new();
                    let mut row0: Vec<i32> = Vec::new();
                    row0.push(e00);
                    row0.push(e01);
                    let mut row1: Vec<i32> = Vec::new();
                    row1.push(e10);
                    row1.push(e11);
                    inv.push(row0);
                    inv.push(row1);
                    proof {
                        assert(mat_view(inv@)[0] =~= hill_inverse(mm)[0]);
                        assert(mat_view(inv@)[1] =~= hill_inverse(mm)[1]);
                        assert(mat_view(inv@) =~~= hill_inverse(mm));
                        assert(matrix_wf(mat_view(inv@)));
                    }
                    Ok(inv)
                } else {
                    let mut inv: Vec<Vec<i32>> = Vec::new();
                    let mut rr: usize = 0;
                    while rr < 3
                        invariant
                            mm == mat_view(matrix@),
                            matrix_wf(mm),
                            matrix@.len() == 3,
                            -46875 <= di64 <= 46875,
                            di64 == inv26(hill_det(mm)),
                            rr <= 3,
                            inv@.len() == rr,
                            forall|x: int|
                                0 <= x < rr ==> (#[trigger] mat_view(inv@)[x]) =~= hill_inv3(
                                    mm,
                                    di64 as int,
                                )[x],
                        decreases 3 - rr,
                    {
                        let mut row: Vec<i32> = Vec::new();
                        let mut cc: usize = 0;
                        while cc < 3
                            invariant
                                mm == mat_view(matrix@),
                                matrix_wf(mm),
                                matrix@.len() == 3,
                                -46875 <= di64 <= 46875,
                                di64 == inv26(hill_det(mm)),
                                rr < 3,
                                cc <= 3,
                                row@.len() == cc,
                                forall|y: int|
                                    0 <= y < cc ==> (#[trigger] row@[y]) as int == hill_inv3(
                                        mm,
                                        di64 as int,
                                    )[rr as int][y] && 0 <= row@[y] < 26,
                            decreases 3 - cc,
                        {
                            let ei = cc;
                            let ej = rr;
                            let r1: usize = if ei == 0 { 1 } else { 0 };
                            let r2: usize = if ei == 2 { 1 } else { 2 };
                            let c1: usize = if ej == 0 { 1 } else { 0 };
                            let c2: usize = if ej == 2 { 1 } else { 2 };
                            let minor = Self::mul_small(
                                Self::getm(matrix, r1, c1),
                                Self::getm(matrix, r2, c2),
                            ) - Self::mul_small(
                                Self::getm(matrix, r1, c2),
                                Self::getm(matrix, r2, c1),
                            );
                            let cof = if (ei + ej) % 2 == 0 {
                                minor
                            } else {
                                -minor
                            };
                            let e = Self::mod26_i64(Self::mul_small(cof, di64)) as i32;
                            proof {
                                assert(minor == minor3(mm, cc as int, rr as int));
                                assert(cof == cof3(mm, cc as int, rr as int));
                                assert(e as int == hill_inv3(mm, di64 as int)[rr as int][
                                    cc as int]);
                            }
                            row.push(e);
                            cc += 1;
                        }
                        let ghost old_inv = inv@;
                        inv.push(row);
                        rr += 1;
                        proof {
                            assert(mat_view(inv@)[rr - 1] == row_view(row@));
                            assert(mat_view(inv@)[rr - 1] =~= hill_inv3(mm, di64 as int)[rr - 1]);
                            assert forall|x: int| 0 <= x < rr - 1 implies (#[trigger] mat_view(
                                inv@,
                            )[x]) =~= hill_inv3(mm, di64 as int)[x] by {
                                assert(inv@[x] == old_inv[x]);
                                assert(mat_view(inv@)[x] == row_view(inv@[x]@));
                                assert(mat_view(old_inv)[x] == row_view(old_inv[x]@));
                            }
                        }
                    }
                    proof {
                        assert(mat_view(inv@) =~~= hill_inv3(mm, di64 as int));
                        assert(matrix_wf(mat_view(inv@)));
                    }
                    Ok(inv)
                }
            },
        }
    }

    /// Runs the block transform shared by encrypt and decrypt: gathers
    /// letter positions block by block, multiplies by the matrix, and
    /// renders uppercase letters. With `pad`, a short final block is
    /// filled with 23; without it, a short final block is an error.
    fn apply_blocks(text: &str, mx: &Vec<Vec<i32>>, pad: bool) -> (r: Result<
        String,
        CipherError,
    >)
        requires
            matrix_wf(mat_view(mx@)),
            1 <= mx@.len(),
        ensures
            pad ==> (r is Ok <==> all_letters(text@)),
            !pad ==> (r is Ok <==> (all_letters(text@) && text@.len() as int % (mx@.len() as int) == 0)),
            r matches Ok(out) ==> out@ == upper_letters(
                hill_blocks(mat_view(mx@), hill_indices(text@)),
            ),
            r matches Err(e) ==> e matches CipherError::InvalidInput(_),
    {
        let t = chars_of(text);
        let len = t.len();
        let n = mx.len();
        let ghost ix = hill_indices(text@);
        let ghost mm = mat_view(mx@);
        let mut out: Vec<char> = Vec::new();
        let mut i: usize = 0;
        proof {
            assert(ix.skip(0) =~= ix);
            assert(out@ + upper_letters(hill_blocks(mm, ix)) =~= upper_letters(
                hill_blocks(mm, ix),
            ));
        }
        while i < len
            invariant
                len == text@.len(),
                t@ == text@,
                n == mx@.len(),
                1 <= n,
                mm == mat_view(mx@),
                matrix_wf(mm),
                ix == hill_indices(text@),
                ix.len() == len,
                i <= len,
                !pad ==> i as int % n as int == 0,
                forall|j: int| 0 <= j < i ==> is_letter(#[trigger] text@[j]),
                upper_letters(hill_blocks(mm, ix)) == out@ + upper_letters(
                    hill_blocks(mm, ix.skip(i as int)),
                ),
            decreases len - i,
        {
            let rem = len - i;
            let bsize = if rem < n {
                rem
            } else {
                n
            };
            let ghost rest = ix.skip(i as int);
            let mut block: Vec<i32> = Vec::new();
            let mut j: usize = 0;
            while j < bsize
                invariant
                    len == text@.len(),
                    t@ == text@,
                    ix == hill_indices(text@),
                    ix.len() == len,
                    i < len,
                    bsize <= len - i,
                    j <= bsize,
                    block@.len() == j,
                    forall|k: int|
                        0 <= k < j ==> (#[trigger] block@[k]) as int == ix[i + k] && 0 <= block@[k]
                            < 26,
                    forall|k2: int| i <= k2 < i + j ==> is_letter(#[trigger] text@[k2]),
                decreases bsize - j,
            {
                let c = t[i + j];
                let idx = char_to_index(c);
                if idx < 0 {
                    proof {
                        assert(!is_letter(text@[i + j]));
                        assert(!all_letters(text@));
                    }
                    return Err(
                        CipherError::InvalidInput(
                            String::from_str("Text must contain only letters"),
                        ),
                    );
                }
                block.push(idx);
                j += 1;
            }
            if bsize < n {
                if !pad {
                    proof {
                        lemma_fundamental_div_mod(i as int, n as int);
                        lemma_mod_multiples_vanish(
                            i as int / n as int,
                            rem as int,
                            n as int,
                        );
                        lemma_small_mod(rem as nat, n as nat);
                        assert(len as int % n as int == rem as int);
                    }
                    return Err(
                        CipherError::InvalidInput(String::from_str("Invalid text length")),
                    );
                }
                while j < n
                    invariant
                        bsize <= j <= n,
                        block@.len() == j,
                        forall|k: int|
                            0 <= k < bsize ==> (#[trigger] block@[k]) as int == ix[i + k] && 0
                                <= block@[k] < 26,
                        forall|k: int| bsize <= k < j ==> (#[trigger] block@[k]) == 23,
                    decreases n - j,
                {
                    block.push(23);
                    j += 1;
                }
            }
            let enc = Self::matrix_multiply(mx, &block);
            let ghost out_before = out@;
            let ghost outchunk = upper_letters(row_view(enc@));
            proof {
                assert(out@ =~= out_before + outchunk.take(0));
            }
            let mut k2: usize = 0;
            while k2 < n
                invariant
                    n == mx@.len(),
                    enc@.len() == n,
                    forall|q: int| 0 <= q < n ==> 0 <= #[trigger] enc@[q] < 26,
                    outchunk == upper_letters(row_view(enc@)),
                    k2 <= n,
                    out@ == out_before + outchunk.take(k2 as int),
                decreases n - k2,
            {
                out.push(index_to_char(enc[k2], true));
                proof {
                    assert(outchunk[k2 as int] == upper_letter(enc@[k2 as int] as int));
                    assert(outchunk.take(k2 + 1) =~= outchunk.take(k2 as int).push(
                        outchunk[k2 as int],
                    ));
                    assert(out@ =~= out_before + outchunk.take(k2 + 1));
                }
                k2 += 1;
            }
            proof {
                assert(outchunk.take(n as int) =~= outchunk);
                assert(out@ == out_before + outchunk);
            }
            proof {
                let bv = row_view(block@);
                assert(row_view(enc@) == matvec(mm, bv));
                if bsize < n {
                    // Final short block: the spec pads with 23 to a full block.
                    assert(rest.len() == rem && 0 < rem < n);
                    assert(bv =~= rest + Seq::new((n as int - rest.len()) as nat, |_q: int| 23int));
                    assert(hill_blocks(mm, rest) == matvec(mm, bv));
                    assert(outchunk =~= upper_letters(matvec(mm, bv)));
                    assert(out@ =~= out_before + upper_letters(matvec(mm, bv)));
                    assert(ix.skip(len as int) =~= Seq::<int>::empty());
                    assert(upper_letters(hill_blocks(mm, ix.skip(len as int))) =~= Seq::<
                        char,
                    >::empty());
                    assert(out@ + upper_letters(hill_blocks(mm, ix.skip(len as int))) =~= out@);
                    assert(upper_letters(hill_blocks(mm, rest)) =~= upper_letters(matvec(mm, bv)));
                    assert(out_before + upper_letters(hill_blocks(mm, rest)) =~= out@);
                } else {
                    assert(rest.len() >= n);
                    assert(bv =~= rest.take(n as int));
                    assert(hill_blocks(mm, rest) == matvec(mm, bv) + hill_blocks(
                        mm,
                        rest.skip(n as int),
                    ));
                    assert(rest.skip(n as int) =~= ix.skip(i + n));
                    assert(upper_letters(matvec(mm, bv) + hill_blocks(mm, ix.skip(i + n))) =~=
                        upper_letters(matvec(mm, bv)) + upper_letters(
                        hill_blocks(mm, ix.skip(i + n)),
                    ));
                    assert(outchunk =~= upper_letters(matvec(mm, bv)));
                    assert(out@ =~= out_before + upper_letters(matvec(mm, bv)));
                    assert(out@ + upper_letters(hill_blocks(mm, ix.skip(i + n))) =~= out_before
                        + upper_letters(hill_blocks(mm, rest)));
                }
            }
            if rem < n {
                i = len;
            } else {
                proof {
                    if !pad {
                        lemma_fundamental_div_mod(i as int, n as int);
                        assert((i + n) as int == n as int * (1 + i as int / n as int) + 0)
                            by (nonlinear_arith)
                            requires
                                i as int == n as int * (i as int / n as int),
                        ;
                        lemma_mod_multiples_vanish(1 + i as int / n as int, 0, n as int);
                        assert((i + n) as int % n as int == 0int % n as int);
                        lemma_small_mod(0nat, n as nat);
                    }
                }
                i += n;
            }
        }
        proof {
            assert(ix.skip(len as int) =~= Seq::<int>::empty());
            assert(upper_letters(hill_blocks(mm, ix.skip(len as int))) =~= Seq::<char>::empty());
            assert(out@ + Seq::<char>::empty() =~= out@);
            if !pad {
                lemma_small_mod(0nat, n as nat);
            }
        }
        Ok(string_from_chars(&out))
    }

    /// Encrypts: the text (letters only) is consumed in blocks of n
    /// letter positions, the final block padded with 23 ('X'), and each
    /// block is multiplied by the key matrix mod 26.
    pub fn encrypt(text: &str, key: &str) -> (r: Result<String, CipherError>)
        ensures
            r is Ok <==> (hill_key_ok(key@) && all_letters(text@)),
            r matches Ok(out) ==> out@ == upper_letters(
                hill_blocks(hill_matrix(key@), hill_indices(text@)),
            ),
            !hill_key_ok(key@) ==> r matches Err(CipherError::InvalidKey(_)),
            (hill_key_ok(key@) && !all_letters(text@)) ==> r matches Err(
                CipherError::InvalidInput(_),
            ),
    {
        let mx = match Self::parse_key(key) {
            Ok(m) => m,
            Err(e) => {
                return Err(e);
            },
        };
        Self::apply_blocks(text, &mx, true)
    }

    /// Decrypts: the key matrix must be 2x2 or 3x3 and invertible mod
    /// 26; the text is consumed in blocks of n letter positions with no
    /// padding, so its length must be a multiple of n.
    pub fn decrypt(text: &str, key: &str) -> (r: Result<String, CipherError>)
        ensures
            r is Ok <==> (hill_key_ok(key@) && (hill_dim(key@) == 2 || hill_dim(key@) == 3) && gcd(
                26,
                hill_det(hill_matrix(key@)),
            ) == 1 && all_letters(text@) && text@.len() as int % hill_dim(key@) == 0),
            r matches Ok(out) ==> out@ == upper_letters(
                hill_blocks(hill_inverse(hill_matrix(key@)), hill_indices(text@)),
            ),
            (!hill_key_ok(key@) || !(hill_dim(key@) == 2 || hill_dim(key@) == 3) || gcd(
                26,
                hill_det(hill_matrix(key@)),
            ) != 1) ==> r matches Err(CipherError::InvalidKey(_)),
            (hill_key_ok(key@) && (hill_dim(key@) == 2 || hill_dim(key@) == 3) && gcd(
                26,
                hill_det(hill_matrix(key@)),
            ) == 1 && !(all_letters(text@) && text@.len() as int % hill_dim(key@) == 0))
                ==> r matches Err(CipherError::InvalidInput(_)),
    {
        let mx = match Self::parse_key(key) {
            Ok(m) => m,
            Err(e) => {
                return Err(e);
            },
        };
        let inv = match Self::matrix_inverse(&mx) {
            Ok(m) => m,
            Err(e) => {
                return Err(e);
            },
        };
        proof {
            assert(mat_view(inv@).len() == hill_dim(key@));
        }
        Self::apply_blocks(text, &inv, false)
    }

    /// The square of a machine word, computed exactly in 128 bits.
    fn sq(x: usize) -> (r: u128)
        ensures
            r == (x as int) * (x as int),
    {
        proof {
            assert((x as int) * (x as int) <= 0xffff_ffff_ffff_fffe_0000_0000_0000_0001int)
                by (nonlinear_arith)
                requires
                    0 <= (x as int) <= 0xffff_ffff_ffff_ffffint,
            ;
        }
        (x as u128) * (x as u128)
    }

    /// Whether `c` separates tokens of a key string.
    fn is_space_char(c: char) -> (r: bool)
        ensures
            r == is_space(c),
    {
        c == ' ' || c == '\t' || c == '\n' || c == '\r' || c == '\u{b}' || c == '\u{c}'
            || c == '\u{85}' || c == '\u{a0}' || c == '\u{1680}' || ('\u{2000}' <= c && c
            <= '\u{200a}') || c == '\u{2028}' || c == '\u{2029}' || c == '\u{202f}' || c
            == '\u{205f}' || c == '\u{3000}'
    }

    /// Splits a key string on whitespace into its tokens.
    fn split_ws(v: &Vec<char>) -> (r: Vec<Vec<char>>)
        ensures
            views_of(r@) == tokens_of(v@),
    {
        let n = v.len();
        let mut done: Vec<Vec<char>> = Vec::new();
        let mut cur: Vec<char> = Vec::new();
        let mut i: usize = 0;
        proof {
            assert(v@.skip(0) =~= v@);
            assert(views_of(done@) + tokens_acc(v@, cur@) =~= tokens_acc(v@, cur@));
        }
        while i < n
            invariant
                n == v@.len(),
                i <= n,
                tokens_of(v@) == views_of(done@) + tokens_acc(v@.skip(i as int), cur@),
            decreases n - i,
        {
            let ghost rest = v@.skip(i as int);
            proof {
                assert(rest.first() == v@[i as int]);
                assert(rest.drop_first() =~= v@.skip(i + 1));
            }
            let c = v[i];
            if Self::is_space_char(c) {
                if cur.len() > 0 {
                    let ghost curv = cur@;
                    done.push(cur);
                    cur = Vec::new();
                    proof {
                        assert(views_of(done@) =~= views_of(done@.drop_last()) + seq![curv]);
                        assert(views_of(done@) + tokens_acc(v@.skip(i + 1), cur@) =~= views_of(
                            done@.drop_last(),
                        ) + tokens_acc(rest, curv));
                    }
                } else {
                    proof {
                        assert(cur@ =~= Seq::<char>::empty());
                        assert(tokens_acc(rest, cur@) == tokens_acc(v@.skip(i + 1), cur@));
                    }
                }
            } else {
                proof {
                    assert(tokens_acc(rest, cur@) == tokens_acc(v@.skip(i + 1), cur@.push(c)));
                }
                cur.push(c);
            }
            i += 1;
        }
        proof {
            assert(v@.skip(n as int) =~= Seq::<char>::empty());
        }
        if cur.len() > 0 {
            let ghost curv = cur@;
            done.push(cur);
            proof {
                assert(views_of(done@) =~= views_of(done@.drop_last()) + seq![curv]);
                assert(tokens_acc(Seq::<char>::empty(), curv) == seq![curv]);
                assert(views_of(done@) =~= tokens_of(v@));
            }
            done
        } else {
            proof {
                assert(tokens_acc(Seq::<char>::empty(), cur@) =~= Seq::<Seq<char>>::empty());
                assert(views_of(done@) =~= tokens_of(v@));
            }
            done
        }
    }

    /// Parses a whitespace-separated list of integers into an n*n key
    /// matrix of residues mod 26; rejects non-integer tokens and token
    /// counts that are not perfect squares (n at least 1).
    pub fn parse_key(key: &str) -> (r: Result<Vec<Vec<i32>>, CipherError>)
        ensures
            r is Ok <==> hill_key_ok(key@),
            r matches Ok(mx) ==> {
                &&& mat_view(mx@) == hill_matrix(key@)
                &&& matrix_wf(mat_view(mx@))
                &&& mx@.len() == hill_dim(key@)
                &&& 1 <= mx@.len()
            },
            r matches Err(e) ==> e matches CipherError::InvalidKey(_),
    {
        let kc = chars_of(key);
        let toks = Self::split_ws(&kc);
        let ghost tks = tokens_of(key@);
        let mut nums: Vec<i32> = Vec::new();
        let count = toks.len();
        proof {
            assert(views_of(toks@).len() == toks@.len());
            assert(tks.len() == count);
        }
        let mut i: usize = 0;
        while i < count
            invariant
                count == toks@.len(),
                tks == tokens_of(key@),
                views_of(toks@) == tks,
                tks.len() == count,
                i <= count,
                nums@.len() == i,
                forall|j: int| 0 <= j < i ==> is_i32_literal(#[trigger] tks[j]),
                forall|j: int| 0 <= j < i ==> (#[trigger] nums@[j]) as int == int_val(tks[j]),
            decreases count - i,
        {
            match parse_i32(&toks[i]) {
                Some(x) => {
                    proof {
                        assert(toks@[i as int]@ == tks[i as int]);
                    }
                    nums.push(x);
                    proof {
                        assert(nums@[i as int] == x);
                    }
                },
                None => {
                    proof {
                        assert(toks@[i as int]@ == tks[i as int]);
                        assert(!is_i32_literal(tks[i as int]));
                        assert(!tokens_ok(key@));
                    }
                    return Err(CipherError::InvalidKey(String::from_str("Invalid key format")));
                },
            }
            i += 1;
        }
        proof {
            assert forall|j: int| 0 <= j < tokens_of(key@).len() implies is_i32_literal(
                #[trigger] tokens_of(key@)[j],
            ) by {
                assert(tokens_of(key@)[j] == tks[j]);
                assert(is_i32_literal(tks[j]));
            }
            assert(tokens_ok(key@));
        }
        if count == 0 {
            proof {
                assert forall|n: int| 1 <= n implies #[trigger] (n * n) != 0 by {
                    assert(1 <= n ==> n * n >= 1) by (nonlinear_arith);
                }
            }
            return Err(CipherError::InvalidKey(String::from_str("Key must be a perfect square")));
        }
        let mut nsz: usize = 1;
        while Self::sq(nsz) < (count as u128)
            invariant
                1 <= nsz,
                nsz <= count,
                1 <= count,
                (nsz - 1) * (nsz - 1) < count,
            decreases count - nsz,
        {
            proof {
                assert(nsz + 1 <= count) by (nonlinear_arith)
                    requires
                        (nsz as int) * (nsz as int) < count,
                        1 <= (nsz as int),
                ;
            }
            nsz += 1;
        }
        if Self::sq(nsz) != (count as u128) {
            proof {
                let c = count as int;
                let w = nsz as int;
                assert forall|n: int| 1 <= n implies #[trigger] (n * n) != c by {
                    if n < w {
                        assert(n * n <= (w - 1) * (w - 1)) by (nonlinear_arith)
                            requires
                                1 <= n,
                                n <= w - 1,
                        ;
                    } else {
                        assert(n * n >= w * w) by (nonlinear_arith)
                            requires
                                1 <= w,
                                w <= n,
                        ;
                    }
                }
                assert(!hill_dims_ok(key@));
            }
            return Err(CipherError::InvalidKey(String::from_str("Key must be a perfect square")));
        }
        proof {
            let w = nsz as int;
            assert(1 <= w && w * w == tks.len());
            assert(hill_dims_ok(key@));
            lemma_sqrt_unique(hill_dim(key@), w, tks.len() as int);
            assert(hill_dim(key@) == w);
        }
        let mut mx: Vec<Vec<i32>> = Vec::new();
        let mut r: usize = 0;
        while r < nsz
            invariant
                1 <= nsz,
                (nsz as int) * (nsz as int) == count,
                count == nums@.len(),
                hill_dim(key@) == nsz as int,
                tks == tokens_of(key@),
                tks.len() == count,
                forall|j: int| 0 <= j < count ==> (#[trigger] nums@[j]) as int == int_val(tks[j]),
                r <= nsz,
                mx@.len() == r,
                forall|a: int, b: int|
                    0 <= a < r && 0 <= b < nsz ==> (#[trigger] mx@[a]@[b]) as int == hill_matrix(
                        key@,
                    )[a][b],
                forall|a: int| 0 <= a < r ==> (#[trigger] mx@[a]@).len() == nsz,
            decreases nsz - r,
        {
            let mut row: Vec<i32> = Vec::new();
            let mut cix: usize = 0;
            while cix < nsz
                invariant
                    1 <= nsz,
                    (nsz as int) * (nsz as int) == count,
                    count == nums@.len(),
                    hill_dim(key@) == nsz as int,
                    tks == tokens_of(key@),
                    tks.len() == count,
                    forall|j: int|
                        0 <= j < count ==> (#[trigger] nums@[j]) as int == int_val(tks[j]),
                    r < nsz,
                    cix <= nsz,
                    row@.len() == cix,
                    forall|b: int|
                        0 <= b < cix ==> (#[trigger] row@[b]) as int == hill_matrix(key@)[
                            r as int][b] && 0 <= row@[b] < 26,
                decreases nsz - cix,
            {
                proof {
                    assert((r as int) * (nsz as int) + cix < count) by (nonlinear_arith)
                        requires
                            0 <= (r as int) < (nsz as int),
                            0 <= (cix as int) < (nsz as int),
                            (nsz as int) * (nsz as int) == count,
                    ;
                }
                let x = nums[r * nsz + cix];
                let e = normalize_index(x);
                proof {
                    assert(hill_matrix(key@)[r as int][cix as int] == int_val(
                        tks[r as int * nsz as int + cix as int],
                    ) % 26);
                }
                row.push(e);
                cix += 1;
            }
            mx.push(row);
            r += 1;
        }
        proof {
            assert forall|a: int| 0 <= a < nsz implies mat_view(mx@)[a] =~= hill_matrix(key@)[a] by {
                assert(mat_view(mx@)[a] == row_view(mx@[a]@));
            }
            assert(mat_view(mx@) =~~= hill_matrix(key@));
            assert(matrix_wf(mat_view(mx@)));
        }
        Ok(mx)
    }

    /// Multiplies a key matrix by a block vector, reducing every entry
    /// mod 26.
    pub fn matrix_multiply(matrix: &Vec<Vec<i32>>, vector: &Vec<i32>) -> (r: Vec<i32>)
        requires
            matrix_wf(mat_view(matrix@)),
            vector@.len() == matrix@.len(),
            forall|j: int| 0 <= j < vector@.len() ==> 0 <= #[trigger] vector@[j] < 26,
        ensures
            r@.len() == matrix@.len(),
            row_view(r@) == matvec(mat_view(matrix@), row_view(vector@)),
            forall|j: int| 0 <= j < r@.len() ==> 0 <= #[trigger] r@[j] < 26,
    {
        let n = matrix.len();
        let ghost mm = mat_view(matrix@);
        let ghost vv = row_view(vector@);
        let mut result: Vec<i32> = Vec::new();
        let mut i: usize = 0;
        while i < n
            invariant
                n == matrix@.len(),
                mm == mat_view(matrix@),
                vv == row_view(vector@),
                matrix_wf(mm),
                vector@.len() == n,
                forall|j: int| 0 <= j < vector@.len() ==> 0 <= #[trigger] vector@[j] < 26,
                i <= n,
                result@.len() == i,
                forall|j: int| 0 <= j < i ==> #[trigger] result@[j] as int == matvec(mm, vv)[j],
                forall|j: int| 0 <= j < i ==> 0 <= #[trigger] result@[j] < 26,
            decreases n - i,
        {
            let row = &matrix[i];
            let mut acc: i32 = 0;
            let mut j: usize = 0;
            proof {
                assert(mm[i as int] == row_view(row@));
            }
            while j < n
                invariant
                    n == matrix@.len(),
                    mm == mat_view(matrix@),
                    vv == row_view(vector@),
                    matrix_wf(mm),
                    vector@.len() == n,
                    forall|k: int| 0 <= k < vector@.len() ==> 0 <= #[trigger] vector@[k] < 26,
                    i < n,
                    row@ == matrix@[i as int]@,
                    mm[i as int] == row_view(row@),
                    j <= n,
                    0 <= acc < 26,
                    acc as int == dot(mm[i as int], vv, j as int) % 26,
                decreases n - j,
            {
                proof {
                    assert(mm[i as int][j as int] == row@[j as int] as int);
                    assert(0 <= row@[j as int] < 26);
                    assert(0 <= vector@[j as int] < 26);
                    assert(0 <= (row@[j as int] as int) * (vector@[j as int] as int) < 676)
                        by (nonlinear_arith)
                        requires
                            0 <= (row@[j as int] as int) < 26,
                            0 <= (vector@[j as int] as int) < 26,
                    ;
                }
                let x = row[j] * vector[j];
                proof {
                    let d = dot(mm[i as int], vv, j as int);
                    lemma_add_mod_noop_right(x as int, d, 26);
                    assert(dot(mm[i as int], vv, j + 1) == d + x);
                }
                acc = (acc + x) % 26;
                j += 1;
            }
            result.push(acc);
            i += 1;
        }
        proof {
            assert(row_view(result@) =~= matvec(mm, vv));
        }
        result
    }
}

} // verus!
