//! Parsing signed decimal integers from character sequences, with the
//! same acceptance rules as `str::parse::<i32>`: an optional sign, then
//! one or more ASCII digits, and the value must fit in an `i32`.

use vstd::prelude::*;

verus! {

/// `c` is an ASCII decimal digit.
pub open spec fn is_digit(c: char) -> bool {
    '0' <= c && c <= '9'
}

/// Numeric value of a digit character.
pub open spec fn digit_val(c: char) -> int {
    c as u32 - '0' as u32
}

/// Every character of `s` is a digit.
pub open spec fn all_digits(s: Seq<char>) -> bool {
    forall|i: int| 0 <= i < s.len() ==> is_digit(s[i])
}

/// The non-negative value denoted by a digit string, most significant
/// digit first.
pub open spec fn digits_val(s: Seq<char>) -> int
    decreases s.len(),
{
    if s.len() == 0 {
        0
    } else {
        digits_val(s.drop_last()) * 10 + digit_val(s.last())
    }
}

/// The digit part of an integer literal: everything after an optional
/// leading sign.
pub open spec fn int_body(s: Seq<char>) -> Seq<char> {
    if s.len() > 0 && (s[0] == '+' || s[0] == '-') {
        s.skip(1)
    } else {
        s
    }
}

/// The sign denoted by an integer literal.
pub open spec fn int_sign(s: Seq<char>) -> int {
    if s.len() > 0 && s[0] == '-' {
        -1
    } else {
        1
    }
}

/// The signed value denoted by an integer literal.
pub open spec fn int_val(s: Seq<char>) -> int {
    int_sign(s) * digits_val(int_body(s))
}

/// `s` is a well-formed decimal literal whose value fits in an `i32`.
pub open spec fn is_i32_literal(s: Seq<char>) -> bool {
    &&& int_body(s).len() > 0
    &&& all_digits(int_body(s))
    &&& -2147483648 <= int_val(s) <= 2147483647
}

/// Appending digits to a digit string never shrinks its value.
proof fn lemma_digits_val_nonneg(s: Seq<char>)
    requires
        all_digits(s),
    ensures
        digits_val(s) >= 0,
    decreases s.len(),
{
    if s.len() > 0 {
        assert(all_digits(s.drop_last()));
        lemma_digits_val_nonneg(s.drop_last());
    }
}

/// Parses a signed decimal integer exactly as `str::parse::<i32>` does:
/// `Some` on a well-formed in-range literal, `None` otherwise.
pub fn parse_i32(s: &Vec<char>) -> (r: Option<i32>)
    ensures
        r is Some <==> is_i32_literal(s@),
        r matches Some(v) ==> v as int == int_val(s@),
{
    let n = s.len();
    let mut i: usize = 0;
    let mut neg = false;
    if n > 0 && (s[0] == '+' || s[0] == '-') {
        neg = s[0] == '-';
        i = 1;
    }
    let ghost body = int_body(s@);
    let ghost start = i as int;
    proof {
        assert(body =~= s@.skip(start));
    }
    if i == n {
        return None;
    }
    let mut acc: u64 = 0;
    while i < n
        invariant
            start <= i <= n,
            n == s@.len(),
            body == s@.skip(start),
            body == int_body(s@),
            neg == (s@.len() > 0 && s@[0] == '-'),
            0 <= start <= 1,
            all_digits(body.take(i - start)),
            acc <= 30000000009,
            digits_val(body.take(i - start)) < 3000000000 ==> acc == digits_val(body.take(i - start)),
            digits_val(body.take(i - start)) >= 3000000000 ==> acc >= 3000000000,
        decreases n - i,
    {
        let c = s[i];
        if !('0' <= c && c <= '9') {
            proof {
                assert(body[i - start] == c);
                assert(!is_digit(body[i - start]));
                assert(!all_digits(body));
                assert(!is_i32_literal(s@));
            }
            return None;
        }
        let d = (c as u32 as u64) - 48;
        proof {
            let k = i - start;
            assert(body.take(k + 1).drop_last() =~= body.take(k));
            assert(body.take(k + 1).last() == body[k]);
            assert(body[k] == c);
            assert(digits_val(body.take(k + 1)) == digits_val(body.take(k)) * 10 + digit_val(c));
            lemma_digits_val_nonneg(body.take(k));
        }
        if acc < 3000000000 {
            acc = acc * 10 + d;
        } else {
            acc = 3000000000;
        }
        i += 1;
    }
    proof {
        assert(body.take(n - start) =~= body);
        assert(all_digits(body));
        lemma_digits_val_nonneg(body);
        assert(body.len() > 0);
        assert(int_body(s@) == body);
        assert(digits_val(body) >= 3000000000 ==> acc >= 3000000000);
        assert(digits_val(body) < 3000000000 ==> acc == digits_val(body));
    }
    if neg {
        if acc <= 2147483648 {
            let v = -(acc as i64);
            Some(v as i32)
        } else {
            None
        }
    } else {
        if acc <= 2147483647 {
            Some(acc as i32)
        } else {
            None
        }
    }
}

} // verus!
