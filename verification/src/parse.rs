//! Parsing of coordinate-pair strings such as `"400x600"` or `"10,20"`:
//! a pair is two components separated by the first occurrence of a separator
//! character, and an integer component follows the usual decimal syntax
//! (an optional sign, then one or more ASCII digits).

use vstd::prelude::*;
use vstd::string::StrSliceExecFns;

verus! {

/// Holds when `i` is the position of the first occurrence of `sep` in `s`.
pub open spec fn sep_at(s: Seq<char>, sep: char, i: int) -> bool {
    &&& 0 <= i < s.len()
    &&& s[i] == sep
    &&& forall|j: int| 0 <= j < i ==> s[j] != sep
}

/// `s` contains `sep` somewhere.
pub open spec fn has_sep(s: Seq<char>, sep: char) -> bool {
    exists|i: int| sep_at(s, sep, i)
}

/// The position of the first occurrence of `sep` in `s`
/// (meaningful only when `has_sep(s, sep)` holds).
pub open spec fn sep_index(s: Seq<char>, sep: char) -> int {
    choose|i: int| sep_at(s, sep, i)
}

/// Everything left of the first occurrence of `sep`.
pub open spec fn left_of_sep(s: Seq<char>, sep: char) -> Seq<char> {
    s.subrange(0, sep_index(s, sep))
}

/// Everything right of the first occurrence of `sep`.
pub open spec fn right_of_sep(s: Seq<char>, sep: char) -> Seq<char> {
    s.subrange(sep_index(s, sep) + 1, s.len() as int)
}

/// The first occurrence is unique: two positions that both qualify coincide.
proof fn lemma_sep_at_unique(s: Seq<char>, sep: char, i: int, j: int)
    requires
        sep_at(s, sep, i),
        sep_at(s, sep, j),
    ensures
        i == j,
{
    if i < j {
        assert(s[i] != sep);
    } else if j < i {
        assert(s[j] != sep);
    }
}

/// A decimal digit.
pub open spec fn is_dec_digit(c: char) -> bool {
    '0' as int <= c as int && c as int <= '9' as int
}

/// The numeric value of one decimal digit.
pub open spec fn digit_value(c: char) -> int {
    c as int - '0' as int
}

/// Every character of `s` is a decimal digit.
pub open spec fn all_dec_digits(s: Seq<char>) -> bool {
    forall|i: int| 0 <= i < s.len() ==> is_dec_digit(#[trigger] s[i])
}

/// The value of a string of decimal digits, most significant first.
pub open spec fn digits_value(s: Seq<char>) -> int
    decreases s.len(),
{
    if s.len() == 0 {
        0
    } else {
        digits_value(s.drop_last()) * 10 + digit_value(s.last())
    }
}

/// Ten to the `n`-th power.
pub open spec fn pow10(n: nat) -> int
    decreases n,
{
    if n == 0 {
        1
    } else {
        10 * pow10((n - 1) as nat)
    }
}

/// The digits of decimal integer text: what follows an optional leading sign.
pub open spec fn int_body(s: Seq<char>) -> Seq<char> {
    if s.len() > 0 && (s[0] == '+' || s[0] == '-') {
        s.subrange(1, s.len() as int)
    } else {
        s
    }
}

/// The sign carried by decimal integer text.
pub open spec fn int_sign(s: Seq<char>) -> int {
    if s.len() > 0 && s[0] == '-' {
        -1
    } else {
        1
    }
}

/// `s` is decimal integer text: an optional sign, then one or more digits.
pub open spec fn is_int_text(s: Seq<char>) -> bool {
    int_body(s).len() > 0 && all_dec_digits(int_body(s))
}

/// The value denoted by decimal integer text.
pub open spec fn int_text_value(s: Seq<char>) -> int {
    int_sign(s) * digits_value(int_body(s))
}

/// What parsing `s` as an `i32` yields: the denoted value when `s` is decimal
/// integer text whose value fits, and nothing otherwise.
pub open spec fn spec_parse_i32(s: Seq<char>) -> Option<i32> {
    if is_int_text(s) && i32::MIN <= int_text_value(s) <= i32::MAX {
        Some(int_text_value(s) as i32)
    } else {
        None
    }
}

proof fn lemma_digits_value_bounds(s: Seq<char>)
    requires
        all_dec_digits(s),
    ensures
        0 <= digits_value(s) < pow10(s.len()),
    decreases s.len(),
{
    if s.len() > 0 {
        lemma_digits_value_bounds(s.drop_last());
    }
}

proof fn lemma_digits_value_lower(s: Seq<char>)
    requires
        all_dec_digits(s),
        s.len() > 0,
        s[0] != '0',
    ensures
        digits_value(s) >= pow10((s.len() - 1) as nat),
    decreases s.len(),
{
    assert(s.last() == s[s.len() - 1]);
    assert(is_dec_digit(s[s.len() - 1]));
    if s.len() == 1 {
        assert(digits_value(s) == digits_value(s.drop_last()) * 10 + digit_value(s.last()));
        assert(s.drop_last().len() == 0);
        assert(digit_value(s[0]) >= 1);
    } else {
        let d = s.drop_last();
        assert(d[0] == s[0]);
        assert(forall|i: int| 0 <= i < d.len() ==> is_dec_digit(#[trigger] d[i])) by {
            assert(forall|i: int| 0 <= i < d.len() ==> d[i] == s[i] && is_dec_digit(#[trigger] s[i]));
        }
        lemma_digits_value_lower(d);
        assert(digits_value(d) >= pow10((s.len() - 2) as nat));
        assert(pow10((s.len() - 1) as nat) == 10 * pow10((s.len() - 2) as nat));
        assert(digits_value(s) == digits_value(d) * 10 + digit_value(s.last()));
        assert(digit_value(s.last()) >= 0);
    }
}

proof fn lemma_pow10_mono(a: nat, b: nat)
    requires
        a <= b,
    ensures
        pow10(a) <= pow10(b),
    decreases b,
{
    if a < b {
        lemma_pow10_mono(a, (b - 1) as nat);
        assert(pow10((b - 1) as nat) >= 1) by {
            lemma_pow10_mono(0, (b - 1) as nat);
        }
    }
}

/// A leading zero does not change the value of a digit string.
proof fn lemma_leading_zero(s: Seq<char>)
    requires
        s.len() > 0,
        s[0] == '0',
    ensures
        digits_value(s) == digits_value(s.subrange(1, s.len() as int)),
    decreases s.len(),
{
    let t = s.subrange(1, s.len() as int);
    if s.len() == 1 {
        assert(t.len() == 0);
        assert(digits_value(s) == digits_value(s.drop_last()) * 10 + digit_value(s.last()));
        assert(s.drop_last().len() == 0);
        assert(s.last() == s[0]);
        assert(digit_value('0') == 0);
    } else {
        let d = s.drop_last();
        assert(d[0] == '0');
        lemma_leading_zero(d);
        assert(d.subrange(1, d.len() as int) =~= t.drop_last());
        assert(digits_value(d) == digits_value(t.drop_last()));
        assert(s.last() == t.last());
        assert(t.len() > 0);
        assert(digits_value(s) == digits_value(d) * 10 + digit_value(s.last()));
        assert(digits_value(t) == digits_value(t.drop_last()) * 10 + digit_value(t.last()));
    }
}

/// Parses `s` as an `i32`, as decimal integer text: `None` on malformed text
/// and on values outside the `i32` range.
#[verifier::loop_isolation(false)]
#[verifier::rlimit(50)]
pub fn parse_i32(s: &str) -> (r: Option<i32>)
    ensures
        r == spec_parse_i32(s@),
{
    let n: usize = s.unicode_len();
    if n == 0 {
        return None;
    }
    let first: char = s.get_char(0);
    let negative: bool = first == '-';
    let start: usize = if first == '-' || first == '+' {
        1
    } else {
        0
    };
    let ghost body = int_body(s@);
    proof {
        assert(body =~= s@.subrange(start as int, n as int));
    }
    if start == n {
        return None;
    }
    let mut i: usize = start;
    while i < n
        invariant
            n == s@.len(),
            start <= i <= n,
            start < n,
            body == s@.subrange(start as int, n as int),
            forall|j: int| start <= j < i ==> is_dec_digit(#[trigger] s@[j]),
        decreases n - i,
    {
        let c: char = s.get_char(i);
        if c < '0' || c > '9' {
            proof {
                assert(body[i - start] == s@[i as int]);
                assert(!is_dec_digit(body[i - start]));
                assert(!all_dec_digits(body));
                assert(!is_int_text(s@));
                assert(spec_parse_i32(s@) is None);
            }
            return None;
        }
        i += 1;
    }
    proof {
        assert(all_dec_digits(body)) by {
            assert(forall|j: int| 0 <= j < body.len() ==> is_dec_digit(#[trigger] body[j]));
        }
    }
    // Skip leading zeros: they do not change the value.
    let mut z: usize = start;
    while z < n && s.get_char(z) == '0'
        invariant
            n == s@.len(),
            start <= z <= n,
            start < n,
            body == s@.subrange(start as int, n as int),
            all_dec_digits(body),
            digits_value(s@.subrange(z as int, n as int)) == digits_value(body),
        decreases n - z,
    {
        proof {
            let cur = s@.subrange(z as int, n as int);
            lemma_leading_zero(cur);
            assert(cur.subrange(1, cur.len() as int) =~= s@.subrange(z as int + 1, n as int));
        }
        z += 1;
    }
    let m: usize = n - z;
    let ghost tail = s@.subrange(z as int, n as int);
    proof {
        assert(forall|j: int| 0 <= j < tail.len() ==> is_dec_digit(#[trigger] tail[j]));
    }
    if m > 10 {
        // At least eleven digits after the first non-zero one: the value is
        // at least ten to the tenth power and cannot fit in an `i32`.
        proof {
            assert(tail[0] == s@[z as int]);
            lemma_digits_value_lower(tail);
            lemma_pow10_mono(10, (tail.len() - 1) as nat);
            reveal_with_fuel(pow10, 11);
            assert(pow10(10) == 10000000000);
            assert(digits_value(body) >= 10000000000);
            assert(is_int_text(s@));
            assert(int_text_value(s@) > i32::MAX || int_text_value(s@) < i32::MIN);
            assert(spec_parse_i32(s@) is None);
        }
        return None;
    }
    let mut acc: u64 = 0;
    let mut k: usize = z;
    while k < n
        invariant
            n == s@.len(),
            z <= k <= n,
            n - z <= 10,
            tail == s@.subrange(z as int, n as int),
            all_dec_digits(tail),
            acc == digits_value(s@.subrange(z as int, k as int)),
            acc < pow10((k - z) as nat),
        decreases n - k,
    {
        let c: char = s.get_char(k);
        proof {
            assert(s@[k as int] == tail[k as int - z as int]);
            assert(is_dec_digit(s@[k as int]));
        }
        let d: u64 = (c as u32 - 48) as u64;
        proof {
            assert(s@.subrange(z as int, k as int + 1).drop_last() =~= s@.subrange(
                z as int,
                k as int,
            ));
            assert(s@.subrange(z as int, k as int + 1).last() == s@[k as int]);
            lemma_pow10_mono((k - z) as nat, 9);
            reveal_with_fuel(pow10, 11);
            assert(pow10(9) == 1000000000);
        }
        acc = acc * 10 + d;
        k += 1;
    }
    proof {
        assert(s@.subrange(z as int, k as int) =~= tail);
        assert(digits_value(body) == acc);
        lemma_digits_value_bounds(body);
        assert(is_int_text(s@));
        assert(int_body(s@) == body);
    }
    if negative {
        proof {
            assert(int_sign(s@) == -1);
            assert(int_text_value(s@) == -1 * (acc as int));
        }
        if acc > 2147483648 {
            proof {
                assert(int_text_value(s@) < i32::MIN);
            }
            None
        } else if acc == 2147483648 {
            proof {
                assert(int_text_value(s@) == i32::MIN);
            }
            Some(i32::MIN)
        } else {
            Some(-(acc as i32))
        }
    } else {
        proof {
            assert(int_sign(s@) == 1);
            assert(int_text_value(s@) == acc as int);
        }
        if acc > 2147483647 {
            None
        } else {
            Some(acc as i32)
        }
    }
}

fn find_char(s: &str, sep: char) -> (r: Option<usize>)
    ensures
        match r {
            Some(i) => sep_at(s@, sep, i as int),
            None => !has_sep(s@, sep),
        },
{
    let n: usize = s.unicode_len();
    let mut i: usize = 0;
    while i < n
        invariant
            n == s@.len(),
            i <= n,
            forall|j: int| 0 <= j < i ==> s@[j] != sep,
        decreases n - i,
    {
        if s.get_char(i) == sep {
            return Some(i);
        }
        i += 1;
    }
    None
}

/// Splits `value` at the first occurrence of `separator` into the text before
/// it and the text after it, or returns `None` when the separator is absent.
pub fn split_pair<'a>(value: &'a str, separator: char) -> (r: Option<(&'a str, &'a str)>)
    ensures
        match r {
            Some(p) => {
                &&& has_sep(value@, separator)
                &&& p.0@ == left_of_sep(value@, separator)
                &&& p.1@ == right_of_sep(value@, separator)
            },
            None => !has_sep(value@, separator),
        },
{
    match find_char(value, separator) {
        None => None,
        Some(i) => {
            proof {
                lemma_sep_at_unique(value@, separator, i as int, sep_index(value@, separator));
            }
            let n: usize = value.unicode_len();
            let left = value.substring_char(0, i);
            let right = value.substring_char(i + 1, n);
            Some((left, right))
        },
    }
}

/// What pair parsing yields: `s` is split at the first occurrence of `sep`,
/// and both sides must be decimal integer text whose value fits an `i32`.
pub open spec fn spec_parse_pair(s: Seq<char>, sep: char) -> Option<(i32, i32)> {
    if !has_sep(s, sep) {
        None
    } else {
        match (spec_parse_i32(left_of_sep(s, sep)), spec_parse_i32(right_of_sep(s, sep))) {
            (Some(x), Some(y)) => Some((x, y)),
            _ => None,
        }
    }
}

/// Parses `value` as a coordinate pair, like `"400x600"` or `"10,20"`: the
/// components on either side of the first occurrence of `separator`, both
/// decimal integers. `None` when the separator is absent or a side is not an
/// integer.
pub fn parse_pair(value: &str, separator: char) -> (r: Option<(i32, i32)>)
    ensures
        r == spec_parse_pair(value@, separator),
{
    match split_pair(value, separator) {
        None => None,
        Some((left, right)) => match (parse_i32(left), parse_i32(right)) {
            (Some(x), Some(y)) => Some((x, y)),
            _ => None,
        },
    }
}

} // verus!
