//! Reading numbers from text: signed decimal integers and the grammar of
//! floating-point literals.

use vstd::prelude::*;
use vstd::string::*;

verus! {

/// A decimal digit.
pub open spec fn is_digit(c: char) -> bool {
    48 <= c as u32 <= 57
}

/// The number a decimal digit stands for.
pub open spec fn digit_value(c: char) -> int {
    c as u32 - 48
}

/// A leading `+` or `-`.
pub open spec fn has_sign(s: Seq<char>) -> bool {
    s.len() > 0 && (s[0] == '+' || s[0] == '-')
}

/// `s` without its sign, where it has one.
pub open spec fn unsigned_part(s: Seq<char>) -> Seq<char> {
    if has_sign(s) {
        s.drop_first()
    } else {
        s
    }
}

/// Every character of `s` is a decimal digit.
pub open spec fn all_digits(s: Seq<char>) -> bool {
    forall|i: int| 0 <= i < s.len() ==> is_digit(#[trigger] s[i])
}

/// The number that a run of decimal digits denotes.
pub open spec fn digits_value(s: Seq<char>) -> int
    decreases s.len(),
{
    if s.len() == 0 {
        0
    } else {
        digits_value(s.drop_last()) * 10 + digit_value(s.last())
    }
}

/// The integer that `s` denotes: an optional sign, then one or more decimal
/// digits and nothing else.
pub open spec fn int_value(s: Seq<char>) -> Option<int> {
    let digits = unsigned_part(s);
    if digits.len() > 0 && all_digits(digits) {
        Some(
            if s[0] == '-' {
                -digits_value(digits)
            } else {
                digits_value(digits)
            },
        )
    } else {
        None
    }
}

/// The machine integer that `s` denotes, if it denotes one that fits.
pub open spec fn parsed_int(s: Seq<char>) -> Option<isize> {
    match int_value(s) {
        Some(v) => if isize::MIN <= v <= isize::MAX {
            Some(v as isize)
        } else {
            None
        },
        None => None,
    }
}

/// A run of digits denotes at least what any of its prefixes denotes.
proof fn lemma_digits_value_grows(s: Seq<char>, k: int)
    requires
        all_digits(s),
        0 <= k <= s.len(),
    ensures
        0 <= digits_value(s.take(k)) <= digits_value(s),
    decreases s.len() - k,
{
    if k == s.len() {
        assert(s.take(k) =~= s);
        lemma_digits_value_nonnegative(s);
    } else {
        lemma_digits_value_grows(s, k + 1);
        let t = s.take(k + 1);
        assert(t.drop_last() =~= s.take(k));
        assert(t.last() == s[k]);
        assert(is_digit(s[k]));
        lemma_digits_value_nonnegative(s.take(k));
    }
}

/// A run of digits denotes no negative number.
proof fn lemma_digits_value_nonnegative(s: Seq<char>)
    requires
        all_digits(s),
    ensures
        0 <= digits_value(s),
    decreases s.len(),
{
    if s.len() > 0 {
        assert(is_digit(s[s.len() - 1]));
        assert forall|i: int| 0 <= i < s.drop_last().len() implies is_digit(
            #[trigger] s.drop_last()[i],
        ) by {
            assert(s.drop_last()[i] == s[i]);
        }
        lemma_digits_value_nonnegative(s.drop_last());
    }
}

/// Reads a signed decimal integer: an optional `+` or `-`, then digits only.
/// Anything else, and any number that does not fit, gives `None`.
pub fn parse_int(s: &str) -> (r: Option<isize>)
    ensures
        r == parsed_int(s@),
{
    let n: usize = s.unicode_len();
    if n == 0 {
        return None;
    }
    let first = s.get_char(0);
    let negative = first == '-';
    let start: usize = if first == '-' || first == '+' {
        1
    } else {
        0
    };
    if start == n {
        return None;
    }
    let ghost digits = unsigned_part(s@);
    assert(digits =~= s@.subrange(start as int, n as int));
    let mut acc: isize = 0;
    let mut i: usize = start;
    assert(digits.take(0) =~= Seq::<char>::empty());
    while i < n
        invariant
            n == s@.len(),
            start <= i <= n,
            start < n,
            digits == s@.subrange(start as int, n as int),
            digits == unsigned_part(s@),
            negative == (s@[0] == '-'),
            all_digits(digits.take(i - start)),
            negative ==> acc == -digits_value(digits.take(i - start)),
            !negative ==> acc == digits_value(digits.take(i - start)),
        decreases n - i,
    {
        let c = s.get_char(i);
        let ghost k = i - start;
        assert(digits[k] == c);
        let code: u32 = c as u32;
        if code < 48 || code > 57 {
            assert(!is_digit(digits[k]));
            return None;
        }
        let d: isize = (code - 48) as isize;
        proof {
            let t = digits.take(k + 1);
            assert(t.drop_last() =~= digits.take(k));
            assert(t.last() == c);
            assert forall|j: int| 0 <= j < t.len() implies is_digit(#[trigger] t[j]) by {
                if j < k {
                    assert(t[j] == digits.take(k)[j]);
                }
            }
            lemma_digits_value_nonnegative(digits.take(k));
            if all_digits(digits) {
                lemma_digits_value_grows(digits, k + 1);
            }
        }
        let scaled = acc.checked_mul(10);
        let next = match scaled {
            Some(m) => if negative {
                m.checked_sub(d)
            } else {
                m.checked_add(d)
            },
            None => None,
        };
        match next {
            Some(v) => {
                acc = v;
            },
            None => {
                proof {
                    let reached = digits_value(digits.take(k + 1));
                    assert(reached == digits_value(digits.take(k)) * 10 + d);
                    assert(negative ==> -reached < isize::MIN);
                    assert(!negative ==> reached > isize::MAX);
                }
                return None;
            },
        }
        i += 1;
    }
    assert(digits.take(n - start) =~= digits);
    Some(acc)
}

/// `c` is the lower-case letter `letter`, or its upper-case form.
pub open spec fn is_letter(c: char, letter: char) -> bool {
    c == letter || (65 <= c as u32 <= 90 && c as u32 + 32 == letter as u32)
}

/// `s` spells `word`, which is in lower case, in whatever case.
pub open spec fn spells(s: Seq<char>, word: Seq<char>) -> bool {
    s.len() == word.len() && forall|i: int| 0 <= i < s.len() ==> is_letter(#[trigger] s[i], word[i])
}

/// One of the three names of values that are no ordinary numbers.
pub open spec fn is_special_float(s: Seq<char>) -> bool {
    spells(s, "inf"@) || spells(s, "infinity"@) || spells(s, "nan"@)
}

/// Where the longest run of digits that starts at `from` ends.
pub open spec fn digit_run(s: Seq<char>, from: int) -> int
    decreases s.len() - from,
{
    if 0 <= from < s.len() && is_digit(s[from]) {
        digit_run(s, from + 1)
    } else {
        from
    }
}

/// From `from` to the end, `s` holds an optional sign and then one or more
/// digits.
pub open spec fn is_exponent(s: Seq<char>, from: int) -> bool {
    let k = if from < s.len() && (s[from] == '+' || s[from] == '-') {
        from + 1
    } else {
        from
    };
    k < s.len() && digit_run(s, k) == s.len()
}

/// An unsigned decimal number: digits with at most one point among them,
/// at least one digit before or after the point, then an optional
/// exponent, which is `e` or `E`, an optional sign and one or more digits.
pub open spec fn is_decimal_number(s: Seq<char>) -> bool {
    let a = digit_run(s, 0);
    let pointed = a < s.len() && s[a] == '.';
    let b = if pointed {
        digit_run(s, a + 1)
    } else {
        a
    };
    let has_digits = a > 0 || (pointed && b > a + 1);
    has_digits && (b == s.len() || (is_letter(s[b], 'e') && is_exponent(s, b + 1)))
}

/// The grammar of floating-point literals: an optional sign, then `inf`,
/// `infinity` or `nan` in any case, or a decimal number.
pub open spec fn is_float_text(s: Seq<char>) -> bool {
    is_special_float(unsigned_part(s)) || is_decimal_number(unsigned_part(s))
}

/// Whether `c` is `letter` in either case.
fn letter_matches(c: char, letter: char) -> (r: bool)
    ensures
        r == is_letter(c, letter),
{
    let code: u32 = c as u32;
    c == letter || (65 <= code && code <= 90 && code + 32 == letter as u32)
}

/// Whether the characters of `s` from `from` on spell `word`.
fn tail_spells(s: &str, from: usize, word: &str) -> (r: bool)
    requires
        from <= s@.len(),
    ensures
        r == spells(s@.subrange(from as int, s@.len() as int), word@),
{
    let n: usize = s.unicode_len();
    let m: usize = word.unicode_len();
    let ghost tail = s@.subrange(from as int, n as int);
    if n - from != m {
        return false;
    }
    let mut i: usize = 0;
    while i < m
        invariant
            n == s@.len(),
            m == word@.len(),
            from + m == n,
            0 <= i <= m,
            tail == s@.subrange(from as int, n as int),
            forall|j: int| 0 <= j < i ==> is_letter(#[trigger] tail[j], word@[j]),
        decreases m - i,
    {
        if !letter_matches(s.get_char(from + i), word.get_char(i)) {
            assert(!is_letter(tail[i as int], word@[i as int]));
            return false;
        }
        i += 1;
    }
    true
}

/// Where the run of digits of `s` that starts at `from` ends.
fn scan_digits(s: &str, from: usize) -> (r: usize)
    requires
        from <= s@.len(),
    ensures
        r == digit_run(s@, from as int),
        from <= r <= s@.len(),
{
    let n: usize = s.unicode_len();
    let mut i: usize = from;
    while i < n
        invariant
            n == s@.len(),
            from <= i <= n,
            digit_run(s@, from as int) == digit_run(s@, i as int),
        decreases n - i,
    {
        let code: u32 = s.get_char(i) as u32;
        if code < 48 || code > 57 {
            return i;
        }
        i += 1;
    }
    i
}

/// Whether the characters of `s` from `from` on are a decimal number.
fn tail_is_decimal_number(s: &str, from: usize) -> (r: bool)
    requires
        from <= s@.len(),
    ensures
        r == is_decimal_number(s@.subrange(from as int, s@.len() as int)),
{
    let n: usize = s.unicode_len();
    let ghost tail = s@.subrange(from as int, n as int);
    proof {
        lemma_digit_run_shift(s@, from as int, from as int);
    }
    let a: usize = scan_digits(s, from);
    let pointed = a < n && s.get_char(a) == '.';
    let b: usize = if pointed {
        proof {
            lemma_digit_run_shift(s@, from as int, a + 1);
        }
        scan_digits(s, a + 1)
    } else {
        a
    };
    let has_digits = a > from || (pointed && b > a + 1);
    if !has_digits {
        return false;
    }
    if b == n {
        return true;
    }
    if !letter_matches(s.get_char(b), 'e') {
        return false;
    }
    let e: usize = b + 1;
    let k: usize = if e < n && (s.get_char(e) == '+' || s.get_char(e) == '-') {
        e + 1
    } else {
        e
    };
    if k >= n {
        return false;
    }
    proof {
        lemma_digit_run_shift(s@, from as int, k as int);
    }
    scan_digits(s, k) == n
}

/// A run of digits in a tail of `s` ends where it ends in `s`.
proof fn lemma_digit_run_shift(s: Seq<char>, from: int, at: int)
    requires
        0 <= from <= at <= s.len(),
    ensures
        digit_run(s.subrange(from, s.len() as int), at - from) == digit_run(s, at) - from,
    decreases s.len() - at,
{
    let tail = s.subrange(from, s.len() as int);
    if at < s.len() {
        assert(tail[at - from] == s[at]);
        if is_digit(s[at]) {
            lemma_digit_run_shift(s, from, at + 1);
        }
    }
}

/// Whether `s` is a floating-point literal.
pub fn is_float(s: &str) -> (r: bool)
    ensures
        r == is_float_text(s@),
{
    let n: usize = s.unicode_len();
    let start: usize = if n > 0 && (s.get_char(0) == '+' || s.get_char(0) == '-') {
        1
    } else {
        0
    };
    assert(unsigned_part(s@) =~= s@.subrange(start as int, n as int));
    tail_spells(s, start, "inf") || tail_spells(s, start, "infinity") || tail_spells(
        s,
        start,
        "nan",
    ) || tail_is_decimal_number(s, start)
}

} // verus!
