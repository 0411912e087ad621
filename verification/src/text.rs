use vstd::prelude::*;
use vstd::string::*;

verus! {

/// Whether `c` is white space: the characters that separate the words of a
/// line.
pub open spec fn is_space(c: char) -> bool {
    let n = c as u32;
    ||| 0x09 <= n <= 0x0D
    ||| n == 0x20
    ||| n == 0x85
    ||| n == 0xA0
    ||| n == 0x1680
    ||| 0x2000 <= n <= 0x200A
    ||| n == 0x2028
    ||| n == 0x2029
    ||| n == 0x202F
    ||| n == 0x205F
    ||| n == 0x3000
}

/// The first position from `i` on that holds no white space, or the length
/// of `s`.
pub open spec fn skip_spaces(s: Seq<char>, i: int) -> int
    decreases s.len() - i,
{
    if 0 <= i < s.len() && is_space(s[i]) {
        skip_spaces(s, i + 1)
    } else {
        i
    }
}

/// The first position from `i` on that holds white space, or the length of
/// `s`.
pub open spec fn skip_word(s: Seq<char>, i: int) -> int
    decreases s.len() - i,
{
    if 0 <= i < s.len() && !is_space(s[i]) {
        skip_word(s, i + 1)
    } else {
        i
    }
}

/// Where word `n` of `s` begins and ends, counting from 0 the words that
/// begin at `from` or later.
pub open spec fn word_span(s: Seq<char>, n: nat, from: int) -> Option<(int, int)>
    decreases n,
{
    let a = skip_spaces(s, from);
    if a >= s.len() {
        None
    } else if n == 0 {
        Some((a, skip_word(s, a)))
    } else {
        word_span(s, (n - 1) as nat, skip_word(s, a))
    }
}

/// Word `n` of `s`, where words are the longest runs without white space.
pub open spec fn word(s: Seq<char>, n: nat) -> Option<Seq<char>> {
    match word_span(s, n, 0) {
        Some((a, b)) => Some(s.subrange(a, b)),
        None => None,
    }
}

/// `p` is how `s` begins.
pub open spec fn has_prefix(s: Seq<char>, p: Seq<char>) -> bool {
    p.len() <= s.len() && s.subrange(0, p.len() as int) == p
}

/// Whether `c` is one of the digits 0 to 9.
pub open spec fn is_digit(c: char) -> bool {
    0x30 <= c as u32 <= 0x39
}

/// The number that the digit `c` stands for.
pub open spec fn digit_value(c: char) -> int {
    c as u32 - 0x30
}

/// Every character of `s` is a digit.
pub open spec fn all_digits(s: Seq<char>) -> bool {
    forall|i: int| 0 <= i < s.len() ==> is_digit(#[trigger] s[i])
}

/// The number that the digits `s` are the decimal notation of.
pub open spec fn digits_value(s: Seq<char>) -> int
    decreases s.len(),
{
    if s.len() == 0 {
        0
    } else {
        digits_value(s.drop_last()) * 10 + digit_value(s.last())
    }
}

/// The integer that `s` is the decimal notation of: digits, at least one,
/// with or without a sign before them.
pub open spec fn int_of(s: Seq<char>) -> Option<int> {
    if s.len() > 0 && (s[0] == '-' || s[0] == '+') {
        let digits = s.subrange(1, s.len() as int);
        if digits.len() > 0 && all_digits(digits) {
            Some(if s[0] == '-' { -digits_value(digits) } else { digits_value(digits) })
        } else {
            None
        }
    } else if s.len() > 0 && all_digits(s) {
        Some(digits_value(s))
    } else {
        None
    }
}

/// The `i32` that `s` is the decimal notation of, if it is one and fits.
pub open spec fn i32_of(s: Seq<char>) -> Option<i32> {
    match int_of(s) {
        Some(v) => if i32::MIN <= v <= i32::MAX { Some(v as i32) } else { None },
        None => None,
    }
}

/// Digits added to a number's notation do not make the number smaller.
pub proof fn lemma_digits_value_grows(s: Seq<char>, k: int)
    requires
        all_digits(s),
        0 <= k <= s.len(),
    ensures
        0 <= digits_value(s.subrange(0, k)) <= digits_value(s),
    decreases s.len(),
{
    if k == s.len() {
        assert(s.subrange(0, k) =~= s);
        if s.len() > 0 {
            assert(is_digit(s.last()));
            lemma_digits_value_grows(s.drop_last(), k - 1);
        }
    } else {
        assert(is_digit(s.last()));
        assert(s.drop_last().subrange(0, k) =~= s.subrange(0, k));
        lemma_digits_value_grows(s.drop_last(), k);
    }
}

/// Word `n + 1` from `from` on is word `n` after the first word from `from`
/// on.
pub proof fn lemma_word_span_next(s: Seq<char>, n: nat, from: int)
    ensures
        word_span(s, n + 1, from) == match word_span(s, 0, from) {
            Some((a, b)) => word_span(s, n, b),
            None => None,
        },
{
}

/// Whether `c` is white space.
pub fn space(c: char) -> (r: bool)
    ensures
        r == is_space(c),
{
    let n: u32 = c as u32;
    (0x09 <= n && n <= 0x0D) || n == 0x20 || n == 0x85 || n == 0xA0 || n == 0x1680 || (0x2000 <= n
        && n <= 0x200A) || n == 0x2028 || n == 0x2029 || n == 0x202F || n == 0x205F || n == 0x3000
}

/// The bounds of the first word of `s` that begins at `from` or later.
pub fn next_word(s: &str, from: usize) -> (r: Option<(usize, usize)>)
    requires
        from <= s@.len(),
    ensures
        match r {
            Some((a, b)) => word_span(s@, 0, from as int) == Some((a as int, b as int)) && from
                <= a < b <= s@.len(),
            None => word_span(s@, 0, from as int) is None,
        },
{
    let len: usize = s.unicode_len();
    let mut a: usize = from;
    while a < len && space(s.get_char(a))
        invariant
            len == s@.len(),
            from <= a <= len,
            skip_spaces(s@, a as int) == skip_spaces(s@, from as int),
        decreases len - a,
    {
        a = a + 1;
    }
    if a >= len {
        return None;
    }
    let mut b: usize = a + 1;
    while b < len && !space(s.get_char(b))
        invariant
            len == s@.len(),
            a < b <= len,
            skip_word(s@, b as int) == skip_word(s@, a as int),
        decreases len - b,
    {
        b = b + 1;
    }
    Some((a, b))
}

/// Whether `s` begins with `p`.
pub fn starts_with(s: &str, p: &str) -> (r: bool)
    ensures
        r == has_prefix(s@, p@),
{
    let n: usize = p.unicode_len();
    if n > s.unicode_len() {
        return false;
    }
    let mut i: usize = 0;
    while i < n
        invariant
            n == p@.len(),
            n <= s@.len(),
            i <= n,
            forall|j: int| 0 <= j < i ==> s@[j] == p@[j],
        decreases n - i,
    {
        if s.get_char(i) != p.get_char(i) {
            proof {
                assert(s@.subrange(0, n as int)[i as int] == s@[i as int]);
            }
            return false;
        }
        i = i + 1;
    }
    proof {
        assert(s@.subrange(0, n as int) =~= p@);
    }
    true
}

/// Whether `a` and `b` hold the same characters.
pub fn same_text(a: &str, b: &str) -> (r: bool)
    ensures
        r == (a@ == b@),
{
    let same_length = a.unicode_len() == b.unicode_len();
    let r = same_length && starts_with(a, b);
    proof {
        if same_length {
            assert(a@.subrange(0, a@.len() as int) =~= a@);
        }
    }
    r
}

/// Reads `s` as an `i32` in decimal notation.
pub fn parse_i32(s: &str) -> (r: Option<i32>)
    ensures
        r == i32_of(s@),
{
    let len: usize = s.unicode_len();
    if len == 0 {
        return None;
    }
    let first = s.get_char(0);
    let signed = first == '-' || first == '+';
    let start: usize = if signed { 1 } else { 0 };
    if start == len {
        return None;
    }
    let ghost digits = s@.subrange(start as int, len as int);
    proof {
        if !signed {
            assert(digits =~= s@);
        }
    }
    let mut acc: u64 = 0;
    let mut i: usize = start;
    while i < len
        invariant
            len == s@.len(),
            start <= i <= len,
            digits == s@.subrange(start as int, len as int),
            signed == (s@[0] == '-' || s@[0] == '+'),
            start == if signed { 1usize } else { 0usize },
            !signed ==> digits == s@,
            all_digits(digits.subrange(0, i - start)),
            acc == digits_value(digits.subrange(0, i - start)),
            acc <= 0x8000_0000,
        decreases len - i,
    {
        let c = s.get_char(i);
        let n: u32 = c as u32;
        let ghost seen = digits.subrange(0, i - start);
        let ghost more = digits.subrange(0, i + 1 - start);
        proof {
            assert(more.drop_last() =~= seen);
            assert(more.last() == c);
        }
        if n < 0x30 || n > 0x39 {
            proof {
                assert(digits[i - start] == c);
                assert(!all_digits(digits));
            }
            return None;
        }
        acc = acc * 10 + (n - 0x30) as u64;
        proof {
            assert forall|j: int| 0 <= j < more.len() implies is_digit(#[trigger] more[j]) by {
                if j < seen.len() {
                    assert(seen[j] == more[j]);
                }
            }
        }
        if acc > 0x8000_0000 {
            proof {
                if all_digits(digits) {
                    lemma_digits_value_grows(digits, i + 1 - start);
                }
            }
            return None;
        }
        i = i + 1;
    }
    proof {
        assert(digits.subrange(0, len - start) =~= digits);
    }
    if first == '-' {
        if acc == 0x8000_0000 {
            Some(i32::MIN)
        } else {
            Some(-(acc as i32))
        }
    } else if acc <= 0x7fff_ffff {
        Some(acc as i32)
    } else {
        None
    }
}

} // verus!
