//! Verified helpers on characters and strings.

use vstd::prelude::*;

verus! {

broadcast use vstd::string::group_string_axioms;

/// The characters of `s`, in order.
pub fn chars_of(s: &str) -> (v: Vec<char>)
    ensures
        v@ == s@,
{
    let mut v: Vec<char> = Vec::new();
    for c in iter: s.chars()
        invariant
            v@ == iter.seq().take(iter.index()),
            iter.seq() == s@,
    {
        v.push(c);
    }
    v
}

/// Appends `c` to `s` (`String::push`).  Trusted to append exactly that
/// character.
#[verifier::external_body]
pub(crate) fn push_char(s: &mut String, c: char)
    ensures
        final(s)@ == old(s)@.push(c),
{
    s.push(c);
}

/// A string made of the characters of `chars`.
pub fn string_from_chars(chars: &[char]) -> (s: String)
    ensures
        s@ == chars@,
{
    let mut s = String::new();
    let mut i: usize = 0;
    while i < chars.len()
        invariant
            i <= chars.len(),
            s@ == chars@.take(i as int),
        decreases chars.len() - i,
    {
        push_char(&mut s, chars[i]);
        i += 1;
        assert(s@ =~= chars@.take(i as int));
    }
    assert(chars@.take(i as int) =~= chars@);
    s
}

/// Unicode `White_Space` (`char::is_whitespace`).
pub open spec fn is_whitespace(c: char) -> bool {
    let u = c as u32;
    ||| 0x9 <= u <= 0xd
    ||| u == 0x20
    ||| u == 0x85
    ||| u == 0xa0
    ||| u == 0x1680
    ||| 0x2000 <= u <= 0x200a
    ||| u == 0x2028
    ||| u == 0x2029
    ||| u == 0x202f
    ||| u == 0x205f
    ||| u == 0x3000
}

pub fn is_whitespace_exec(c: char) -> (b: bool)
    ensures
        b == is_whitespace(c),
{
    let u = c as u32;
    (0x9 <= u && u <= 0xd) || u == 0x20 || u == 0x85 || u == 0xa0 || u == 0x1680 || (0x2000 <= u
        && u <= 0x200a) || u == 0x2028 || u == 0x2029 || u == 0x202f || u == 0x205f || u == 0x3000
}

/// Number of whitespace characters at the start of `s`.
pub open spec fn leading_ws(s: Seq<char>) -> nat
    decreases s.len(),
{
    if s.len() > 0 && is_whitespace(s[0]) {
        1 + leading_ws(s.drop_first())
    } else {
        0
    }
}

/// Number of whitespace characters at the end of `s`.
pub open spec fn trailing_ws(s: Seq<char>) -> nat
    decreases s.len(),
{
    if s.len() > 0 && is_whitespace(s.last()) {
        1 + trailing_ws(s.drop_last())
    } else {
        0
    }
}

/// `s` without leading and trailing whitespace (`str::trim`).
pub open spec fn trim(s: Seq<char>) -> Seq<char> {
    let a = s.skip(leading_ws(s) as int);
    a.take(a.len() - trailing_ws(a))
}

/// The bounds `[start, end)` of `chars[from..to]` without its leading and
/// trailing whitespace.
pub fn trim_range(chars: &[char], from: usize, to: usize) -> (r: (usize, usize))
    requires
        from <= to <= chars.len(),
    ensures
        from <= r.0 <= r.1 <= to,
        chars@.subrange(r.0 as int, r.1 as int) == trim(chars@.subrange(from as int, to as int)),
{
    let ghost s = chars@.subrange(from as int, to as int);
    let mut i = from;
    assert(s.skip(0) =~= s);
    while i < to && is_whitespace_exec(chars[i])
        invariant
            from <= i <= to <= chars.len(),
            s == chars@.subrange(from as int, to as int),
            leading_ws(s) == (i - from) + leading_ws(s.skip(i - from)),
        decreases to - i,
    {
        assert(s.skip(i - from).drop_first() =~= s.skip(i - from + 1));
        i += 1;
    }
    let ghost a = s.skip(i - from);
    assert(leading_ws(s.skip(i - from)) == 0);
    assert(a =~= chars@.subrange(i as int, to as int));
    let mut j = to;
    assert(a.take(a.len() as int) =~= a);
    while j > i && is_whitespace_exec(chars[j - 1])
        invariant
            from <= i <= j <= to <= chars.len(),
            a == chars@.subrange(i as int, to as int),
            trailing_ws(a) == (to - j) + trailing_ws(a.take(j - i)),
        decreases j - i,
    {
        assert(a.take(j - i).drop_last() =~= a.take(j - i - 1));
        j -= 1;
    }
    assert(trailing_ws(a.take(j - i)) == 0);
    assert(chars@.subrange(i as int, j as int) =~= a.take(a.len() - trailing_ws(a)));
    (i, j)
}

/// Index of the first `sep` in `s` at or after `i`.
pub open spec fn find_from(s: Seq<char>, sep: char, i: int) -> Option<int>
    decreases s.len() - i,
{
    if i < 0 || i >= s.len() {
        None
    } else if s[i] == sep {
        Some(i)
    } else {
        find_from(s, sep, i + 1)
    }
}

/// The pieces of `s` between occurrences of `sep` (`str::split` with a
/// character pattern): there is always at least one piece.
pub open spec fn split(s: Seq<char>, sep: char) -> Seq<Seq<char>>
    decreases s.len(),
{
    match find_from(s, sep, 0) {
        None => seq![s],
        Some(k) => {
            proof {
                lemma_find_from_bounds(s, sep, 0);
            }
            seq![s.take(k)] + split(s.skip(k + 1), sep)
        },
    }
}

/// A separator found from `i` on lies at or after `i` and is `sep`; when
/// none is found, no character from `i` on is `sep`.
pub proof fn lemma_find_from_bounds(s: Seq<char>, sep: char, i: int)
    requires
        0 <= i,
    ensures
        find_from(s, sep, i) matches Some(k) ==> i <= k < s.len() && s[k] == sep,
        find_from(s, sep, i) is None ==> forall|j: int| i <= j < s.len() ==> s[j] != sep,
    decreases s.len() - i,
{
    if i < s.len() && s[i] != sep {
        lemma_find_from_bounds(s, sep, i + 1);
    }
}

/// Position of the first `sep` in `chars[from..to]`, if any.
pub fn find_char(chars: &[char], from: usize, to: usize, sep: char) -> (r: Option<usize>)
    requires
        from <= to <= chars.len(),
    ensures
        match r {
            Some(k) => from <= k < to && chars@[k as int] == sep && find_from(chars@.subrange(from as int, to as int), sep, 0) == Some(k - from),
            None => find_from(chars@.subrange(from as int, to as int), sep, 0) is None,
        },
{
    let ghost s = chars@.subrange(from as int, to as int);
    let mut i = from;
    while i < to
        invariant
            from <= i <= to <= chars.len(),
            s == chars@.subrange(from as int, to as int),
            find_from(s, sep, 0) == find_from(s, sep, i - from),
        decreases to - i,
    {
        if chars[i] == sep {
            return Some(i);
        }
        i += 1;
    }
    None
}

/// `c` is an ASCII decimal digit.
pub open spec fn is_digit(c: char) -> bool {
    '0' <= c <= '9'
}

/// The value of a string of decimal digits.
pub open spec fn digits_value(s: Seq<char>) -> int
    decreases s.len(),
{
    if s.len() == 0 {
        0
    } else {
        digits_value(s.drop_last()) * 10 + (s.last() as int - '0' as int)
    }
}

/// `s` without a leading `+` or `-` sign.
pub open spec fn unsigned_part(s: Seq<char>) -> Seq<char> {
    if s.len() > 0 && (s[0] == '-' || s[0] == '+') {
        s.drop_first()
    } else {
        s
    }
}

/// Every character of `d` is a decimal digit.
pub open spec fn all_digits(d: Seq<char>) -> bool {
    forall|i: int| 0 <= i < d.len() ==> #[trigger] is_digit(d[i])
}

/// The decimal integer written in `s` (`i32::from_str`): an optional `+` or
/// `-`, then one or more ASCII digits, with a value that fits in `i32`.
pub open spec fn parse_i32(s: Seq<char>) -> Option<i32> {
    let d = unsigned_part(s);
    let v = if s.len() > 0 && s[0] == '-' {
        -digits_value(d)
    } else {
        digits_value(d)
    };
    if d.len() == 0 || !all_digits(d) {
        None
    } else if i32::MIN <= v <= i32::MAX {
        Some(v as i32)
    } else {
        None
    }
}

proof fn lemma_digits_value_grows(s: Seq<char>, i: int)
    requires
        0 <= i <= s.len(),
        forall|j: int| 0 <= j < s.len() ==> #[trigger] is_digit(s[j]),
    ensures
        0 <= digits_value(s.take(i)) <= digits_value(s),
    decreases s.len() - i,
{
    if i < s.len() {
        lemma_digits_value_grows(s, i + 1);
        assert(s.take(i + 1).drop_last() =~= s.take(i));
        assert(is_digit(s[i]));
    } else {
        assert(s.take(i) =~= s);
        lemma_digits_value_nonneg(s);
    }
}

proof fn lemma_digits_value_nonneg(s: Seq<char>)
    requires
        forall|j: int| 0 <= j < s.len() ==> #[trigger] is_digit(s[j]),
    ensures
        digits_value(s) >= 0,
    decreases s.len(),
{
    if s.len() > 0 {
        assert(is_digit(s[s.len() - 1]));
        lemma_digits_value_nonneg(s.drop_last());
    }
}

/// Parse `chars[from..to]` as a decimal `i32`, as `i32::from_str` does.
pub fn parse_i32_range(chars: &[char], from: usize, to: usize) -> (r: Option<i32>)
    requires
        from <= to <= chars.len(),
    ensures
        r == parse_i32(chars@.subrange(from as int, to as int)),
{
    let ghost s = chars@.subrange(from as int, to as int);
    let mut i = from;
    let mut neg = false;
    if from < to && (chars[from] == '-' || chars[from] == '+') {
        neg = chars[from] == '-';
        i = from + 1;
    }
    let ghost digits = chars@.subrange(i as int, to as int);
    assert(digits =~= unsigned_part(s));
    assert(neg == (s.len() > 0 && s[0] == '-'));
    if i == to {
        return None;
    }
    let start = i;
    let mut acc: i64 = 0;
    while i < to
        invariant
            from <= start <= i <= to <= chars.len(),
            digits == chars@.subrange(start as int, to as int),
            s == chars@.subrange(from as int, to as int),
            digits == unsigned_part(s),
            neg == (s.len() > 0 && s[0] == '-'),
            acc == digits_value(digits.take(i - start)),
            0 <= acc <= 0x8000_0000,
            forall|j: int| 0 <= j < i - start ==> #[trigger] is_digit(digits[j]),
        decreases to - i,
    {
        let c = chars[i];
        if !('0' <= c && c <= '9') {
            assert(!is_digit(digits[i - start]));
            assert(!all_digits(digits));
            return None;
        }
        assert(digits.take(i - start + 1).drop_last() =~= digits.take(i - start));
        acc = acc * 10 + (c as u32 - '0' as u32) as i64;
        i += 1;
        if acc > 0x8000_0000 {
            proof {
                if all_digits(digits) {
                    lemma_digits_value_grows(digits, i - start);
                }
            }
            return None;
        }
    }
    assert(digits.take(i - start) =~= digits);
    assert(all_digits(digits));
    if neg {
        Some((-acc) as i32)
    } else if acc <= 0x7fff_ffff {
        Some(acc as i32)
    } else {
        None
    }
}

/// A string made of `chars[from..to]`.
pub fn string_from_range(chars: &[char], from: usize, to: usize) -> (s: String)
    requires
        from <= to <= chars.len(),
    ensures
        s@ == chars@.subrange(from as int, to as int),
{
    let mut s = String::new();
    let mut i: usize = from;
    while i < to
        invariant
            from <= i <= to <= chars.len(),
            s@ == chars@.subrange(from as int, i as int),
        decreases to - i,
    {
        push_char(&mut s, chars[i]);
        i += 1;
        assert(s@ =~= chars@.subrange(from as int, i as int));
    }
    s
}

proof fn lemma_leading_ws_stop(s: Seq<char>)
    ensures
        leading_ws(s) <= s.len(),
        leading_ws(s) < s.len() ==> !is_whitespace(s[leading_ws(s) as int]),
    decreases s.len(),
{
    if s.len() > 0 && is_whitespace(s[0]) {
        lemma_leading_ws_stop(s.drop_first());
    }
}

proof fn lemma_trailing_ws_stop(s: Seq<char>)
    ensures
        trailing_ws(s) <= s.len(),
        trailing_ws(s) < s.len() ==> !is_whitespace(s[s.len() - trailing_ws(s) - 1]),
    decreases s.len(),
{
    if s.len() > 0 && is_whitespace(s.last()) {
        lemma_trailing_ws_stop(s.drop_last());
    }
}

/// Trimming twice is trimming once.
pub proof fn lemma_trim_idempotent(s: Seq<char>)
    ensures
        trim(trim(s)) == trim(s),
{
    lemma_leading_ws_stop(s);
    let a = s.skip(leading_ws(s) as int);
    lemma_trailing_ws_stop(a);
    let t = trim(s);
    if t.len() > 0 {
        assert(t[0] == a[0]);
        assert(leading_ws(t) == 0);
        assert(t.last() == a[a.len() - trailing_ws(a) - 1]);
        assert(trailing_ws(t) == 0);
    }
    assert(trim(t) =~= t);
}

} // verus!
