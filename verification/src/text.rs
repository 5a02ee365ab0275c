//! Small verified string helpers shared by the other modules.

use vstd::prelude::*;

verus! {

/// Appends `c` to `s` by calling std's `String::push`, which its
/// documentation says appends the given character to the end of the
/// string. Trusted: the contract, that the characters of `s` gain `c` at the
/// end, is taken from that documentation and not proved here.
#[verifier::external_body]
pub(crate) fn push_char(s: &mut String, c: char)
    ensures
        final(s)@ == old(s)@.push(c),
{
    s.push(c);
}

/// The character with code `v`, if there is one, by calling std's
/// `char::from_u32`, which its documentation says returns `None` exactly
/// when `v` is not a valid `char` (a surrogate, or above 0x10FFFF).
/// Trusted: the contract is taken from that documentation.
#[verifier::external_body]
pub(crate) fn char_from_code(v: u32) -> (r: Option<char>)
    ensures
        r == (if v < 0xD800 || (0xE000 <= v && v <= 0x10FFFF) {
            Some(v as char)
        } else {
            None
        }),
{
    char::from_u32(v)
}

/// The characters of `s`, in order.
pub fn chars_of(s: &str) -> (res: Vec<char>)
    ensures
        res@ == s@,
{
    let mut out: Vec<char> = Vec::new();
    for c in it: s.chars()
        invariant
            out@ == it.seq().take(it.index() as int),
            it.seq() == s@,
    {
        out.push(c);
    }
    out
}

/// Whether two strings hold the same characters.
pub fn same_text(a: &str, b: &str) -> (r: bool)
    ensures
        r == (a@ == b@),
{
    let n = a.unicode_len();
    if n != b.unicode_len() {
        return false;
    }
    let mut i: usize = 0;
    while i < n
        invariant
            n == a@.len() == b@.len(),
            i <= n,
            a@.take(i as int) == b@.take(i as int),
        decreases n - i,
    {
        if a.get_char(i) != b.get_char(i) {
            assert(a@[i as int] != b@[i as int]);
            return false;
        }
        assert(a@.take(i + 1) == a@.take(i as int).push(a@[i as int]));
        assert(b@.take(i + 1) == b@.take(i as int).push(b@[i as int]));
        i = i + 1;
    }
    assert(a@ == a@.take(n as int));
    assert(b@ == b@.take(n as int));
    true
}

/// Unicode White_Space, the set `char::is_whitespace` tests for.
pub open spec fn is_white_space(c: char) -> bool {
    ('\u{9}' <= c <= '\u{d}') || c == ' ' || c == '\u{85}' || c == '\u{a0}' || c == '\u{1680}'
        || ('\u{2000}' <= c <= '\u{200a}') || c == '\u{2028}' || c == '\u{2029}' || c == '\u{202f}'
        || c == '\u{205f}' || c == '\u{3000}'
}

/// Number of white-space characters at the start of `s`.
pub open spec fn leading_ws(s: Seq<char>) -> nat
    decreases s.len(),
{
    if s.len() > 0 && is_white_space(s[0]) {
        1 + leading_ws(s.drop_first())
    } else {
        0
    }
}

/// Number of white-space characters at the end of `s`.
pub open spec fn trailing_ws(s: Seq<char>) -> nat
    decreases s.len(),
{
    if s.len() > 0 && is_white_space(s.last()) {
        1 + trailing_ws(s.drop_last())
    } else {
        0
    }
}

/// `s` without leading and trailing white space, as `str::trim` gives it.
pub open spec fn trimmed(s: Seq<char>) -> Seq<char> {
    let front = s.skip(leading_ws(s) as int);
    front.take(front.len() - trailing_ws(front))
}

proof fn lemma_leading_ws(s: Seq<char>, k: int)
    requires
        0 <= k <= s.len(),
        forall|j: int| 0 <= j < k ==> is_white_space(#[trigger] s[j]),
    ensures
        leading_ws(s) == k + leading_ws(s.skip(k)),
    decreases k,
{
    if k > 0 {
        lemma_leading_ws(s.drop_first(), k - 1);
        assert(s.drop_first().skip(k - 1) == s.skip(k));
    } else {
        assert(s.skip(0) == s);
    }
}

proof fn lemma_trailing_ws(s: Seq<char>, k: int)
    requires
        0 <= k <= s.len(),
        forall|j: int| k <= j < s.len() ==> is_white_space(#[trigger] s[j]),
    ensures
        trailing_ws(s) == (s.len() - k) + trailing_ws(s.take(k)),
    decreases s.len() - k,
{
    if k < s.len() {
        lemma_trailing_ws(s.drop_last(), k);
        assert(s.drop_last().take(k) == s.take(k));
    } else {
        assert(s.take(k) == s);
    }
}

/// The characters of `s[from..to]` with leading and trailing white space
/// removed.
pub fn trim_range(s: &[char], from: usize, to: usize) -> (res: Vec<char>)
    requires
        from <= to <= s@.len(),
    ensures
        res@ == trimmed(s@.subrange(from as int, to as int)),
{
    let ghost r = s@.subrange(from as int, to as int);
    let mut start: usize = from;
    while start < to && is_ws(s[start])
        invariant
            from <= start <= to <= s@.len(),
            r == s@.subrange(from as int, to as int),
            forall|j: int| 0 <= j < start - from ==> is_white_space(#[trigger] r[j]),
        decreases to - start,
    {
        assert(r[start - from] == s@[start as int]);
        start = start + 1;
    }
    proof {
        lemma_leading_ws(r, start - from);
        if start < to {
            assert(r.skip(start - from)[0] == s@[start as int]);
        }
    }
    let ghost front = r.skip(start - from);
    let mut end: usize = to;
    while end > start && is_ws(s[end - 1])
        invariant
            from <= start <= end <= to <= s@.len(),
            forall|j: int| end <= j < to ==> is_white_space(#[trigger] s@[j]),
        decreases end - start,
    {
        end = end - 1;
    }
    proof {
        let k = end - start;
        assert forall|j: int| k <= j < front.len() implies is_white_space(#[trigger] front[j]) by {
            assert(front[j] == s@[j + start]);
        }
        lemma_trailing_ws(front, k);
        if k > 0 {
            assert(front.take(k).last() == s@[end - 1]);
        }
    }
    let mut out: Vec<char> = Vec::new();
    let mut i = start;
    while i < end
        invariant
            start <= i <= end <= s@.len(),
            out@ == s@.subrange(start as int, i as int),
        decreases end - i,
    {
        out.push(s[i]);
        assert(s@.subrange(start as int, i + 1) == s@.subrange(start as int, i as int).push(
            s@[i as int],
        ));
        i = i + 1;
    }
    assert(out@ =~= front.take(front.len() - trailing_ws(front)));
    out
}

/// `char::is_whitespace`.
pub fn is_ws(c: char) -> (r: bool)
    ensures
        r == is_white_space(c),
{
    ('\u{9}' <= c && c <= '\u{d}') || c == ' ' || c == '\u{85}' || c == '\u{a0}' || c == '\u{1680}'
        || ('\u{2000}' <= c && c <= '\u{200a}') || c == '\u{2028}' || c == '\u{2029}' || c
        == '\u{202f}' || c == '\u{205f}' || c == '\u{3000}'
}

/// A string holding exactly `chars`.
pub fn string_of(chars: &[char]) -> (res: String)
    ensures
        res@ == chars@,
{
    let mut out = String::new();
    let mut i: usize = 0;
    while i < chars.len()
        invariant
            i <= chars@.len(),
            out@ == chars@.take(i as int),
        decreases chars.len() - i,
    {
        push_char(&mut out, chars[i]);
        assert(chars@.take(i + 1) == chars@.take(i as int).push(chars@[i as int]));
        i = i + 1;
    }
    assert(chars@.take(chars@.len() as int) == chars@);
    out
}

/// Whether `c` is an ASCII decimal digit.
pub open spec fn is_digit(c: char) -> bool {
    '0' <= c <= '9'
}

/// The number written by the decimal digits `s`.
pub open spec fn digits_value(s: Seq<char>) -> int
    decreases s.len(),
{
    if s.len() == 0 {
        0
    } else {
        digits_value(s.drop_last()) * 10 + (s.last() as int - '0' as int)
    }
}

/// `s` without one leading `+`, if it has one.
pub open spec fn unsigned_digits(s: Seq<char>) -> Seq<char> {
    if s.len() > 0 && s[0] == '+' {
        s.drop_first()
    } else {
        s
    }
}

/// Whether every character of `d` is a decimal digit.
pub open spec fn all_digits(d: Seq<char>) -> bool {
    forall|i: int| 0 <= i < d.len() ==> is_digit(#[trigger] d[i])
}

/// What `str::parse` gives for an unsigned integer type whose largest value
/// is `max`: an optional `+`, then one or more decimal digits whose value is
/// at most `max`; anything else is an error.
pub open spec fn parse_unsigned(s: Seq<char>, max: int) -> Option<int> {
    let d = unsigned_digits(s);
    if d.len() > 0 && all_digits(d) && digits_value(d) <= max {
        Some(digits_value(d))
    } else {
        None
    }
}

proof fn lemma_digits_value_nonneg(s: Seq<char>)
    requires
        forall|i: int| 0 <= i < s.len() ==> is_digit(#[trigger] s[i]),
    ensures
        digits_value(s) >= 0,
    decreases s.len(),
{
    if s.len() > 0 {
        lemma_digits_value_nonneg(s.drop_last());
    }
}

/// What `parse_unsigned` gives is a number from 0 to `max`.
pub proof fn lemma_parse_unsigned_range(s: Seq<char>, max: int)
    ensures
        parse_unsigned(s, max) matches Some(n) ==> 0 <= n <= max,
{
    let d = unsigned_digits(s);
    if d.len() > 0 && all_digits(d) {
        lemma_digits_value_nonneg(d);
    }
}

/// Parses an unsigned decimal number no larger than `max`, as `str::parse`
/// does for the unsigned type whose largest value is `max`.
pub fn parse_unsigned_upto(s: &str, max: u64) -> (r: Option<u64>)
    ensures
        r is Some ==> parse_unsigned(s@, max as int) == Some(r->0 as int),
        r is None ==> parse_unsigned(s@, max as int) is None,
{
    let chars = chars_of(s);
    let n = chars.len();
    let start: usize = if n > 0 && chars[0] == '+' { 1 } else { 0 };
    let ghost d = chars@.skip(start as int);
    assert(d == unsigned_digits(s@));
    if start == n {
        assert(d.len() == 0);
        assert(parse_unsigned(s@, max as int) is None);
        return None;
    }
    let mut value: u64 = 0;
    let mut over = false;
    let mut k = start;
    while k < n
        invariant
            start <= k <= n == chars@.len(),
            chars@ == s@,
            d == chars@.skip(start as int),
            d == unsigned_digits(s@),
            forall|j: int| 0 <= j < k - start ==> is_digit(#[trigger] d[j]),
            !over ==> value == digits_value(d.take(k - start)) && value <= max,
            over ==> digits_value(d.take(k - start)) > max,
        decreases n - k,
    {
        let c = chars[k];
        if !('0' <= c && c <= '9') {
            assert(d[k - start] == c);
            assert(!is_digit(d[k - start]));
            return None;
        }
        let ghost prev = d.take(k - start);
        assert(d.take(k - start + 1).drop_last() == prev);
        assert(d.take(k - start + 1).last() == c);
        proof {
            assert forall|j: int| 0 <= j < k - start implies is_digit(#[trigger] prev[j]) by {
                assert(prev[j] == d[j]);
            }
            lemma_digits_value_nonneg(prev);
        }
        let digit = (c as u32 - '0' as u32) as u64;
        if !over {
            let next: u128 = value as u128 * 10 + digit as u128;
            if next > max as u128 {
                over = true;
            } else {
                value = next as u64;
            }
        }
        k = k + 1;
    }
    assert(d.take(n - start) == d);
    if over {
        None
    } else {
        Some(value)
    }
}

/// Index of the first `c` in `s` at or after `from`, or the length of `s`
/// when there is none.
pub open spec fn index_of_from(s: Seq<char>, c: char, from: int) -> int
    decreases s.len() - from,
{
    if from < 0 || from >= s.len() {
        s.len() as int
    } else if s[from] == c {
        from
    } else {
        index_of_from(s, c, from + 1)
    }
}

/// Index of the first `c` in `s`, or the length of `s` when there is none.
pub open spec fn index_of(s: Seq<char>, c: char) -> int {
    index_of_from(s, c, 0)
}

/// Where the first `c` in `s` is, if anywhere.
pub fn find_char(s: &[char], c: char) -> (r: usize)
    ensures
        r == index_of(s@, c),
        r <= s@.len(),
{
    let mut i: usize = 0;
    while i < s.len()
        invariant
            i <= s@.len(),
            index_of_from(s@, c, 0) == index_of_from(s@, c, i as int),
        decreases s.len() - i,
    {
        if s[i] == c {
            return i;
        }
        i = i + 1;
    }
    i
}

/// A flat map is the image of the first element followed by the flat map
/// of the rest.
pub proof fn lemma_flat_map_first<A, B>(s: Seq<A>, f: spec_fn(A) -> Seq<B>)
    requires
        s.len() > 0,
    ensures
        s.flat_map(f) == f(s[0]) + s.drop_first().flat_map(f),
{
    assert(s.map_values(f).drop_first() =~= s.drop_first().map_values(f));
}

/// A flat map is the flat map of all but the last element followed by the
/// image of the last.
pub proof fn lemma_flat_map_last<A, B>(s: Seq<A>, f: spec_fn(A) -> Seq<B>)
    requires
        s.len() > 0,
    ensures
        s.flat_map(f) == s.drop_last().flat_map(f) + f(s.last()),
{
    s.drop_last().lemma_flat_map_push(f, s.last());
    assert(s.drop_last().push(s.last()) =~= s);
}

} // verus!
