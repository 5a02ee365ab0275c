//! Reading a stored action back.
//!
//! A minimal JSON reader for the action format this crate writes:
//! `{"argv":["a","b"],"cwd":"path"|null,"created":12345}`. It works on the
//! characters of the file's text, finds each key by its first occurrence,
//! and decodes the escapes of JSON strings, `\uXXXX` included, so that what
//! the store writes reads back unchanged.

use vstd::prelude::*;

use crate::callback::{
    action_expired, action_json_spec, decimal, expired, hex_lower, joined, json_array,
    json_escape_char,
    json_escaped, json_quoted,
};
use crate::text::{
    char_from_code, chars_of, digits_value, is_white_space, is_ws, lemma_flat_map_first, push_char,
};

verus! {

/// An action stored in the action directory.
#[derive(Debug)]
pub struct StoredAction {
    pub argv: Vec<String>,
    pub cwd: Option<String>,
    pub created: u64,
}

/// A stored action, as the model sees it.
pub struct ActionModel {
    pub argv: Seq<Seq<char>>,
    pub cwd: Option<Seq<char>>,
    pub created: u64,
}

/// The model of a stored action.
pub open spec fn action_view(a: StoredAction) -> ActionModel {
    ActionModel {
        argv: a.argv@.map_values(|s: String| s@),
        cwd: match a.cwd {
            Some(c) => Some(c@),
            None => None,
        },
        created: a.created,
    }
}

// ---------------------------------------------------------------- model

/// Whether `pat` occurs in `b` at `k`.
pub open spec fn occurs_at(b: Seq<char>, pat: Seq<char>, k: int) -> bool {
    0 <= k && k + pat.len() <= b.len() && b.subrange(k, k + pat.len() as int) == pat
}

/// The first position at or after `from` where `pat` occurs in `b`, if any.
pub open spec fn find_from(b: Seq<char>, pat: Seq<char>, from: int) -> Option<int>
    decreases b.len() + 1 - from,
{
    if from < 0 || from + pat.len() > b.len() {
        None
    } else if occurs_at(b, pat, from) {
        Some(from)
    } else {
        find_from(b, pat, from + 1)
    }
}

/// The text `"key":`.
pub open spec fn key_pattern(key: Seq<char>) -> Seq<char> {
    seq!['"'] + key + seq!['"', ':']
}

/// The position of the first character at or after `from` that is not
/// white space.
pub open spec fn skip_ws(b: Seq<char>, from: int) -> int
    decreases b.len() - from,
{
    if from < 0 || from >= b.len() {
        from
    } else if is_white_space(b[from]) {
        skip_ws(b, from + 1)
    } else {
        from
    }
}

/// The value of the hexadecimal digit `c`, or -1 when it is not one.
pub open spec fn hex_value(c: char) -> int {
    if '0' <= c <= '9' {
        c as int - 48
    } else if 'a' <= c <= 'f' {
        c as int - 87
    } else if 'A' <= c <= 'F' {
        c as int - 55
    } else {
        -1
    }
}

/// The number written by the four hexadecimal digits at `p`, or -1 when
/// there are not four of them there.
pub open spec fn hex4(b: Seq<char>, p: int) -> int {
    if 0 <= p && p + 4 <= b.len() && hex_value(b[p]) >= 0 && hex_value(b[p + 1]) >= 0
        && hex_value(b[p + 2]) >= 0 && hex_value(b[p + 3]) >= 0 {
        ((hex_value(b[p]) * 16 + hex_value(b[p + 1])) * 16 + hex_value(b[p + 2])) * 16
            + hex_value(b[p + 3])
    } else {
        -1
    }
}

/// The character a `\uXXXX` escape whose backslash is at `p` stands for,
/// and the position after the escape. A high surrogate followed by an
/// escaped low surrogate stands for one character. None when the escape
/// names no character: no four hexadecimal digits, or a lone surrogate.
pub open spec fn unicode_escape(b: Seq<char>, p: int) -> Option<(char, int)> {
    let v = hex4(b, p + 2);
    if v < 0 {
        None
    } else if 0xD800 <= v < 0xDC00 {
        let w = hex4(b, p + 8);
        if p + 7 < b.len() && b[p + 6] == '\\' && b[p + 7] == 'u' && 0xDC00 <= w < 0xE000 {
            Some(((0x10000 + (v - 0xD800) * 0x400 + (w - 0xDC00)) as char, p + 12))
        } else {
            None
        }
    } else if 0xDC00 <= v < 0xE000 {
        None
    } else {
        Some((v as char, p + 6))
    }
}

/// What the character after a backslash stands for in a string, for any
/// escape other than a `\u` escape naming a character: an unknown escape
/// is kept as written.
pub open spec fn unescaped(x: char) -> Seq<char> {
    if x == '"' {
        seq!['"']
    } else if x == '\\' {
        seq!['\\']
    } else if x == 'n' {
        seq!['\n']
    } else if x == 'r' {
        seq!['\r']
    } else if x == 't' {
        seq!['\t']
    } else if x == '/' {
        seq!['/']
    } else {
        seq!['\\', x]
    }
}

/// Reads the rest of a string whose opening quote is before `p`: the text
/// up to the closing quote, and the position just after it. None when the
/// string is not terminated.
pub open spec fn string_body(b: Seq<char>, p: int) -> Option<(Seq<char>, int)>
    decreases b.len() + 1 - p,
{
    if p < 0 || p >= b.len() {
        None
    } else if b[p] == '"' {
        Some((Seq::empty(), p + 1))
    } else if b[p] == '\\' {
        if p + 1 >= b.len() {
            None
        } else if b[p + 1] == 'u' && unicode_escape(b, p) is Some {
            let (c, q) = unicode_escape(b, p)->0;
            match string_body(b, q) {
                Some((rest, e)) => Some((seq![c] + rest, e)),
                None => None,
            }
        } else {
            match string_body(b, p + 2) {
                Some((rest, q)) => Some((unescaped(b[p + 1]) + rest, q)),
                None => None,
            }
        }
    } else {
        match string_body(b, p + 1) {
            Some((rest, q)) => Some((seq![b[p]] + rest, q)),
            None => None,
        }
    }
}

/// Reads the string starting at `p` (which must be a quote).
pub open spec fn string_at(b: Seq<char>, p: int) -> Option<(Seq<char>, int)> {
    if 0 <= p < b.len() && b[p] == '"' {
        string_body(b, p + 1)
    } else {
        None
    }
}

/// Scans for the bracket closing the one opened before `i`, `depth` levels
/// deep, skipping brackets inside strings (and escaped characters in them).
pub open spec fn bracket_scan(
    b: Seq<char>,
    i: int,
    depth: int,
    in_string: bool,
    open: char,
    close: char,
) -> Option<int>
    decreases b.len() + 1 - i,
{
    if i < 0 || i >= b.len() {
        None
    } else if b[i] == '\\' && in_string {
        bracket_scan(b, i + 2, depth, in_string, open, close)
    } else if b[i] == '"' {
        bracket_scan(b, i + 1, depth, !in_string, open, close)
    } else if b[i] == open && !in_string {
        bracket_scan(b, i + 1, depth + 1, in_string, open, close)
    } else if b[i] == close && !in_string {
        if depth - 1 == 0 {
            Some(i)
        } else {
            bracket_scan(b, i + 1, depth - 1, in_string, open, close)
        }
    } else {
        bracket_scan(b, i + 1, depth, in_string, open, close)
    }
}

/// The position of the bracket matching the `[` or `{` at `start`.
pub open spec fn matching_bracket(b: Seq<char>, start: int) -> Option<int> {
    let open = b[start];
    if open == '[' {
        bracket_scan(b, start, 0, false, open, ']')
    } else if open == '{' {
        bracket_scan(b, start, 0, false, open, '}')
    } else {
        None
    }
}

/// The strings in `inner` from `i` on: each quote starts a string; any
/// other character is skipped.
pub open spec fn strings_from(inner: Seq<char>, i: int) -> Option<Seq<Seq<char>>>
    decreases inner.len() - i,
{
    if i < 0 || i >= inner.len() {
        Some(Seq::empty())
    } else if inner[i] == '"' {
        match string_at(inner, i) {
            Some((s, q)) => {
                proof {
                    lemma_string_at_advances(inner, i);
                }
                match strings_from(inner, q) {
                    Some(rest) => Some(seq![s] + rest),
                    None => None,
                }
            },
            None => None,
        }
    } else {
        strings_from(inner, i + 1)
    }
}

/// The position just after `"key":` and any white space following it.
pub open spec fn value_start(b: Seq<char>, key: Seq<char>) -> Option<int> {
    match find_from(b, key_pattern(key), 0) {
        Some(k) => Some(skip_ws(b, k + key_pattern(key).len())),
        None => None,
    }
}

/// The array of strings under `key`.
pub open spec fn string_array_value(b: Seq<char>, key: Seq<char>) -> Option<Seq<Seq<char>>> {
    match value_start(b, key) {
        Some(r) => if r < b.len() && b[r] == '[' {
            match matching_bracket(b, r) {
                Some(e) => strings_from(b.subrange(r + 1, e), 0),
                None => None,
            }
        } else {
            None
        },
        None => None,
    }
}

/// The text `null`.
pub open spec fn null_text() -> Seq<char> {
    seq!['n', 'u', 'l', 'l']
}

/// The string under `key`; None when it is missing, `null`, or not a
/// string.
pub open spec fn string_value(b: Seq<char>, key: Seq<char>) -> Option<Seq<char>> {
    match value_start(b, key) {
        Some(r) => if occurs_at(b, null_text(), r) {
            None
        } else {
            match string_at(b, r) {
                Some((s, _)) => Some(s),
                None => None,
            }
        },
        None => None,
    }
}

/// Number of ASCII digits at `i` and after.
pub open spec fn digit_run(b: Seq<char>, i: int) -> int
    decreases b.len() - i,
{
    if i < 0 || i >= b.len() || !('0' <= b[i] <= '9') {
        0
    } else {
        1 + digit_run(b, i + 1)
    }
}

/// The number under `key`: the digits right after it, if there is at least
/// one and the value fits in 64 bits.
pub open spec fn number_value(b: Seq<char>, key: Seq<char>) -> Option<u64> {
    match value_start(b, key) {
        Some(r) => {
            let d = b.subrange(r, r + digit_run(b, r));
            if d.len() > 0 && digits_value(d) <= u64::MAX {
                Some(digits_value(d) as u64)
            } else {
                None
            }
        },
        None => None,
    }
}

/// The key `argv`.
pub open spec fn argv_key() -> Seq<char> {
    seq!['a', 'r', 'g', 'v']
}

/// The key `cwd`.
pub open spec fn cwd_key() -> Seq<char> {
    seq!['c', 'w', 'd']
}

/// The key `created`.
pub open spec fn created_key() -> Seq<char> {
    seq!['c', 'r', 'e', 'a', 't', 'e', 'd']
}

/// The action read from the text of a stored file: argv is required, a
/// missing or unreadable cwd is none, a missing or unreadable creation time
/// is zero.
pub open spec fn parsed_action(b: Seq<char>) -> Option<ActionModel> {
    match string_array_value(b, argv_key()) {
        Some(argv) => Some(
            ActionModel {
                argv,
                cwd: string_value(b, cwd_key()),
                created: match number_value(b, created_key()) {
                    Some(n) => n,
                    None => 0,
                },
            },
        ),
        None => None,
    }
}

/// Reading the rest of a string moves forward and stays inside `b`.
pub proof fn lemma_string_body_advances(b: Seq<char>, p: int)
    ensures
        string_body(b, p) matches Some((_, q)) ==> p < q <= b.len(),
    decreases b.len() + 1 - p,
{
    if 0 <= p < b.len() {
        lemma_string_body_advances(b, p + 1);
        lemma_string_body_advances(b, p + 2);
        match unicode_escape(b, p) {
            Some((_, q)) => lemma_string_body_advances(b, q),
            None => {},
        }
    }
}

/// Reading a string moves forward and stays inside `b`.
pub proof fn lemma_string_at_advances(b: Seq<char>, p: int)
    ensures
        string_at(b, p) matches Some((_, q)) ==> p < q <= b.len(),
{
    lemma_string_body_advances(b, p + 1);
}

// ---------------------------------------------------------------- exec

/// Where `pat` first occurs in `b`.
fn find_text(b: &[char], pat: &[char]) -> (r: Option<usize>)
    ensures
        match r {
            Some(k) => find_from(b@, pat@, 0) == Some(k as int),
            None => find_from(b@, pat@, 0) is None,
        },
{
    let n = b.len();
    let m = pat.len();
    if m > n {
        return None;
    }
    if m == 0 {
        assert(b@.subrange(0, 0) =~= pat@);
        return Some(0);
    }
    let mut k: usize = 0;
    while k <= n - m
        invariant
            n == b@.len(),
            m == pat@.len(),
            1 <= m <= n,
            k <= n - m + 1,
            find_from(b@, pat@, 0) == find_from(b@, pat@, k as int),
        decreases n - m + 1 - k,
    {
        let mut j: usize = 0;
        let mut same = true;
        assert(b@.subrange(k as int, k as int) =~= pat@.take(0));
        while j < m
            invariant
                n == b@.len(),
                m == pat@.len(),
                k + m <= n,
                j <= m,
                same == (b@.subrange(k as int, k + j) == pat@.take(j as int)),
            decreases m - j,
        {
            if b[k + j] != pat[j] {
                assert(b@.subrange(k as int, k + j + 1)[j as int] != pat@.take(j + 1)[j as int]);
                same = false;
            } else if same {
                assert(b@.subrange(k as int, k + j + 1) =~= pat@.take(j + 1));
            }
            if !same {
                assert(b@.subrange(k as int, k + j + 1) != pat@.take(j + 1)) by {
                    if b@.subrange(k as int, k + j) != pat@.take(j as int) {
                        assert(b@.subrange(k as int, k + j + 1).take(j as int) == b@.subrange(
                            k as int,
                            k + j,
                        ));
                        assert(pat@.take(j + 1).take(j as int) == pat@.take(j as int));
                    }
                }
            }
            j = j + 1;
        }
        assert(pat@.take(m as int) == pat@);
        if same {
            return Some(k);
        }
        k = k + 1;
    }
    None
}

/// The first position at or after `from` not starting a white-space
/// character.
fn skip_white_space(b: &[char], from: usize) -> (r: usize)
    requires
        from <= b@.len(),
    ensures
        r == skip_ws(b@, from as int),
        from <= r <= b@.len(),
{
    let mut i = from;
    loop
        invariant
            from <= i <= b@.len(),
            skip_ws(b@, from as int) == skip_ws(b@, i as int),
        decreases b.len() - i,
    {
        if i >= b.len() {
            return i;
        }
        if !is_ws(b[i]) {
            return i;
        }
        i = i + 1;
    }
}

/// The value of the hexadecimal digit `c`, as `hex_value`.
fn hex_digit(c: char) -> (r: Option<u32>)
    ensures
        match r {
            Some(v) => hex_value(c) == v as int && v < 16,
            None => hex_value(c) < 0,
        },
{
    if '0' <= c && c <= '9' {
        Some(c as u32 - 48)
    } else if 'a' <= c && c <= 'f' {
        Some(c as u32 - 87)
    } else if 'A' <= c && c <= 'F' {
        Some(c as u32 - 55)
    } else {
        None
    }
}

/// The number written by the four hexadecimal digits at `b[p]`, as `hex4`.
fn read_hex4(b: &[char], p: usize) -> (r: Option<u32>)
    requires
        p + 4 <= b@.len(),
    ensures
        match r {
            Some(v) => hex4(b@, p as int) == v as int,
            None => hex4(b@, p as int) < 0,
        },
{
    let d0 = match hex_digit(b[p]) {
        Some(d) => d,
        None => return None,
    };
    let d1 = match hex_digit(b[p + 1]) {
        Some(d) => d,
        None => return None,
    };
    let d2 = match hex_digit(b[p + 2]) {
        Some(d) => d,
        None => return None,
    };
    let d3 = match hex_digit(b[p + 3]) {
        Some(d) => d,
        None => return None,
    };
    Some(((d0 * 16 + d1) * 16 + d2) * 16 + d3)
}

/// Reads the `\u` escape whose backslash is at `b[p]`, as `unicode_escape`.
fn read_unicode_escape(b: &[char], p: usize) -> (r: Option<(char, usize)>)
    requires
        p < b@.len(),
    ensures
        match r {
            Some((c, q)) => unicode_escape(b@, p as int) == Some((c, q as int)),
            None => unicode_escape(b@, p as int) is None,
        },
{
    if b.len() - p < 6 {
        return None;
    }
    let v = match read_hex4(b, p + 2) {
        Some(v) => v,
        None => return None,
    };
    if 0xD800 <= v && v < 0xDC00 {
        if b.len() - p < 12 || b[p + 6] != '\\' || b[p + 7] != 'u' {
            return None;
        }
        let w = match read_hex4(b, p + 8) {
            Some(w) => w,
            None => return None,
        };
        if w < 0xDC00 || w >= 0xE000 {
            return None;
        }
        match char_from_code(0x10000 + (v - 0xD800) * 0x400 + (w - 0xDC00)) {
            Some(c) => Some((c, p + 12)),
            None => None,
        }
    } else if 0xDC00 <= v && v < 0xE000 {
        None
    } else {
        match char_from_code(v) {
            Some(c) => Some((c, p + 6)),
            None => None,
        }
    }
}

/// Reads the string starting at `b[p]`, as `string_at`.
fn read_string(b: &[char], p: usize) -> (r: Option<(String, usize)>)
    ensures
        match r {
            Some((s, q)) => string_at(b@, p as int) == Some((s@, q as int)),
            None => string_at(b@, p as int) is None,
        },
{
    if p >= b.len() || b[p] != '"' {
        return None;
    }
    let mut out = String::new();
    let mut i = p + 1;
    let ghost start = (p + 1) as int;
    assert(string_at(b@, p as int) == string_body(b@, start));
    loop
        invariant
            start <= i,
            start == p + 1,
            string_at(b@, p as int) == string_body(b@, start),
            string_body(b@, start) == (match string_body(b@, i as int) {
                Some((rest, q)) => Some((out@ + rest, q)),
                None => None,
            }),
        decreases b.len() - i,
    {
        if i >= b.len() {
            return None;
        }
        let c = b[i];
        let ghost before = out@;
        if c == '"' {
            assert(out@ + Seq::<char>::empty() == out@);
            return Some((out, i + 1));
        } else if c == '\\' {
            if i + 1 >= b.len() {
                return None;
            }
            let x = b[i + 1];
            if x == 'u' {
                match read_unicode_escape(b, i) {
                    Some((d, q)) => {
                        push_char(&mut out, d);
                        proof {
                            match string_body(b@, q as int) {
                                Some((rest, e)) => {
                                    assert(before + (seq![d] + rest) =~= out@ + rest);
                                },
                                None => {},
                            }
                        }
                        i = q;
                        continue;
                    },
                    None => {},
                }
            }
            if x == '"' {
                push_char(&mut out, '"');
            } else if x == '\\' {
                push_char(&mut out, '\\');
            } else if x == 'n' {
                push_char(&mut out, '\n');
            } else if x == 'r' {
                push_char(&mut out, '\r');
            } else if x == 't' {
                push_char(&mut out, '\t');
            } else if x == '/' {
                push_char(&mut out, '/');
            } else {
                push_char(&mut out, '\\');
                push_char(&mut out, x);
            }
            assert(out@ =~= before + unescaped(x));
            proof {
                match string_body(b@, i + 2) {
                    Some((rest, q)) => {
                        assert(before + (unescaped(x) + rest) =~= out@ + rest);
                    },
                    None => {},
                }
            }
            i = i + 2;
        } else {
            push_char(&mut out, c);
            proof {
                match string_body(b@, i + 1) {
                    Some((rest, q)) => {
                        assert(before + (seq![c] + rest) =~= out@ + rest);
                    },
                    None => {},
                }
            }
            i = i + 1;
        }
    }
}

/// The position of the bracket matching the `[` or `{` at `b[start]`.
fn find_matching_bracket(b: &[char], start: usize) -> (r: Option<usize>)
    requires
        start < b@.len(),
    ensures
        match r {
            Some(e) => matching_bracket(b@, start as int) == Some(e as int),
            None => matching_bracket(b@, start as int) is None,
        },
{
    let open = b[start];
    let close: char = if open == '[' {
        ']'
    } else if open == '{' {
        '}'
    } else {
        return None;
    };
    let mut depth: usize = 0;
    let mut in_string = false;
    let mut i = start;
    while i < b.len()
        invariant
            start <= i <= b@.len(),
            open == b@[start as int],
            close == (if open == '[' { ']' } else { '}' }),
            open == '[' || open == '{',
            depth <= i - start,
            i == start ==> depth == 0 && !in_string,
            i > start ==> depth >= 1,
            matching_bracket(b@, start as int) == bracket_scan(
                b@,
                i as int,
                depth as int,
                in_string,
                open,
                close,
            ),
        decreases b.len() - i,
    {
        let c = b[i];
        if c == '\\' && in_string {
            if b.len() - i <= 2 {
                assert(bracket_scan(b@, i + 2, depth as int, in_string, open, close) is None);
                return None;
            }
            i = i + 2;
        } else if c == '"' {
            in_string = !in_string;
            i = i + 1;
        } else if c == open && !in_string {
            depth = depth + 1;
            i = i + 1;
        } else if c == close && !in_string {
            depth = depth - 1;
            if depth == 0 {
                return Some(i);
            }
            i = i + 1;
        } else {
            i = i + 1;
        }
    }
    None
}

/// The strings in `inner`, as `strings_from(inner, 0)`.
fn read_strings(inner: &[char]) -> (r: Option<Vec<String>>)
    ensures
        match r {
            Some(v) => strings_from(inner@, 0) == Some(v@.map_values(|s: String| s@)),
            None => strings_from(inner@, 0) is None,
        },
{
    let mut items: Vec<String> = Vec::new();
    let mut i: usize = 0;
    assert(items@.map_values(|s: String| s@) =~= Seq::<Seq<char>>::empty());
    while i < inner.len()
        invariant
            i <= inner@.len(),
            strings_from(inner@, 0) == (match strings_from(inner@, i as int) {
                Some(rest) => Some(items@.map_values(|s: String| s@) + rest),
                None => None,
            }),
        decreases inner.len() - i,
    {
        if inner[i] == '"' {
            proof {
                lemma_string_at_advances(inner@, i as int);
            }
            match read_string(inner, i) {
                Some((s, q)) => {
                    let ghost before = items@.map_values(|s: String| s@);
                    items.push(s);
                    proof {
                        assert(items@.map_values(|s: String| s@) =~= before.push(s@));
                        match strings_from(inner@, q as int) {
                            Some(rest) => {
                                assert(before + (seq![s@] + rest) =~= before.push(s@) + rest);
                            },
                            None => {},
                        }
                    }
                    i = q;
                },
                None => {
                    return None;
                },
            }
        } else {
            i = i + 1;
        }
    }
    assert(items@.map_values(|s: String| s@) + Seq::<Seq<char>>::empty() == items@.map_values(
        |s: String| s@,
    ));
    Some(items)
}

/// Where the value under `key` starts, as `value_start`.
fn find_value(b: &[char], key: &[char]) -> (r: Option<usize>)
    ensures
        match r {
            Some(v) => value_start(b@, key@) == Some(v as int) && v <= b@.len(),
            None => value_start(b@, key@) is None,
        },
{
    let mut pattern: Vec<char> = Vec::new();
    pattern.push('"');
    let mut j: usize = 0;
    while j < key.len()
        invariant
            j <= key@.len(),
            pattern@ == seq!['"'] + key@.take(j as int),
        decreases key.len() - j,
    {
        pattern.push(key[j]);
        assert(key@.take(j + 1) == key@.take(j as int).push(key@[j as int]));
        j = j + 1;
    }
    assert(key@.take(key@.len() as int) == key@);
    pattern.push('"');
    pattern.push(':');
    assert(pattern@ =~= key_pattern(key@));
    match find_text(b, pattern.as_slice()) {
        Some(k) => {
            proof {
                lemma_find_from_fits(b@, pattern@, 0);
            }
            assert(k + pattern@.len() <= b@.len());
            assert(b@.len() == b.len());
            let after = k + pattern.len();
            Some(skip_white_space(b, after))
        },
        None => None,
    }
}

proof fn lemma_find_from_fits(b: Seq<char>, pat: Seq<char>, from: int)
    ensures
        find_from(b, pat, from) matches Some(k) ==> from <= k && k + pat.len() <= b.len(),
    decreases b.len() + 1 - from,
{
    if 0 <= from && from + pat.len() <= b.len() && !occurs_at(b, pat, from) {
        lemma_find_from_fits(b, pat, from + 1);
    }
}

/// The array of strings under `key`, as `string_array_value`.
fn extract_string_array(b: &[char], key: &[char]) -> (r: Option<Vec<String>>)
    ensures
        match r {
            Some(v) => string_array_value(b@, key@) == Some(v@.map_values(|s: String| s@)),
            None => string_array_value(b@, key@) is None,
        },
{
    let r = match find_value(b, key) {
        Some(r) => r,
        None => return None,
    };
    if r >= b.len() || b[r] != '[' {
        return None;
    }
    let end = match find_matching_bracket(b, r) {
        Some(e) => e,
        None => return None,
    };
    proof {
        assert(matching_bracket(b@, r as int) == bracket_scan(b@, r + 1, 1, false, '[', ']'));
        lemma_bracket_scan_bounds(b@, r + 1, 1, false, '[', ']');
    }
    read_strings(&b[r + 1..end])
}

proof fn lemma_bracket_scan_bounds(
    b: Seq<char>,
    i: int,
    depth: int,
    in_string: bool,
    open: char,
    close: char,
)
    ensures
        bracket_scan(b, i, depth, in_string, open, close) matches Some(e) ==> i <= e < b.len(),
    decreases b.len() + 1 - i,
{
    if 0 <= i < b.len() {
        lemma_bracket_scan_bounds(b, i + 2, depth, in_string, open, close);
        lemma_bracket_scan_bounds(b, i + 1, depth, !in_string, open, close);
        lemma_bracket_scan_bounds(b, i + 1, depth + 1, in_string, open, close);
        lemma_bracket_scan_bounds(b, i + 1, depth - 1, in_string, open, close);
        lemma_bracket_scan_bounds(b, i + 1, depth, in_string, open, close);
    }
}

/// The string under `key`, as `string_value`.
fn extract_string_value(b: &[char], key: &[char]) -> (r: Option<String>)
    ensures
        match r {
            Some(v) => string_value(b@, key@) == Some(v@),
            None => string_value(b@, key@) is None,
        },
{
    let r = match find_value(b, key) {
        Some(r) => r,
        None => return None,
    };
    if b.len() - r >= 4 && b[r] == 'n' && b[r + 1] == 'u' && b[r + 2] == 'l' && b[r + 3]
        == 'l' {
        assert(b@.subrange(r as int, r + 4) =~= null_text());
        return None;
    }
    assert(!occurs_at(b@, null_text(), r as int)) by {
        if occurs_at(b@, null_text(), r as int) {
            assert(b@.subrange(r as int, r + 4)[0] == b@[r as int]);
            assert(b@.subrange(r as int, r + 4)[1] == b@[r + 1]);
            assert(b@.subrange(r as int, r + 4)[2] == b@[r + 2]);
            assert(b@.subrange(r as int, r + 4)[3] == b@[r + 3]);
        }
    }
    match read_string(b, r) {
        Some((s, _)) => Some(s),
        None => None,
    }
}

/// The number under `key`, as `number_value`.
fn extract_number(b: &[char], key: &[char]) -> (r: Option<u64>)
    ensures
        match r {
            Some(v) => number_value(b@, key@) == Some(v),
            None => number_value(b@, key@) is None,
        },
{
    let r = match find_value(b, key) {
        Some(r) => r,
        None => return None,
    };
    let mut end = r;
    while end < b.len() && '0' <= b[end] && b[end] <= '9'
        invariant
            r <= end <= b@.len(),
            digit_run(b@, r as int) == (end - r) + digit_run(b@, end as int),
            forall|j: int| r <= j < end ==> '0' <= #[trigger] b@[j] <= '9',
        decreases b.len() - end,
    {
        end = end + 1;
    }
    let ghost d = b@.subrange(r as int, end as int);
    assert(digit_run(b@, end as int) == 0);
    if end == r {
        return None;
    }
    let mut value: u64 = 0;
    let mut k = r;
    while k < end
        invariant
            r <= k <= end <= b@.len(),
            d == b@.subrange(r as int, end as int),
            value_start(b@, key@) == Some(r as int),
            digit_run(b@, r as int) == end - r,
            forall|j: int| r <= j < end ==> '0' <= #[trigger] b@[j] <= '9',
            value == digits_value(b@.subrange(r as int, k as int)),
        decreases end - k,
    {
        let ghost prev = b@.subrange(r as int, k as int);
        assert(b@.subrange(r as int, k + 1).drop_last() == prev);
        let digit = (b[k] as u32 - 48) as u64;
        if value > (u64::MAX - digit) / 10 {
            proof {
                let big = u64::MAX as int;
                assert(value * 10 + digit > big) by (nonlinear_arith)
                    requires
                        value > (big - digit) / 10,
                        0 <= digit <= 9,
                        big > 0,
                ;
                assert forall|j: int| 0 <= j < d.len() implies '0' <= #[trigger] d[j] <= '9' by {
                    assert(d[j] == b@[r + j]);
                }
                lemma_digits_value_grow(b@.subrange(r as int, end as int), (k + 1 - r) as int);
                assert(b@.subrange(r as int, end as int).take((k + 1 - r) as int) == b@.subrange(
                    r as int,
                    k + 1,
                ));
                assert(b@.subrange(r as int, k + 1).last() == b@[k as int]);
                assert(digits_value(b@.subrange(r as int, k + 1)) == value * 10 + digit);
            }
            return None;
        }
        value = value * 10 + digit;
        k = k + 1;
    }
    Some(value)
}

proof fn lemma_digits_value_grow(d: Seq<char>, k: int)
    requires
        0 <= k <= d.len(),
        forall|j: int| 0 <= j < d.len() ==> '0' <= #[trigger] d[j] <= '9',
    ensures
        digits_value(d.take(k)) <= digits_value(d),
        digits_value(d.take(k)) >= 0,
    decreases d.len() - k,
{
    if k < d.len() {
        lemma_digits_value_grow(d, k + 1);
        assert(d.take(k + 1).drop_last() == d.take(k));
    } else {
        assert(d.take(k) == d);
        lemma_digits_value_nonneg(d);
    }
}

proof fn lemma_digits_value_nonneg(d: Seq<char>)
    requires
        forall|j: int| 0 <= j < d.len() ==> '0' <= #[trigger] d[j] <= '9',
    ensures
        digits_value(d) >= 0,
    decreases d.len(),
{
    if d.len() > 0 {
        lemma_digits_value_nonneg(d.drop_last());
    }
}

/// Read a stored action back from the text of its file.
pub fn parse_action_json(content: &str) -> (r: Option<StoredAction>)
    ensures
        match r {
            Some(a) => parsed_action(content@) == Some(action_view(a)),
            None => parsed_action(content@) is None,
        },
{
    let chars = chars_of(content);
    let b = chars.as_slice();
    let argv_name: [char; 4] = ['a', 'r', 'g', 'v'];
    let cwd_name: [char; 3] = ['c', 'w', 'd'];
    let created_name: [char; 7] = ['c', 'r', 'e', 'a', 't', 'e', 'd'];
    assert(argv_name@ =~= argv_key());
    assert(cwd_name@ =~= cwd_key());
    assert(created_name@ =~= created_key());
    let argv = match extract_string_array(b, &argv_name) {
        Some(v) => v,
        None => return None,
    };
    let cwd = extract_string_value(b, &cwd_name);
    let created = match extract_number(b, &created_name) {
        Some(n) => n,
        None => 0,
    };
    Some(StoredAction { argv, cwd, created })
}

// ---------------------------------------------------------------- running

/// Why a stored action is not run.
#[derive(Clone, Copy, Debug, PartialEq, Eq, Structural)]
pub enum Refusal {
    /// Nothing readable is stored under the token.
    Missing,
    /// The stored argv is empty.
    NoCommand,
    /// The action is older than its time-to-live.
    Expired,
}

impl Refusal {
    /// The error reported for this refusal.
    pub fn message(&self) -> (m: &'static str)
        ensures
            m@ == match *self {
                Refusal::Missing => "action has expired or no longer exists"@,
                Refusal::NoCommand => "stored action has no command"@,
                Refusal::Expired => "action has expired"@,
            },
    {
        match self {
            Refusal::Missing => "action has expired or no longer exists",
            Refusal::NoCommand => "stored action has no command",
            Refusal::Expired => "action has expired",
        }
    }
}

/// Whether the action loaded for a token is refused at `now`, and why: it
/// must exist, name a command, and not have expired.
pub open spec fn refusal(action: Option<ActionModel>, now: u64) -> Option<Refusal> {
    match action {
        None => Some(Refusal::Missing),
        Some(a) => if a.argv.len() == 0 {
            Some(Refusal::NoCommand)
        } else if expired(a.created, now) {
            Some(Refusal::Expired)
        } else {
            None
        },
    }
}

/// Decide whether the action loaded for a token (None when nothing could be
/// loaded) may run at `now`; None means it may.
pub fn run_refusal(action: &Option<StoredAction>, now: u64) -> (r: Option<Refusal>)
    ensures
        r == refusal(
            match *action {
                Some(a) => Some(action_view(a)),
                None => None,
            },
            now,
        ),
{
    match action {
        None => Some(Refusal::Missing),
        Some(a) => if a.argv.len() == 0 {
            Some(Refusal::NoCommand)
        } else if action_expired(a.created, now) {
            Some(Refusal::Expired)
        } else {
            None
        },
    }
}

/// Whether a loaded action runs depends only on its argv and its age: one
/// with a command that is at most 7 days (604800 s) old at `now` runs,
/// whatever its working directory; an empty argv is refused as having no
/// command, and an older one as expired.
pub proof fn lemma_refusal_rule(a: ActionModel, now: u64)
    ensures
        refusal(None, now) == Some(Refusal::Missing),
        a.argv.len() == 0 ==> refusal(Some(a), now) == Some(Refusal::NoCommand),
        a.argv.len() > 0 && (now < a.created || now - a.created <= 604800) ==> refusal(
            Some(a),
            now,
        ) is None,
        a.argv.len() > 0 && now >= a.created && now - a.created > 604800 ==> refusal(
            Some(a),
            now,
        ) == Some(Refusal::Expired),
{
}

// ---------------------------------------------------------------- listing

/// A listed action: its token and what is stored under it.
pub type Listed = (String, StoredAction);

/// Listed actions in order from newest to oldest.
pub open spec fn is_newest_first(s: Seq<Listed>) -> bool {
    forall|i: int, j: int| 0 <= i < j < s.len() ==> s[i].1.created >= s[j].1.created
}

/// The listed actions created at `c`.
pub open spec fn created_at(c: u64) -> spec_fn(Listed) -> bool {
    |e: Listed| e.1.created == c
}

proof fn lemma_filter_none(s: Seq<Listed>, p: spec_fn(Listed) -> bool)
    requires
        forall|i: int| 0 <= i < s.len() ==> !p(#[trigger] s[i]),
    ensures
        s.filter(p) == Seq::<Listed>::empty(),
    decreases s.len(),
{
    reveal(Seq::filter);
    if s.len() > 0 {
        lemma_filter_none(s.drop_last(), p);
    }
}

proof fn lemma_filter_one(x: Listed, p: spec_fn(Listed) -> bool)
    ensures
        seq![x].filter(p) == (if p(x) {
            seq![x]
        } else {
            Seq::<Listed>::empty()
        }),
{
    reveal(Seq::filter);
    let e = Seq::<Listed>::empty();
    assert(seq![x].drop_last() =~= e);
    assert(e.filter(p) == e);
    assert(seq![x].last() == x);
    assert(e.push(x) =~= seq![x]);
}

/// Putting `x` in front of those not newer than it, after those newer,
/// adds it at the front of the actions created when it was.
proof fn lemma_insert_keeps_classes(out: Seq<Listed>, k: int, x: Listed, c: u64)
    requires
        0 <= k <= out.len(),
        forall|i: int| 0 <= i < k ==> (#[trigger] out[i]).1.created > x.1.created,
    ensures
        out.insert(k, x).filter(created_at(c)) == (if x.1.created == c {
            seq![x] + out.filter(created_at(c))
        } else {
            out.filter(created_at(c))
        }),
{
    let p = created_at(c);
    let (front, back) = (out.take(k), out.skip(k));
    assert(out.insert(k, x) =~= front + seq![x] + back);
    assert(out =~= front + back);
    Seq::filter_distributes_over_add(front + seq![x], back, p);
    Seq::filter_distributes_over_add(front, seq![x], p);
    Seq::filter_distributes_over_add(front, back, p);
    lemma_filter_one(x, p);
    if x.1.created == c {
        lemma_filter_none(front, p);
        assert(Seq::<Listed>::empty() + seq![x] =~= seq![x]);
        assert(Seq::<Listed>::empty() + back.filter(p) =~= back.filter(p));
    } else {
        assert(front.filter(p) + Seq::<Listed>::empty() =~= front.filter(p));
    }
}

/// Whether a listed action is still live at `now`.
pub open spec fn is_live(now: u64) -> spec_fn(Listed) -> bool {
    |e: Listed| !expired(e.1.created, now)
}

/// The listed actions that have not expired at `now`, in their order.
pub fn live_actions(entries: Vec<Listed>, now: u64) -> (out: Vec<Listed>)
    ensures
        out@ == entries@.filter(is_live(now)),
{
    let ghost all = entries@;
    let mut rest = entries;
    let mut out: Vec<Listed> = Vec::new();
    proof {
        reveal(Seq::filter);
        assert(all.take(0) =~= Seq::<Listed>::empty());
        assert(all.skip(0) =~= all);
    }
    while rest.len() > 0
        invariant
            rest@.len() <= all.len(),
            rest@ == all.skip(all.len() - rest@.len()),
            out@ == all.take(all.len() - rest@.len()).filter(is_live(now)),
        decreases rest@.len(),
    {
        let ghost k = all.len() - rest@.len();
        let e = rest.remove(0);
        proof {
            reveal(Seq::filter);
            assert(all.take(k + 1).drop_last() =~= all.take(k));
            assert(all.take(k + 1).last() == e);
            assert(rest@ =~= all.skip(k + 1));
        }
        if !action_expired(e.1.created, now) {
            out.push(e);
        }
    }
    proof {
        assert(all.take(all.len() as int) =~= all);
    }
    out
}

/// Order listed actions newest first. The order is stable: actions created
/// at the same second keep the order they came in.
pub fn newest_first(entries: Vec<Listed>) -> (out: Vec<Listed>)
    ensures
        out@.len() == entries@.len(),
        out@.to_multiset() == entries@.to_multiset(),
        is_newest_first(out@),
        forall|c: u64| #[trigger] out@.filter(created_at(c)) == entries@.filter(created_at(c)),
{
    let ghost all = entries@;
    let mut rest = entries;
    let mut out: Vec<Listed> = Vec::new();
    proof {
        assert(out@ =~= all.skip(rest@.len() as int));
        assert forall|c: u64| #[trigger] out@.filter(created_at(c)) == all.skip(
            rest@.len() as int,
        ).filter(created_at(c)) by {
            reveal(Seq::filter);
            assert(all.skip(rest@.len() as int) =~= Seq::<Listed>::empty());
        }
    }
    while rest.len() > 0
        invariant
            rest@ == all.take(rest@.len() as int),
            rest@.len() <= all.len(),
            out@.len() + rest@.len() == all.len(),
            out@.to_multiset() == all.skip(rest@.len() as int).to_multiset(),
            is_newest_first(out@),
            forall|c: u64| #[trigger] out@.filter(created_at(c)) == all.skip(
                rest@.len() as int,
            ).filter(created_at(c)),
        decreases rest@.len(),
    {
        let ghost n = rest@.len() as int;
        let x = match rest.pop() {
            Some(x) => x,
            None => {
                return out;
            },
        };
        let mut k: usize = 0;
        while k < out.len() && out[k].1.created > x.1.created
            invariant
                k <= out@.len(),
                forall|i: int| 0 <= i < k ==> (#[trigger] out@[i]).1.created > x.1.created,
            decreases out@.len() - k,
        {
            k = k + 1;
        }
        let ghost old_out = out@;
        out.insert(k, x);
        proof {
            vstd::seq_lib::to_multiset_insert(old_out, k as int, x);
            assert(all.skip(n).insert(0, x) =~= all.skip(n - 1));
            vstd::seq_lib::to_multiset_insert(all.skip(n), 0, x);
            assert(all.skip(n - 1) =~= seq![x] + all.skip(n));
            assert forall|c: u64| #[trigger] out@.filter(created_at(c)) == all.skip(n - 1).filter(
                created_at(c),
            ) by {
                lemma_insert_keeps_classes(old_out, k as int, x, c);
                Seq::filter_distributes_over_add(seq![x], all.skip(n), created_at(c));
                lemma_filter_one(x, created_at(c));
                if x.1.created != c {
                    assert(Seq::<Listed>::empty() + all.skip(n).filter(created_at(c))
                        =~= all.skip(n).filter(created_at(c)));
                }
            }
            assert forall|i: int, j: int| 0 <= i < j < out@.len() implies out@[i].1.created
                >= out@[j].1.created by {
                if k < out@.len() - 1 && k + 1 < old_out.len() + 1 {
                }
            }
        }
    }
    proof {
        assert(all.skip(0) =~= all);
    }
    out
}

/// The live actions of `entries` at `now`, newest first: exactly the live
/// ones (as a multiset), in order of creation time, those created at the
/// same second in the order they came in.
pub fn listing(entries: Vec<Listed>, now: u64) -> (out: Vec<Listed>)
    ensures
        out@.to_multiset() == entries@.filter(is_live(now)).to_multiset(),
        out@.len() == entries@.filter(is_live(now)).len(),
        is_newest_first(out@),
        forall|c: u64| #[trigger] out@.filter(created_at(c)) == entries@.filter(
            is_live(now),
        ).filter(created_at(c)),
{
    newest_first(live_actions(entries, now))
}

// ---------------------------------------------------------------- laws

/// `x + y` stands in `b` at `p` exactly when `x` does and `y` follows it.
proof fn lemma_sub_split(b: Seq<char>, p: int, x: Seq<char>, y: Seq<char>)
    requires
        0 <= p,
        p + x.len() + y.len() <= b.len(),
        b.subrange(p, p + x.len() + y.len()) == x + y,
    ensures
        b.subrange(p, p + x.len()) == x,
        b.subrange(p + x.len(), p + x.len() + y.len()) == y,
{
    assert forall|k: int| 0 <= k < x.len() implies b.subrange(p, p + x.len())[k] == x[k] by {
        assert(b.subrange(p, p + x.len() + y.len())[k] == (x + y)[k]);
    }
    assert forall|k: int| 0 <= k < y.len() implies b.subrange(
        p + x.len(),
        p + x.len() + y.len(),
    )[k] == y[k] by {
        assert(b.subrange(p, p + x.len() + y.len())[x.len() + k] == (x + y)[x.len() + k]);
        assert(b.subrange(p, p + x.len() + y.len())[x.len() + k] == b[p + x.len() + k]);
        assert(b.subrange(p + x.len(), p + x.len() + y.len())[k] == b[p + x.len() + k]);
        assert((x + y)[x.len() + k] == y[k]);
    }
    assert(b.subrange(p, p + x.len()) =~= x);
    assert(b.subrange(p + x.len(), p + x.len() + y.len()) =~= y);
}

proof fn lemma_json_quoted(s: Seq<char>)
    ensures
        json_quoted(s) == seq!['"'] + json_escaped(s) + seq!['"'],
{
}

proof fn lemma_esc_front(s: Seq<char>)
    requires
        s.len() > 0,
    ensures
        json_escaped(s) == json_escape_char(s[0]) + json_escaped(s.drop_first()),
{
    lemma_flat_map_first(s, |c: char| json_escape_char(c));
}

proof fn lemma_esc_empty(s: Seq<char>)
    requires
        s.len() == 0,
    ensures
        json_escaped(s) == Seq::<char>::empty(),
{
    assert(json_escaped(s) =~= Seq::<char>::empty());
}

proof fn lemma_char_code(c: char)
    ensures
        (((c as u32) as int) as char) == c,
{
}

/// A lower-case hexadecimal digit reads back as its value, and is neither
/// a quote nor a backslash.
proof fn lemma_hex_lower(d: int)
    requires
        0 <= d < 16,
    ensures
        hex_value(hex_lower(d)) == d,
        hex_lower(d) != '"' && hex_lower(d) != '\\',
{
}

/// The shape of the escape of one character: a short escape, a `\u00XX`
/// escape for other control characters, or the character itself, which is
/// then neither a quote nor a backslash.
proof fn lemma_escape_char_shape(c: char)
    ensures
        ({
            let h = json_escape_char(c);
            let v = (c as u32) as int;
            ||| (h.len() == 1 && h[0] == c && c != '"' && c != '\\')
            ||| (h.len() == 2 && h[0] == '\\' && h[1] != 'u' && unescaped(h[1]) == seq![c])
            ||| (h.len() == 6 && h[0] == '\\' && h[1] == 'u' && h[2] == '0' && h[3] == '0' && 0
                <= v < 32 && h[4] == hex_lower(v / 16) && h[5] == hex_lower(v % 16))
        }),
{
    let v = (c as u32) as int;
    if (c as u32) < 32 && c != '\n' && c != '\r' && c != '\t' {
        assert(0 <= v / 16 < 16 && 0 <= v % 16 < 16);
    }
}

/// Every quote in an escaped string follows a backslash.
proof fn lemma_esc_shape(s: Seq<char>)
    ensures
        forall|m: int|
            0 <= m < json_escaped(s).len() && #[trigger] json_escaped(s)[m] == '"' ==> m >= 1
                && json_escaped(s)[m - 1] == '\\',
    decreases s.len(),
{
    if s.len() == 0 {
        lemma_esc_empty(s);
    } else {
        lemma_esc_front(s);
        lemma_esc_shape(s.drop_first());
        let c = s[0];
        let h = json_escape_char(c);
        let tail = json_escaped(s.drop_first());
        let e = json_escaped(s);
        lemma_escape_char_shape(c);
        if h.len() == 6 {
            let v = (c as u32) as int;
            lemma_hex_lower(v / 16);
            lemma_hex_lower(v % 16);
        }
        assert forall|m: int| 0 <= m < e.len() && #[trigger] e[m] == '"' implies m >= 1 && e[m
            - 1] == '\\' by {
            if m >= h.len() {
                assert(e[m] == tail[m - h.len()]);
                if m - h.len() >= 1 {
                    assert(e[m - 1] == tail[m - h.len() - 1]);
                } else {
                    assert(tail[0] != '"');
                }
            } else {
                assert(e[m] == h[m]);
                assert(m == 1 && h[0] == '\\');
            }
        }
    }
}

/// Reading an escaped string back, from just after its opening quote,
/// gives the string and the position after its closing quote.
proof fn lemma_read_escaped(b: Seq<char>, p: int, s: Seq<char>)
    requires
        0 <= p,
        p + json_escaped(s).len() < b.len(),
        b.subrange(p, p + json_escaped(s).len()) == json_escaped(s),
        b[p + json_escaped(s).len()] == '"',
    ensures
        string_body(b, p) == Some((s, p + json_escaped(s).len() + 1)),
    decreases s.len(),
{
    let e = json_escaped(s);
    if s.len() == 0 {
        lemma_esc_empty(s);
    } else {
        lemma_esc_front(s);
        let c = s[0];
        let rest = s.drop_first();
        let h = json_escape_char(c);
        let e2 = json_escaped(rest);
        lemma_sub_split(b, p, h, e2);
        lemma_read_escaped(b, p + h.len(), rest);
        assert(seq![c] + rest =~= s);
        lemma_escape_char_shape(c);
        assert forall|k: int| 0 <= k < h.len() implies b[p + k] == h[k] by {
            assert(b.subrange(p, p + h.len())[k] == h[k]);
        }
        if h.len() == 6 {
            let v = (c as u32) as int;
            lemma_hex_lower(v / 16);
            lemma_hex_lower(v % 16);
            assert(b[p] == h[0] && b[p + 1] == h[1] && b[p + 2] == h[2] && b[p + 3] == h[3]
                && b[p + 4] == h[4] && b[p + 5] == h[5]);
            assert(hex4(b, p + 2) == v);
            lemma_char_code(c);
            assert(unicode_escape(b, p) == Some((c, p + 6)));
        } else if h.len() == 2 {
            assert(b[p] == h[0] && b[p + 1] == h[1]);
        } else {
            assert(b[p] == h[0]);
        }
    }
}

/// Scanning for brackets passes over the inside of an escaped string
/// without leaving it.
proof fn lemma_scan_escaped(b: Seq<char>, p: int, s: Seq<char>, depth: int, open: char, close: char)
    requires
        0 <= p,
        p + json_escaped(s).len() <= b.len(),
        b.subrange(p, p + json_escaped(s).len()) == json_escaped(s),
    ensures
        bracket_scan(b, p, depth, true, open, close) == bracket_scan(
            b,
            p + json_escaped(s).len(),
            depth,
            true,
            open,
            close,
        ),
    decreases s.len(),
{
    let e = json_escaped(s);
    if s.len() == 0 {
        lemma_esc_empty(s);
    } else {
        lemma_esc_front(s);
        let c = s[0];
        let rest = s.drop_first();
        let h = json_escape_char(c);
        let e2 = json_escaped(rest);
        lemma_sub_split(b, p, h, e2);
        lemma_scan_escaped(b, p + h.len(), rest, depth, open, close);
        lemma_escape_char_shape(c);
        assert forall|k: int| 0 <= k < h.len() implies b[p + k] == h[k] by {
            assert(b.subrange(p, p + h.len())[k] == h[k]);
        }
        if h.len() == 6 {
            let v = (c as u32) as int;
            lemma_hex_lower(v / 16);
            lemma_hex_lower(v % 16);
            assert(b[p] == h[0] && b[p + 2] == h[2] && b[p + 3] == h[3] && b[p + 4] == h[4]
                && b[p + 5] == h[5]);
            assert(bracket_scan(b, p + 5, depth, true, open, close) == bracket_scan(
                b,
                p + 6,
                depth,
                true,
                open,
                close,
            ));
            assert(bracket_scan(b, p + 4, depth, true, open, close) == bracket_scan(
                b,
                p + 5,
                depth,
                true,
                open,
                close,
            ));
            assert(bracket_scan(b, p + 3, depth, true, open, close) == bracket_scan(
                b,
                p + 4,
                depth,
                true,
                open,
                close,
            ));
            assert(bracket_scan(b, p + 2, depth, true, open, close) == bracket_scan(
                b,
                p + 3,
                depth,
                true,
                open,
                close,
            ));
        } else if h.len() == 2 {
            assert(b[p] == h[0]);
        } else {
            assert(b[p] == h[0]);
        }
    }
}

/// The digits of a number read back as that number.
proof fn lemma_decimal_digits(n: nat)
    ensures
        decimal(n).len() > 0,
        forall|j: int| 0 <= j < decimal(n).len() ==> '0' <= #[trigger] decimal(n)[j] <= '9',
        digits_value(decimal(n)) == n,
    decreases n,
{
    let d = (48 + n % 10) as char;
    assert(d as int == 48 + n % 10);
    let x = decimal(n);
    if n < 10 {
        assert(n % 10 == n);
        assert(x.drop_last() =~= Seq::<char>::empty());
        assert(x.last() == d);
        assert(digits_value(x.drop_last()) == 0);
        assert(digits_value(x) == digits_value(x.drop_last()) * 10 + (x.last() as int - '0' as int));
    } else {
        lemma_decimal_digits(n / 10);
        assert(x.drop_last() == decimal(n / 10));
        assert(x.last() == d);
        assert((n / 10) * 10 + n % 10 == n) by (nonlinear_arith);
        assert(digits_value(x) == digits_value(x.drop_last()) * 10 + (x.last() as int - '0' as int));
        assert forall|j: int| 0 <= j < decimal(n).len() implies '0' <= #[trigger] decimal(n)[j]
            <= '9' by {
            if j < decimal(n / 10).len() {
                assert(decimal(n)[j] == decimal(n / 10)[j]);
            }
        }
    }
}

/// The comma-separated quoted strings of a JSON array.
spec fn joined_quoted(items: Seq<Seq<char>>) -> Seq<char> {
    joined(items.map_values(|s: Seq<char>| json_quoted(s)), ',')
}

proof fn lemma_joined_front(parts: Seq<Seq<char>>, sep: char)
    requires
        parts.len() >= 2,
    ensures
        joined(parts, sep) == parts[0] + seq![sep] + joined(parts.drop_first(), sep),
    decreases parts.len(),
{
    let dl = parts.drop_last();
    let df = parts.drop_first();
    if parts.len() == 2 {
        assert(dl.len() == 1);
        assert(joined(dl, sep) == dl[0]);
        assert(dl[0] == parts[0]);
        assert(df.len() == 1);
        assert(joined(df, sep) == df[0]);
        assert(df[0] == parts.last());
    } else {
        lemma_joined_front(dl, sep);
        assert(dl.drop_first() == df.drop_last());
        assert(df.last() == parts.last());
        assert(dl[0] == parts[0]);
        assert(joined(df, sep) == joined(df.drop_last(), sep) + seq![sep] + df.last());
        assert(joined(parts, sep) == joined(dl, sep) + seq![sep] + parts.last());
        assert(joined(parts, sep) =~= parts[0] + seq![sep] + joined(df, sep));
    }
}

proof fn lemma_joined_quoted_front(items: Seq<Seq<char>>)
    requires
        items.len() >= 1,
    ensures
        items.len() == 1 ==> joined_quoted(items) == json_quoted(items[0]),
        items.len() >= 2 ==> joined_quoted(items) == json_quoted(items[0]) + seq![',']
            + joined_quoted(items.drop_first()),
{
    let parts = items.map_values(|s: Seq<char>| json_quoted(s));
    if items.len() >= 2 {
        lemma_joined_front(parts, ',');
        assert(parts.drop_first() =~= items.drop_first().map_values(
            |s: Seq<char>| json_quoted(s),
        ));
    }
}

/// Scanning for brackets passes over a quoted string.
proof fn lemma_scan_quoted(b: Seq<char>, p: int, s: Seq<char>, depth: int)
    requires
        0 <= p,
        p + json_quoted(s).len() <= b.len(),
        b.subrange(p, p + json_quoted(s).len()) == json_quoted(s),
    ensures
        bracket_scan(b, p, depth, false, '[', ']') == bracket_scan(
            b,
            p + json_quoted(s).len(),
            depth,
            false,
            '[',
            ']',
        ),
{
    let e = json_escaped(s);
    lemma_json_quoted(s);
    lemma_sub_split(b, p, seq!['"'] + e, seq!['"']);
    lemma_sub_split(b, p, seq!['"'], e);
    assert(b[p] == b.subrange(p, p + 1)[0]);
    assert(b[p + 1 + e.len()] == b.subrange(p + 1 + e.len(), p + 2 + e.len())[0]);
    lemma_scan_escaped(b, p + 1, s, depth, '[', ']');
}

/// Scanning for brackets passes over the strings of an array.
proof fn lemma_scan_joined(b: Seq<char>, p: int, items: Seq<Seq<char>>, depth: int)
    requires
        0 <= p,
        p + joined_quoted(items).len() <= b.len(),
        b.subrange(p, p + joined_quoted(items).len()) == joined_quoted(items),
    ensures
        bracket_scan(b, p, depth, false, '[', ']') == bracket_scan(
            b,
            p + joined_quoted(items).len(),
            depth,
            false,
            '[',
            ']',
        ),
    decreases items.len(),
{
    if items.len() == 0 {
        assert(joined_quoted(items) =~= Seq::<char>::empty());
    } else {
        lemma_joined_quoted_front(items);
        let q = json_quoted(items[0]);
        if items.len() == 1 {
            lemma_scan_quoted(b, p, items[0], depth);
        } else {
            let rest = joined_quoted(items.drop_first());
            lemma_sub_split(b, p, q + seq![','], rest);
            lemma_sub_split(b, p, q, seq![',']);
            lemma_scan_quoted(b, p, items[0], depth);
            assert(b[p + q.len()] == b.subrange(p + q.len(), p + q.len() + 1)[0]);
            lemma_scan_joined(b, p + q.len() + 1, items.drop_first(), depth);
        }
    }
}

/// Reading the strings of an array that runs to the end of `b`.
proof fn lemma_read_joined(b: Seq<char>, p: int, items: Seq<Seq<char>>)
    requires
        0 <= p,
        p + joined_quoted(items).len() == b.len(),
        b.subrange(p, b.len() as int) == joined_quoted(items),
    ensures
        strings_from(b, p) == Some(items),
    decreases items.len(),
{
    if items.len() == 0 {
        assert(joined_quoted(items) =~= Seq::<char>::empty());
        assert(items =~= Seq::<Seq<char>>::empty());
    } else {
        lemma_joined_quoted_front(items);
        let s0 = items[0];
        let e = json_escaped(s0);
        let q = json_quoted(s0);
        lemma_json_quoted(s0);
        if items.len() == 1 {
            lemma_sub_split(b, p, seq!['"'] + e, seq!['"']);
        } else {
            let rest = joined_quoted(items.drop_first());
            lemma_sub_split(b, p, q + seq![','], rest);
            lemma_sub_split(b, p, q, seq![',']);
            lemma_sub_split(b, p, seq!['"'] + e, seq!['"']);
            assert(b[p + q.len()] == b.subrange(p + q.len(), p + q.len() + 1)[0]);
            lemma_read_joined(b, p + q.len() + 1, items.drop_first());
        }
        lemma_sub_split(b, p, seq!['"'], e);
        assert(b[p] == b.subrange(p, p + 1)[0]);
        assert(b[p + 1 + e.len()] == b.subrange(p + 1 + e.len(), p + 2 + e.len())[0]);
        lemma_read_escaped(b, p + 1, s0);
        assert(q.len() == e.len() + 2);
        assert(string_at(b, p) == Some((s0, p + q.len())));
        lemma_string_at_advances(b, p);
        if items.len() == 1 {
            assert(strings_from(b, p + q.len()) == Some(Seq::<Seq<char>>::empty()));
            assert(strings_from(b, p) == Some(seq![s0] + Seq::<Seq<char>>::empty()));
            assert(seq![s0] + Seq::<Seq<char>>::empty() =~= items);
        } else {
            assert(strings_from(b, p + q.len()) == strings_from(b, p + q.len() + 1));
            assert(strings_from(b, p) == Some(seq![s0] + items.drop_first()));
        }
        assert(seq![s0] + items.drop_first() =~= items);
    }
}

proof fn lemma_digit_run(b: Seq<char>, p: int, m: int)
    requires
        0 <= p,
        0 <= m,
        p + m <= b.len(),
        forall|j: int| p <= j < p + m ==> '0' <= #[trigger] b[j] <= '9',
        p + m == b.len() || !('0' <= b[p + m] <= '9'),
    ensures
        digit_run(b, p) == m,
    decreases m,
{
    if m > 0 {
        lemma_digit_run(b, p + 1, m - 1);
    }
}

/// No key named `..cd` (a key ending in the character `c` then `d`) is
/// closed in `x`: no `c d " :` run of characters.
spec fn no_key_end(x: Seq<char>, c: char) -> bool {
    forall|j: int|
        2 <= j && j + 1 < x.len() ==> !(x[j - 2] == c && x[j - 1] == 'd' && #[trigger] x[j]
            == '"' && x[j + 1] == ':')
}

proof fn lemma_no_key_end_concat(x: Seq<char>, y: Seq<char>, c: char)
    requires
        no_key_end(x, c),
        no_key_end(y, c),
        x.len() == 0 || y.len() == 0 || (x.last() != c && x.last() != 'd' && x.last() != '"')
            || (y[0] != ':' && y[0] != '"' && y[0] != 'd'),
    ensures
        no_key_end(x + y, c),
{
    let z = x + y;
    assert forall|j: int| 2 <= j && j + 1 < z.len() implies !(z[j - 2] == c && z[j - 1] == 'd'
        && #[trigger] z[j] == '"' && z[j + 1] == ':') by {
        if j + 1 < x.len() {
            assert(z[j - 2] == x[j - 2] && z[j - 1] == x[j - 1] && z[j] == x[j] && z[j + 1] == x[j
                + 1]);
        } else if j - 2 >= x.len() {
            let i = j - x.len();
            assert(z[j - 2] == y[i - 2] && z[j - 1] == y[i - 1] && z[j] == y[i] && z[j + 1] == y[i
                + 1]);
        } else {
            if x.len() > 0 && y.len() > 0 {
                assert(z[x.len() - 1] == x.last());
                assert(z[x.len() as int] == y[0]);
            }
        }
    }
}

proof fn lemma_no_key_end_quoted(s: Seq<char>, c: char)
    requires
        c == 'w' || c == 'e',
    ensures
        no_key_end(json_quoted(s), c),
{
    lemma_json_quoted(s);
    lemma_esc_shape(s);
    let e = json_escaped(s);
    let q = json_quoted(s);
    assert forall|j: int| 2 <= j && j + 1 < q.len() implies !(q[j - 2] == c && q[j - 1] == 'd'
        && #[trigger] q[j] == '"' && q[j + 1] == ':') by {
        assert(q[j] == e[j - 1]);
        if e[j - 1] == '"' {
            assert(e[j - 2] == '\\');
            assert(q[j - 1] == e[j - 2]);
        }
    }
}

proof fn lemma_no_key_end_joined(items: Seq<Seq<char>>, c: char)
    requires
        c == 'w' || c == 'e',
    ensures
        no_key_end(joined_quoted(items), c),
        items.len() > 0 ==> joined_quoted(items)[0] == '"' && joined_quoted(items).last() == '"',
    decreases items.len(),
{
    if items.len() == 0 {
        assert(joined_quoted(items) =~= Seq::<char>::empty());
    } else {
        lemma_joined_quoted_front(items);
        lemma_json_quoted(items[0]);
        lemma_no_key_end_quoted(items[0], c);
        let q = json_quoted(items[0]);
        if items.len() >= 2 {
            lemma_no_key_end_joined(items.drop_first(), c);
            let rest = joined_quoted(items.drop_first());
            lemma_no_key_end_concat(seq![','], rest, c);
            lemma_no_key_end_concat(q, seq![','] + rest, c);
            assert(q + seq![','] + rest =~= q + (seq![','] + rest));
            assert((q + seq![','] + rest).last() == rest.last());
        }
    }
}

/// While looking for `pat` (which ends with `c d " :`), no position before
/// `to` matches when `b` up to the end of a match at `to` closes no such
/// key.
proof fn lemma_find_skips(b: Seq<char>, pat: Seq<char>, c: char, from: int, to: int)
    requires
        pat.len() >= 4,
        pat[pat.len() - 4] == c,
        pat[pat.len() - 3] == 'd',
        pat[pat.len() - 2] == '"',
        pat[pat.len() - 1] == ':',
        0 <= from <= to,
        to + pat.len() <= b.len(),
        no_key_end(b.take(to + pat.len() - 1), c),
    ensures
        find_from(b, pat, from) == find_from(b, pat, to),
    decreases to - from,
{
    if from < to {
        let j = from + pat.len() - 2;
        let x = b.take(to + pat.len() - 1);
        if occurs_at(b, pat, from) {
            assert(b.subrange(from, from + pat.len())[pat.len() - 2] == pat[pat.len() - 2]);
            assert(b.subrange(from, from + pat.len())[pat.len() - 1] == pat[pat.len() - 1]);
            assert(b.subrange(from, from + pat.len())[pat.len() - 3] == pat[pat.len() - 3]);
            assert(b.subrange(from, from + pat.len())[pat.len() - 4] == pat[pat.len() - 4]);
            assert(x[j] == b[j] && x[j + 1] == b[j + 1] && x[j - 1] == b[j - 1] && x[j - 2] == b[j
                - 2]);
        }
        lemma_find_skips(b, pat, c, from + 1, to);
    }
}

spec fn argv_head() -> Seq<char> {
    seq!['{', '"', 'a', 'r', 'g', 'v', '"', ':']
}

spec fn cwd_head() -> Seq<char> {
    seq![',', '"', 'c', 'w', 'd', '"', ':']
}

spec fn created_head() -> Seq<char> {
    seq![',', '"', 'c', 'r', 'e', 'a', 't', 'e', 'd', '"', ':']
}

spec fn array_text(argv: Seq<Seq<char>>) -> Seq<char> {
    seq!['['] + joined_quoted(argv) + seq![']']
}

spec fn cwd_text(cwd: Option<Seq<char>>) -> Seq<char> {
    match cwd {
        Some(c) => json_quoted(c),
        None => null_text(),
    }
}

proof fn lemma_piece(pre: Seq<char>, x: Seq<char>, post: Seq<char>)
    ensures
        (pre + x + post).subrange(pre.len() as int, pre.len() as int + x.len() as int) == x,
        (pre + x + post).take(pre.len() as int + x.len() as int) == pre + x,
{
    assert((pre + x + post).subrange(pre.len() as int, pre.len() as int + x.len() as int) =~= x);
    assert((pre + x + post).take(pre.len() as int + x.len() as int) =~= pre + x);
}

proof fn lemma_head_keys(c: char)
    requires
        c == 'w' || c == 'e',
    ensures
        no_key_end(argv_head(), c),
        no_key_end(cwd_head().take(6), c),
        c == 'e' ==> no_key_end(cwd_head(), c),
        no_key_end(created_head().take(10), c),
        no_key_end(null_text(), c),
        no_key_end(seq!['['], c),
        no_key_end(seq![']'], c),
{
    let a = argv_head();
    assert forall|j: int| 2 <= j && j + 1 < a.len() implies !(a[j - 2] == c && a[j - 1] == 'd'
        && #[trigger] a[j] == '"' && a[j + 1] == ':') by {
        assert(j == 2 || j == 3 || j == 4 || j == 5 || j == 6);
    }
    let w = cwd_head();
    let w6 = w.take(6);
    assert forall|j: int| 2 <= j && j + 1 < w6.len() implies !(w6[j - 2] == c && w6[j - 1]
        == 'd' && #[trigger] w6[j] == '"' && w6[j + 1] == ':') by {
        assert(j == 2 || j == 3 || j == 4);
    }
    if c == 'e' {
        assert forall|j: int| 2 <= j && j + 1 < w.len() implies !(w[j - 2] == c && w[j - 1]
            == 'd' && #[trigger] w[j] == '"' && w[j + 1] == ':') by {
            assert(j == 2 || j == 3 || j == 4 || j == 5);
        }
    }
    let t = created_head().take(10);
    assert forall|j: int| 2 <= j && j + 1 < t.len() implies !(t[j - 2] == c && t[j - 1] == 'd'
        && #[trigger] t[j] == '"' && t[j + 1] == ':') by {
        assert(j == 2 || j == 3 || j == 4 || j == 5 || j == 6 || j == 7 || j == 8);
    }
    let n = null_text();
    assert forall|j: int| 2 <= j && j + 1 < n.len() implies !(n[j - 2] == c && n[j - 1] == 'd'
        && #[trigger] n[j] == '"' && n[j + 1] == ':') by {
        assert(j == 2);
    }
}

proof fn lemma_no_key_end_array(argv: Seq<Seq<char>>, c: char)
    requires
        c == 'w' || c == 'e',
    ensures
        no_key_end(array_text(argv), c),
{
    lemma_head_keys(c);
    lemma_no_key_end_joined(argv, c);
    lemma_no_key_end_concat(seq!['['], joined_quoted(argv), c);
    lemma_no_key_end_concat(seq!['['] + joined_quoted(argv), seq![']'], c);
}

proof fn lemma_no_key_end_cwd(cwd: Option<Seq<char>>)
    requires
    ensures
        no_key_end(cwd_text(cwd), 'e'),
        cwd_text(cwd).len() > 0,
        cwd_text(cwd).last() == '"' || cwd_text(cwd).last() == 'l',
{
    lemma_head_keys('e');
    match cwd {
        Some(c) => {
            lemma_no_key_end_quoted(c, 'e');
            lemma_json_quoted(c);
        },
        None => {},
    }
}

proof fn lemma_read_argv(argv: Seq<Seq<char>>, d: Seq<char>, rest: Seq<char>)
    requires
        d == argv_head() + array_text(argv) + rest,
    ensures
        string_array_value(d, argv_key()) == Some(argv),
{
    let jb = joined_quoted(argv);
    let kp = key_pattern(argv_key());
    assert(kp =~= seq!['"', 'a', 'r', 'g', 'v', '"', ':']);
    assert(d.subrange(0, 7)[0] == d[0]);
    assert(!occurs_at(d, kp, 0));
    assert(d.subrange(1, 8) =~= kp);
    assert(occurs_at(d, kp, 1));
    assert(find_from(d, kp, 1) == Some(1int));
    assert(find_from(d, kp, 0) == Some(1int));
    assert(d.skip(8)[0] == '[');
    assert(skip_ws(d, 8) == 8);
    assert(value_start(d, argv_key()) == Some(8int));
    assert(d[8] == '[');
    assert(d == argv_head() + seq!['['] + jb + (seq![']'] + rest));
    lemma_piece(argv_head() + seq!['['], jb, seq![']'] + rest);
    lemma_scan_joined(d, 9, argv, 1);
    assert(d[9 + jb.len() as int] == ']');
    assert(matching_bracket(d, 8) == Some(9 + jb.len() as int));
    let inner = d.subrange(9, 9 + jb.len() as int);
    assert(inner.subrange(0, inner.len() as int) =~= jb);
    lemma_read_joined(inner, 0, argv);
}

proof fn lemma_read_cwd(cwd: Option<Seq<char>>, d: Seq<char>, front: Seq<char>, rest: Seq<char>)
    requires
        no_key_end(front, 'w'),
        front.len() >= 1,
        front.last() == ']',
        d == front + cwd_head() + cwd_text(cwd) + rest,
    ensures
        string_value(d, cwd_key()) == cwd,
{
    let kc = key_pattern(cwd_key());
    let cpos = front.len() as int;
    let v1 = cpos + 7;
    assert(kc =~= seq!['"', 'c', 'w', 'd', '"', ':']);
    lemma_head_keys('w');
    lemma_no_key_end_concat(front, cwd_head().take(6), 'w');
    assert(d.take(cpos + 6) =~= front + cwd_head().take(6));
    lemma_find_skips(d, kc, 'w', 0, cpos + 1);
    assert(d.subrange(cpos + 1, cpos + 7) =~= kc);
    assert(find_from(d, kc, 0) == Some(cpos + 1));
    let cb = cwd_text(cwd);
    lemma_no_key_end_cwd(cwd);
    assert(d.skip(v1)[0] == cb[0]);
    match cwd {
        Some(c) => {
            lemma_json_quoted(c);
            assert(cb[0] == '"');
        },
        None => {
            assert(cb[0] == 'n');
        },
    }
    assert(skip_ws(d, v1) == v1);
    assert(value_start(d, cwd_key()) == Some(v1));
    match cwd {
        Some(c) => {
            let e = json_escaped(c);
            assert(d[v1] == '"');
            if occurs_at(d, null_text(), v1) {
                assert(d.subrange(v1, v1 + 4)[0] == d[v1]);
            }
            assert(d == (front + cwd_head() + seq!['"']) + e + (seq!['"'] + rest));
            lemma_piece(front + cwd_head() + seq!['"'], e, seq!['"'] + rest);
            assert(d[v1 + 1 + e.len()] == '"');
            lemma_read_escaped(d, v1 + 1, c);
        },
        None => {
            assert(d.subrange(v1, v1 + 4) =~= null_text());
        },
    }
}

proof fn lemma_read_created(created: u64, d: Seq<char>, front: Seq<char>)
    requires
        no_key_end(front, 'e'),
        front.len() >= 1,
        front.last() == '"' || front.last() == 'l',
        d == front + created_head() + decimal(created as nat) + seq!['}'],
    ensures
        number_value(d, created_key()) == Some(created),
{
    let kt = key_pattern(created_key());
    let tpos = front.len() as int;
    let v2 = tpos + 11;
    let nb = decimal(created as nat);
    lemma_decimal_digits(created as nat);
    assert(kt =~= created_head().skip(1));
    lemma_head_keys('e');
    lemma_no_key_end_concat(front, created_head().take(10), 'e');
    assert(d.take(tpos + 10) =~= front + created_head().take(10));
    lemma_find_skips(d, kt, 'e', 0, tpos + 1);
    assert(d.subrange(tpos + 1, tpos + 11) =~= kt);
    assert(find_from(d, kt, 0) == Some(tpos + 1));
    assert(d.skip(v2)[0] == nb[0]);
    assert(skip_ws(d, v2) == v2);
    assert(value_start(d, created_key()) == Some(v2));
    lemma_piece(front + created_head(), nb, seq!['}']);
    assert forall|j: int| v2 <= j < v2 + nb.len() implies '0' <= #[trigger] d[j] <= '9' by {
        assert(d[j] == nb[j - v2]);
    }
    assert(d[v2 + nb.len()] == '}');
    lemma_digit_run(d, v2, nb.len() as int);
    assert(d.subrange(v2, v2 + nb.len()) == nb);
}

proof fn lemma_read_all(
    argv: Seq<Seq<char>>,
    cwd: Option<Seq<char>>,
    created: u64,
    d: Seq<char>,
)
    requires
        d == argv_head() + array_text(argv) + cwd_head() + cwd_text(cwd) + created_head()
            + decimal(created as nat) + seq!['}'],
    ensures
        parsed_action(d) == Some(ActionModel { argv, cwd, created }),
{
    let ab = array_text(argv);
    let cb = cwd_text(cwd);
    let nb = decimal(created as nat);
    let tail = seq!['}'];
    assert(d =~= argv_head() + ab + (cwd_head() + cb + created_head() + nb + tail));
    lemma_read_argv(argv, d, cwd_head() + cb + created_head() + nb + tail);
    lemma_head_keys('w');
    lemma_head_keys('e');
    lemma_no_key_end_array(argv, 'w');
    lemma_no_key_end_array(argv, 'e');
    lemma_no_key_end_concat(argv_head(), ab, 'w');
    lemma_no_key_end_concat(argv_head(), ab, 'e');
    let front1 = argv_head() + ab;
    assert(front1.last() == ']');
    assert(d =~= front1 + cwd_head() + cb + (created_head() + nb + tail));
    lemma_read_cwd(cwd, d, front1, created_head() + nb + tail);
    lemma_no_key_end_cwd(cwd);
    lemma_no_key_end_concat(front1, cwd_head(), 'e');
    lemma_no_key_end_concat(front1 + cwd_head(), cb, 'e');
    let front2 = front1 + cwd_head() + cb;
    assert(front2.last() == cb.last());
    lemma_read_created(created, d, front2);
}

/// What the store writes for an action reads back unchanged: every argv,
/// working directory and creation time.
pub proof fn lemma_action_json_reads_back(
    argv: Seq<Seq<char>>,
    cwd: Option<Seq<char>>,
    created: u64,
)
    ensures
        parsed_action(action_json_spec(argv, cwd, created)) == Some(
            ActionModel { argv, cwd, created },
        ),
{
    reveal_strlit("{\"argv\":");
    reveal_strlit(",\"cwd\":");
    reveal_strlit(",\"created\":");
    reveal_strlit("}");
    reveal_strlit("null");
    let k1 = "{\"argv\":"@;
    let k2 = ",\"cwd\":"@;
    let k3 = ",\"created\":"@;
    let k4 = "}"@;
    let arr = json_array(argv);
    let cv = match cwd {
        Some(c) => json_quoted(c),
        None => "null"@,
    };
    let dec = decimal(created as nat);
    let d = action_json_spec(argv, cwd, created);
    assert(d == k1 + arr + k2 + cv + k3 + dec + k4);
    assert(k1 =~= argv_head());
    assert(k2 =~= cwd_head());
    assert(k3 =~= created_head());
    assert(k4 =~= seq!['}']);
    assert(arr =~= array_text(argv));
    assert(cv =~= cwd_text(cwd));
    lemma_read_all(argv, cwd, created, d);
}

} // verus!
