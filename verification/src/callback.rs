//! Click callbacks via a registered `reminder://` URI scheme: the formats.
//!
//! The command to run on click is never placed in the URI (any web page
//! can trigger a custom scheme). Instead the command is written to a local
//! action store as a small JSON file named by a random token, the toast's
//! launch URI is `reminder://run/<token>`, and the handler looks the token
//! up and runs the stored argv directly. This module holds everything about
//! that scheme that is computation: token validation and encoding, the URI,
//! the JSON written and read back, and the expiry rule.

use vstd::prelude::*;

use crate::text::{chars_of, push_char};

verus! {

/// The URI scheme whose handler is this program.
pub const SCHEME: &'static str = "reminder";

/// The URI host naming a stored action.
pub const ACTION_HOST: &'static str = "run";

/// How long a stored action stays usable: 7 days, long enough to click a
/// toast from Action Center the next day, short enough that the store
/// doesn't grow forever.
pub const ACTION_TTL_SECONDS: u64 = 604800;

/// Token length in bytes before encoding: 22 URL-safe characters.
pub const TOKEN_BYTES: usize = 16;

// ---------------------------------------------------------------- tokens

/// A character that may appear in a token: URL-safe base64.
pub open spec fn is_token_char(c: char) -> bool {
    ('0' <= c <= '9') || ('A' <= c <= 'Z') || ('a' <= c <= 'z') || c == '_' || c == '-'
}

/// A token names a file in the action store only if it is 16 to 128 URL-safe
/// base64 characters, so that no token can reach outside the store.
pub open spec fn valid_token(t: Seq<char>) -> bool {
    16 <= t.len() <= 128 && forall|i: int| 0 <= i < t.len() ==> is_token_char(#[trigger] t[i])
}

fn token_char(c: char) -> (r: bool)
    ensures
        r == is_token_char(c),
{
    ('0' <= c && c <= '9') || ('A' <= c && c <= 'Z') || ('a' <= c && c <= 'z') || c == '_' || c
        == '-'
}

/// Whether `token` may name a stored action.
pub fn is_valid_token(token: &str) -> (r: bool)
    ensures
        r == valid_token(token@),
{
    let n = token.unicode_len();
    if n < 16 || n > 128 {
        return false;
    }
    let chars = chars_of(token);
    let mut i: usize = 0;
    while i < n
        invariant
            n == chars@.len(),
            chars@ == token@,
            i <= n,
            forall|j: int| 0 <= j < i ==> is_token_char(#[trigger] chars@[j]),
        decreases n - i,
    {
        if !token_char(chars[i]) {
            return false;
        }
        i = i + 1;
    }
    true
}

/// The name of the file holding the action for `token` in the action store,
/// or None when the token is not valid.
pub fn action_file_name(token: &str) -> (res: Option<String>)
    ensures
        res is Some <==> valid_token(token@),
        res is Some ==> res->0@ == token@ + ".json"@,
{
    if is_valid_token(token) {
        let mut name = String::from_str(token);
        name.append(".json");
        Some(name)
    } else {
        None
    }
}

/// The URL-safe base64 digit for `v` < 64.
pub open spec fn b64_digit(v: int) -> char {
    if v < 26 {
        (65 + v) as char
    } else if v < 52 {
        (97 + v - 26) as char
    } else if v < 62 {
        (48 + v - 52) as char
    } else if v == 62 {
        '-'
    } else {
        '_'
    }
}

/// URL-safe base64 without padding: each three bytes become four digits of
/// six bits each; a last group of one or two bytes becomes two or three.
pub open spec fn b64(data: Seq<u8>) -> Seq<char>
    decreases data.len(),
{
    let (a, b, c) = (data[0] as int, data[1] as int, data[2] as int);
    if data.len() == 0 {
        Seq::empty()
    } else if data.len() == 1 {
        seq![b64_digit(a / 4), b64_digit((a % 4) * 16)]
    } else if data.len() == 2 {
        seq![b64_digit(a / 4), b64_digit((a % 4) * 16 + b / 16), b64_digit((b % 16) * 4)]
    } else {
        seq![
            b64_digit(a / 4),
            b64_digit((a % 4) * 16 + b / 16),
            b64_digit((b % 16) * 4 + c / 64),
            b64_digit(c % 64),
        ] + b64(data.skip(3))
    }
}

fn b64_char(v: u8) -> (c: char)
    requires
        v < 64,
    ensures
        c == b64_digit(v as int),
{
    if v < 26 {
        (65 + v) as char
    } else if v < 52 {
        (97 + v - 26) as char
    } else if v < 62 {
        (48 + v - 52) as char
    } else if v == 62 {
        '-'
    } else {
        '_'
    }
}

/// URL-safe base64 (no padding), enough for token generation.
pub fn base64_url_encode(data: &[u8]) -> (res: String)
    ensures
        res@ == b64(data@),
{
    let mut out = String::new();
    let mut i: usize = 0;
    assert(data@.skip(0) == data@);
    while data.len() - i > 2
        invariant
            i <= data@.len(),
            out@ + b64(data@.skip(i as int)) == b64(data@),
        decreases data.len() - i,
    {
        let ghost rest = data@.skip(i as int);
        let (a, b, c) = (data[i], data[i + 1], data[i + 2]);
        push_char(&mut out, b64_char(a / 4));
        push_char(&mut out, b64_char((a % 4) * 16 + b / 16));
        push_char(&mut out, b64_char((b % 16) * 4 + c / 64));
        push_char(&mut out, b64_char(c % 64));
        assert(rest.skip(3) == data@.skip(i + 3));
        assert(rest[0] == a && rest[1] == b && rest[2] == c);
        i = i + 3;
    }
    let ghost rest = data@.skip(i as int);
    let remaining = data.len() - i;
    if remaining == 2 {
        let (a, b) = (data[i], data[i + 1]);
        push_char(&mut out, b64_char(a / 4));
        push_char(&mut out, b64_char((a % 4) * 16 + b / 16));
        push_char(&mut out, b64_char((b % 16) * 4));
        assert(rest[0] == a && rest[1] == b);
    } else if remaining == 1 {
        let a = data[i];
        push_char(&mut out, b64_char(a / 4));
        push_char(&mut out, b64_char((a % 4) * 16));
        assert(rest[0] == a);
    }
    assert(out@ =~= b64(data@));
    out
}

// ---------------------------------------------------------------- URIs

/// The part of every action URI before the token.
pub open spec fn action_prefix() -> Seq<char> {
    SCHEME@ + "://"@ + ACTION_HOST@ + "/"@
}

fn action_prefix_string() -> (res: String)
    ensures
        res@ == action_prefix(),
{
    let mut p = String::from_str(SCHEME);
    p.append("://");
    p.append(ACTION_HOST);
    p.append("/");
    p
}

/// The launch URI for the action stored under `token`.
pub fn action_uri(token: &str) -> (res: String)
    ensures
        res@ == action_prefix() + token@,
{
    let mut uri = action_prefix_string();
    uri.append(token);
    uri
}

/// The text after the action prefix, up to the first `?` or `#`.
pub open spec fn uri_token(uri: Seq<char>) -> Seq<char> {
    let rest = uri.skip(action_prefix().len() as int);
    rest.take(first_stop(rest, 0))
}

/// Index of the first `?` or `#` at or after `from`, or the length of `s`.
pub open spec fn first_stop(s: Seq<char>, from: int) -> int
    decreases s.len() - from,
{
    if from < 0 || from >= s.len() {
        s.len() as int
    } else if s[from] == '?' || s[from] == '#' {
        from
    } else {
        first_stop(s, from + 1)
    }
}

/// What `parse_action_uri` gives for `uri`.
pub open spec fn parsed_action_uri(uri: Seq<char>) -> Result<Seq<char>, Seq<char>> {
    let p = action_prefix();
    if uri.len() < p.len() || uri.take(p.len() as int) != p {
        Err("not a valid "@ + SCHEME@ + ":// URI: "@ + uri)
    } else if !valid_token(uri_token(uri)) {
        Err("invalid token in URI: "@ + uri)
    } else {
        Ok(uri_token(uri))
    }
}

/// Parse the token out of a `reminder://run/<token>` URI. A query or
/// fragment after the token is ignored.
pub fn parse_action_uri(uri: &str) -> (res: Result<String, String>)
    ensures
        match res {
            Ok(t) => parsed_action_uri(uri@) == Ok::<_, Seq<char>>(t@),
            Err(e) => parsed_action_uri(uri@) == Err::<Seq<char>, _>(e@),
        },
{
    let prefix = chars_of(action_prefix_string().as_str());
    let chars = chars_of(uri);
    let n = chars.len();
    let plen = prefix.len();
    let mut matches = n >= plen;
    if matches {
        let mut i: usize = 0;
        assert(prefix@.take(0) =~= chars@.take(0));
        while i < plen
            invariant
                plen == prefix@.len() <= n == chars@.len(),
                i <= plen,
                matches == (prefix@.take(i as int) == chars@.take(i as int)),
            decreases plen - i,
        {
            if prefix[i] != chars[i] {
                assert(prefix@.take(i + 1)[i as int] != chars@.take(i + 1)[i as int]);
                matches = false;
            }
            assert(matches ==> prefix@.take(i + 1) =~= chars@.take(i + 1));
            if !matches {
                assert(prefix@.take(i + 1) != chars@.take(i + 1)) by {
                    if prefix@.take(i as int) != chars@.take(i as int) {
                        assert(prefix@.take(i + 1).take(i as int) == prefix@.take(i as int));
                        assert(chars@.take(i + 1).take(i as int) == chars@.take(i as int));
                    }
                }
            }
            i = i + 1;
        }
        assert(prefix@.take(plen as int) == prefix@);
    }
    if !matches {
        let mut e = String::from_str("not a valid ");
        e.append(SCHEME);
        e.append(":// URI: ");
        e.append(uri);
        return Err(e);
    }
    let ghost rest = chars@.skip(plen as int);
    let mut end = plen;
    while end < n && chars[end] != '?' && chars[end] != '#'
        invariant
            plen <= end <= n == chars@.len(),
            rest == chars@.skip(plen as int),
            first_stop(rest, 0) == first_stop(rest, end - plen),
        decreases n - end,
    {
        end = end + 1;
    }
    let mut token = String::new();
    let mut k = plen;
    while k < end
        invariant
            plen <= k <= end <= n == chars@.len(),
            token@ == chars@.subrange(plen as int, k as int),
        decreases end - k,
    {
        push_char(&mut token, chars[k]);
        assert(chars@.subrange(plen as int, k + 1) == chars@.subrange(plen as int, k as int).push(
            chars@[k as int],
        ));
        k = k + 1;
    }
    assert(token@ =~= uri_token(uri@));
    if !is_valid_token(token.as_str()) {
        let mut e = String::from_str("invalid token in URI: ");
        e.append(uri);
        return Err(e);
    }
    Ok(token)
}

/// The command registered as the scheme handler, for the program at `exe`.
pub fn protocol_command(exe: &str) -> (res: String)
    ensures
        res@ == "\""@ + exe@ + "\" --open-uri \"%1\""@,
{
    let mut cmd = String::from_str("\"");
    cmd.append(exe);
    cmd.append("\" --open-uri \"%1\"");
    cmd
}

// ---------------------------------------------------------------- registry

/// The UTF-16 units of a registry string value that filled `size` bytes of
/// a buffer holding `buf`: the first `size / 2` units, without the
/// terminating NUL when there is one.
pub open spec fn registry_units(buf: Seq<u16>, size: u32) -> Seq<u16> {
    let units = buf.take(size as int / 2);
    if units.len() > 0 && units.last() == 0 {
        units.drop_last()
    } else {
        units
    }
}

/// The text units of a registry string value read into `buf`, `size` bytes
/// long, as `registry_units`.
pub fn registry_text_units(buf: &[u16], size: u32) -> (r: Vec<u16>)
    requires
        size as int / 2 <= buf@.len(),
    ensures
        r@ == registry_units(buf@, size),
{
    let len = (size / 2) as usize;
    let end = if len > 0 && buf[len - 1] == 0 {
        len - 1
    } else {
        len
    };
    let mut out: Vec<u16> = Vec::new();
    let mut i: usize = 0;
    while i < end
        invariant
            i <= end <= len <= buf@.len(),
            len == size as int / 2,
            end == (if len > 0 && buf@[len - 1] == 0 {
                len - 1
            } else {
                len as int
            }),
            out@ == buf@.take(i as int),
        decreases end - i,
    {
        out.push(buf[i]);
        assert(buf@.take(i + 1) =~= buf@.take(i as int).push(buf@[i as int]));
        i = i + 1;
    }
    assert(out@ =~= registry_units(buf@, size));
    out
}

/// The text std's `String::from_utf16_lossy` decodes from `units`.
pub uninterp spec fn utf16_lossy(units: Seq<u16>) -> Seq<char>;

/// Decodes UTF-16 by calling std's `String::from_utf16_lossy`, which its
/// documentation says decodes `units`, putting U+FFFD in place of invalid
/// data. Trusted: the contract says only that the result is a function of
/// `units` alone, named `utf16_lossy`.
#[verifier::external_body]
fn utf16_text(units: &[u16]) -> (r: String)
    ensures
        r@ == utf16_lossy(units@),
{
    String::from_utf16_lossy(units)
}

/// The text of a registry string value read into `buf`, `size` bytes long:
/// its units without the terminating NUL, decoded from UTF-16.
pub fn registry_text(buf: &[u16], size: u32) -> (r: String)
    requires
        size as int / 2 <= buf@.len(),
    ensures
        r@ == utf16_lossy(registry_units(buf@, size)),
{
    let units = registry_text_units(buf, size);
    utf16_text(units.as_slice())
}

// ---------------------------------------------------------------- expiry

/// Whether an action created at `created` has expired at `now` (both in
/// seconds since the Unix epoch): it is older than the time-to-live. A
/// creation time in the future counts as age zero.
pub open spec fn expired(created: u64, now: u64) -> bool {
    (if now >= created {
        now - created
    } else {
        0
    }) > ACTION_TTL_SECONDS
}

/// Whether the action created at `created` has expired at `now`.
pub fn action_expired(created: u64, now: u64) -> (r: bool)
    ensures
        r == expired(created, now),
{
    now.saturating_sub(created) > ACTION_TTL_SECONDS
}

/// An action that has expired stays expired: its age only grows.
pub proof fn lemma_expiry_is_permanent(created: u64, now: u64, later: u64)
    requires
        expired(created, now),
        now <= later,
    ensures
        expired(created, later),
{
}

// ---------------------------------------------------------------- JSON out

/// Lower-case hex digit for `d` < 16.
pub open spec fn hex_lower(d: int) -> char {
    if d < 10 {
        (48 + d) as char
    } else {
        (97 + d - 10) as char
    }
}

/// What one character becomes inside a JSON string: quote, backslash,
/// newline, carriage return and tab get their short escapes, other control
/// characters a `\u00XX` escape, everything else stands for itself.
pub open spec fn json_escape_char(c: char) -> Seq<char> {
    if c == '"' {
        seq!['\\', '"']
    } else if c == '\\' {
        seq!['\\', '\\']
    } else if c == '\n' {
        seq!['\\', 'n']
    } else if c == '\r' {
        seq!['\\', 'r']
    } else if c == '\t' {
        seq!['\\', 't']
    } else if (c as u32) < 32 {
        seq!['\\', 'u', '0', '0', hex_lower((c as u32) as int / 16), hex_lower((c as u32) as int % 16)]
    } else {
        seq![c]
    }
}

/// `s` escaped for use inside a JSON string.
pub open spec fn json_escaped(s: Seq<char>) -> Seq<char> {
    s.flat_map(|c: char| json_escape_char(c))
}

/// `s` as a JSON string literal.
pub open spec fn json_quoted(s: Seq<char>) -> Seq<char> {
    seq!['"'] + json_escaped(s) + seq!['"']
}

/// The parts joined with `sep` between consecutive ones.
pub open spec fn joined(parts: Seq<Seq<char>>, sep: char) -> Seq<char>
    decreases parts.len(),
{
    if parts.len() == 0 {
        Seq::empty()
    } else if parts.len() == 1 {
        parts[0]
    } else {
        joined(parts.drop_last(), sep) + seq![sep] + parts.last()
    }
}

/// The items as a JSON array of strings.
pub open spec fn json_array(items: Seq<Seq<char>>) -> Seq<char> {
    seq!['['] + joined(items.map_values(|s: Seq<char>| json_quoted(s)), ',') + seq![']']
}

/// Decimal digits of `n`, without leading zeros.
pub open spec fn decimal(n: nat) -> Seq<char>
    decreases n,
{
    if n < 10 {
        seq![(48 + n) as char]
    } else {
        decimal(n / 10).push((48 + n % 10) as char)
    }
}

/// The stored form of an action: its argv, working directory (or null) and
/// creation time in seconds since the Unix epoch.
pub open spec fn action_json_spec(argv: Seq<Seq<char>>, cwd: Option<Seq<char>>, created: u64) -> Seq<
    char,
> {
    "{\"argv\":"@ + json_array(argv) + ",\"cwd\":"@ + match cwd {
        Some(c) => json_quoted(c),
        None => "null"@,
    } + ",\"created\":"@ + decimal(created as nat) + "}"@
}

fn hex_lower_digit(d: u32) -> (c: char)
    requires
        d < 16,
    ensures
        c == hex_lower(d as int),
{
    if d < 10 {
        (48 + d as u8) as char
    } else {
        (97 + d as u8 - 10) as char
    }
}

/// Appends `s` escaped for use inside a JSON string.
fn push_json_escaped(out: &mut String, s: &str)
    ensures
        final(out)@ == old(out)@ + json_escaped(s@),
{
    for ch in it: s.chars()
        invariant
            it.seq() == s@,
            out@ == old(out)@ + json_escaped(s@.take(it.index() as int)),
    {
        proof {
            s@.lemma_flat_map_take_append(|c: char| json_escape_char(c), it.index() as int);
        }
        let ghost before = out@;
        if ch == '"' {
            push_char(out, '\\');
            push_char(out, '"');
        } else if ch == '\\' {
            push_char(out, '\\');
            push_char(out, '\\');
        } else if ch == '\n' {
            push_char(out, '\\');
            push_char(out, 'n');
        } else if ch == '\r' {
            push_char(out, '\\');
            push_char(out, 'r');
        } else if ch == '\t' {
            push_char(out, '\\');
            push_char(out, 't');
        } else if (ch as u32) < 32 {
            let code = ch as u32;
            push_char(out, '\\');
            push_char(out, 'u');
            push_char(out, '0');
            push_char(out, '0');
            push_char(out, hex_lower_digit(code / 16));
            push_char(out, hex_lower_digit(code % 16));
        } else {
            push_char(out, ch);
        }
        assert(out@ =~= before + json_escape_char(ch));
    }
    assert(s@.take(s@.len() as int) == s@);
}

/// `s` escaped for use inside a JSON string.
pub fn json_escape(s: &str) -> (res: String)
    ensures
        res@ == json_escaped(s@),
{
    let mut out = String::new();
    push_json_escaped(&mut out, s);
    out
}

/// Appends `s` as a JSON string literal.
fn push_json_quoted(out: &mut String, s: &str)
    ensures
        final(out)@ == old(out)@ + json_quoted(s@),
{
    push_char(out, '"');
    push_json_escaped(out, s);
    push_char(out, '"');
    assert(out@ =~= old(out)@ + json_quoted(s@));
}

/// The strings as a JSON array.
pub fn json_string_array(items: &[&str]) -> (res: String)
    ensures
        res@ == json_array(items@.map_values(|s: &str| s@)),
{
    let ghost views = items@.map_values(|s: &str| s@);
    let ghost parts = views.map_values(|s: Seq<char>| json_quoted(s));
    let mut out = String::new();
    push_char(&mut out, '[');
    let mut i: usize = 0;
    while i < items.len()
        invariant
            i <= items@.len(),
            views == items@.map_values(|s: &str| s@),
            parts == views.map_values(|s: Seq<char>| json_quoted(s)),
            out@ == seq!['['] + joined(parts.take(i as int), ','),
        decreases items.len() - i,
    {
        let ghost t = parts.take(i + 1);
        assert(t.drop_last() == parts.take(i as int));
        assert(t.last() == json_quoted(items@[i as int]@));
        if i > 0 {
            push_char(&mut out, ',');
        }
        push_json_quoted(&mut out, items[i]);
        if i == 0 {
            assert(joined(t, ',') == t[0]);
        }
        assert(out@ =~= seq!['['] + joined(t, ','));
        i = i + 1;
    }
    push_char(&mut out, ']');
    assert(parts.take(items@.len() as int) == parts);
    assert(out@ =~= json_array(views));
    out
}

/// Appends the decimal digits of `n`.
pub(crate) fn push_decimal(out: &mut String, n: u64)
    ensures
        final(out)@ == old(out)@ + decimal(n as nat),
    decreases n,
{
    if n >= 10 {
        push_decimal(out, n / 10);
    }
    push_char(out, (48 + (n % 10) as u8) as char);
    assert(out@ =~= old(out)@ + decimal(n as nat));
}

/// The JSON stored for an action: argv, working directory and creation
/// time.
pub fn action_json(argv: &[&str], cwd: Option<&str>, created: u64) -> (res: String)
    ensures
        res@ == action_json_spec(
            argv@.map_values(|s: &str| s@),
            match cwd {
                Some(c) => Some(c@),
                None => None,
            },
            created,
        ),
{
    let mut out = String::from_str("{\"argv\":");
    out.append(json_string_array(argv).as_str());
    out.append(",\"cwd\":");
    match cwd {
        Some(c) => push_json_quoted(&mut out, c),
        None => out.append("null"),
    }
    out.append(",\"created\":");
    push_decimal(&mut out, created);
    out.append("}");
    out
}


// ---------------------------------------------------------------- laws

proof fn lemma_b64_digit_is_token_char(v: int)
    requires
        0 <= v < 64,
    ensures
        is_token_char(b64_digit(v)),
{
}

proof fn lemma_b64_shape(data: Seq<u8>)
    ensures
        b64(data).len() == (4 * data.len() + 2) / 3,
        forall|i: int| 0 <= i < b64(data).len() ==> is_token_char(#[trigger] b64(data)[i]),
    decreases data.len(),
{
    let (a, b, c) = (data[0] as int, data[1] as int, data[2] as int);
    if data.len() == 0 {
    } else if data.len() == 1 {
        lemma_b64_digit_is_token_char(a / 4);
        lemma_b64_digit_is_token_char((a % 4) * 16);
    } else if data.len() == 2 {
        lemma_b64_digit_is_token_char(a / 4);
        lemma_b64_digit_is_token_char((a % 4) * 16 + b / 16);
        lemma_b64_digit_is_token_char((b % 16) * 4);
    } else {
        lemma_b64_digit_is_token_char(a / 4);
        lemma_b64_digit_is_token_char((a % 4) * 16 + b / 16);
        lemma_b64_digit_is_token_char((b % 16) * 4 + c / 64);
        lemma_b64_digit_is_token_char(c % 64);
        lemma_b64_shape(data.skip(3));
        let head = seq![
            b64_digit(a / 4),
            b64_digit((a % 4) * 16 + b / 16),
            b64_digit((b % 16) * 4 + c / 64),
            b64_digit(c % 64),
        ];
        let tail = b64(data.skip(3));
        assert(b64(data) == head + tail);
        assert forall|i: int| 0 <= i < b64(data).len() implies is_token_char(
            #[trigger] b64(data)[i],
        ) by {
            if i >= 4 {
                assert(b64(data)[i] == tail[i - 4]);
            }
        }
    }
}

/// A token made from `TOKEN_BYTES` bytes, whatever they are, is a valid
/// token of 22 characters: every generated token names a file in the store.
pub proof fn lemma_generated_token_is_valid(data: Seq<u8>)
    requires
        data.len() == TOKEN_BYTES,
    ensures
        b64(data).len() == 22,
        valid_token(b64(data)),
{
    lemma_b64_shape(data);
}

/// The URI made for a token gives that token back, also when a query or a
/// fragment follows it: a click runs the action that was registered.
pub proof fn lemma_action_uri_round_trip(token: Seq<char>, suffix: Seq<char>)
    requires
        valid_token(token),
        suffix.len() == 0 || suffix[0] == '?' || suffix[0] == '#',
    ensures
        parsed_action_uri(action_prefix() + token + suffix) == Ok::<Seq<char>, Seq<char>>(token),
{
    let p = action_prefix();
    let uri = p + token + suffix;
    assert(uri.take(p.len() as int) =~= p);
    let rest = uri.skip(p.len() as int);
    assert(rest =~= token + suffix);
    assert forall|from: int| 0 <= from <= token.len() implies first_stop(rest, from)
        == token.len() by {
        lemma_rest_stop(token, suffix, from);
    }
    assert(rest.take(token.len() as int) =~= token);
}

/// Whatever URI a click hands over, the only thing it can select is a
/// stored action: a token it yields is valid, so it holds no `.`, `/` or
/// `\\` and names nothing outside the action store.
pub proof fn lemma_uri_selects_only_stored_actions(uri: Seq<char>)
    ensures
        parsed_action_uri(uri) matches Ok(t) ==> {
            &&& valid_token(t)
            &&& forall|i: int|
                0 <= i < t.len() ==> #[trigger] t[i] != '.' && t[i] != '/' && t[i] != '\\'
        },
{
    match parsed_action_uri(uri) {
        Ok(t) => {
            assert forall|i: int| 0 <= i < t.len() implies #[trigger] t[i] != '.' && t[i] != '/'
                && t[i] != '\\' by {
                assert(is_token_char(t[i]));
            }
        },
        Err(_) => {},
    }
}

proof fn lemma_rest_stop(token: Seq<char>, suffix: Seq<char>, from: int)
    requires
        valid_token(token),
        suffix.len() == 0 || suffix[0] == '?' || suffix[0] == '#',
        0 <= from <= token.len(),
    ensures
        first_stop(token + suffix, from) == token.len(),
    decreases token.len() - from,
{
    let r = token + suffix;
    if from < token.len() {
        assert(r[from] == token[from]);
        assert(is_token_char(token[from]));
        lemma_rest_stop(token, suffix, from + 1);
    } else if suffix.len() > 0 {
        assert(r[from] == suffix[0]);
    }
}

} // verus!
