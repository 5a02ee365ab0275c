//! Building the toast payload.
//!
//! The XML payload is assembled by hand. Element order inside `<toast>` is
//! fixed by the schema: visual, audio, then actions.

use vstd::prelude::*;

use crate::level::Level;
use crate::text::{lemma_flat_map_first, lemma_flat_map_last, push_char};

verus! {

/// What one character becomes in escaped XML text.
pub open spec fn xml_escape_char(c: char) -> Seq<char> {
    if c == '&' {
        "&amp;"@
    } else if c == '<' {
        "&lt;"@
    } else if c == '>' {
        "&gt;"@
    } else if c == '"' {
        "&quot;"@
    } else if c == '\'' {
        "&apos;"@
    } else {
        seq![c]
    }
}

/// `s` with `&`, `<`, `>`, `"` and `'` replaced by their entities.
pub open spec fn xml_escaped(s: Seq<char>) -> Seq<char> {
    s.flat_map(|c: char| xml_escape_char(c))
}

/// Escape for XML text nodes and for single- or double-quoted attributes.
///
/// Apostrophes matter: attributes are single-quoted, so a button label like
/// "It's fine" would otherwise produce a malformed payload that Windows
/// discards without reporting an error.
pub fn xml_escape(text: &str) -> (res: String)
    ensures
        res@ == xml_escaped(text@),
{
    let mut out = String::new();
    for ch in it: text.chars()
        invariant
            it.seq() == text@,
            out@ == xml_escaped(text@.take(it.index() as int)),
    {
        proof {
            text@.lemma_flat_map_take_append(|c: char| xml_escape_char(c), it.index() as int);
        }
        if ch == '&' {
            out.append("&amp;");
        } else if ch == '<' {
            out.append("&lt;");
        } else if ch == '>' {
            out.append("&gt;");
        } else if ch == '"' {
            out.append("&quot;");
        } else if ch == '\'' {
            out.append("&apos;");
        } else {
            push_char(&mut out, ch);
        }
    }
    assert(text@.take(text@.len() as int) == text@);
    out
}

/// Bytes that pass through a file URI unencoded: ASCII letters and digits
/// and `-._~/:`.
pub open spec fn uri_unreserved(b: u8) -> bool {
    (0x41 <= b <= 0x5A) || (0x61 <= b <= 0x7A) || (0x30 <= b <= 0x39) || b == 0x2D || b == 0x2E
        || b == 0x5F || b == 0x7E || b == 0x2F || b == 0x3A
}

/// Upper-case hex digit for `d` < 16.
pub open spec fn hex_upper(d: u8) -> char {
    if d < 10 {
        (0x30 + d) as char
    } else {
        (0x41 + d - 10) as char
    }
}

/// What one byte of the path's UTF-8 becomes in the URI: a backslash turns
/// into `/`, an unreserved byte stands for itself, anything else is
/// percent-encoded with upper-case hex.
pub open spec fn uri_byte(b: u8) -> Seq<char> {
    if b == 0x5C {
        seq!['/']
    } else if uri_unreserved(b) {
        seq![b as char]
    } else {
        seq!['%', hex_upper(b / 16), hex_upper(b % 16)]
    }
}

/// The `file:///` URI for a path, from the path's UTF-8 bytes.
pub open spec fn file_uri(path: Seq<char>) -> Seq<char> {
    "file:///"@ + vstd::utf8::encode_utf8(path).flat_map(|b: u8| uri_byte(b))
}

fn hex_digit(d: u8) -> (c: char)
    requires
        d < 16,
    ensures
        c == hex_upper(d),
{
    if d < 10 {
        (0x30 + d) as char
    } else {
        (0x41 + d - 10) as char
    }
}

/// Convert a filesystem path into the file:// URI a toast image requires.
/// A bare Windows path is not accepted there. Backslashes become forward
/// slashes, and every byte of the path's UTF-8 outside `A-Z a-z 0-9 - . _ ~
/// / :` is percent-encoded.
pub fn path_to_file_uri(path: &str) -> (res: String)
    ensures
        res@ == file_uri(path@),
{
    let bytes = path.as_bytes();
    let mut out = String::new();
    out.append("file:///");
    let ghost start = out@;
    let mut i: usize = 0;
    while i < bytes.len()
        invariant
            i <= bytes@.len(),
            bytes@ == vstd::utf8::encode_utf8(path@),
            start == "file:///"@,
            out@ == start + bytes@.take(i as int).flat_map(|b: u8| uri_byte(b)),
        decreases bytes.len() - i,
    {
        proof {
            bytes@.lemma_flat_map_take_append(|b: u8| uri_byte(b), i as int);
        }
        let b = bytes[i];
        if b == 0x5C {
            push_char(&mut out, '/');
        } else if (0x41 <= b && b <= 0x5A) || (0x61 <= b && b <= 0x7A) || (0x30 <= b && b <= 0x39)
            || b == 0x2D || b == 0x2E || b == 0x5F || b == 0x7E || b == 0x2F || b == 0x3A {
            push_char(&mut out, b as char);
        } else {
            push_char(&mut out, '%');
            push_char(&mut out, hex_digit(b / 16));
            push_char(&mut out, hex_digit(b % 16));
        }
        i = i + 1;
    }
    assert(bytes@.take(bytes@.len() as int) == bytes@);
    out
}

/// Everything that varies between one toast and the next.
pub struct Toast<'a> {
    pub title: &'a str,
    pub message: &'a str,
    pub level: &'a Level,
    pub sound: bool,
    /// Clicking the toast body launches this, via protocol activation.
    pub url: Option<&'a str>,
    /// (label, url) pairs rendered as buttons. Windows allows at most five.
    pub buttons: &'a [(String, String)],
    /// Path of the image shown as the app logo.
    pub icon: Option<&'a str>,
    /// A toast with the same tag from this app replaces this one. It is set
    /// on the notification, not in the XML payload; without one every toast
    /// is distinct.
    pub tag: Option<&'a str>,
}

/// The launch attributes: protocol activation of `url`, if there is one.
pub open spec fn activation_xml(url: Option<&str>) -> Seq<char> {
    match url {
        Some(u) => " activationType='protocol' launch='"@ + xml_escaped(u@) + "'"@,
        None => Seq::empty(),
    }
}

/// The app-logo image element for `icon`, if there is one.
pub open spec fn image_xml(icon: Option<&str>) -> Seq<char> {
    match icon {
        Some(p) => "<image placement='appLogoOverride' src='"@ + xml_escaped(file_uri(p@))
            + "'/>"@,
        None => Seq::empty(),
    }
}

/// The audio element: the level's sound, or silence.
pub open spec fn audio_xml(sound: bool, level_sound: &str) -> Seq<char> {
    if sound {
        "<audio src='"@ + xml_escaped(level_sound@) + "'/>"@
    } else {
        "<audio silent='true'/>"@
    }
}

/// One button.
pub open spec fn action_xml(button: (String, String)) -> Seq<char> {
    "<action content='"@ + xml_escaped(button.0@) + "' activationType='protocol' arguments='"@
        + xml_escaped(button.1@) + "'/>"@
}

/// The actions element, absent when there are no buttons.
pub open spec fn actions_xml(buttons: Seq<(String, String)>) -> Seq<char> {
    if buttons.len() == 0 {
        Seq::empty()
    } else {
        "<actions>"@ + buttons.flat_map(|b: (String, String)| action_xml(b)) + "</actions>"@
    }
}

/// The XML payload of a toast: the launch attributes, then visual (title,
/// message, image), audio, and actions, in the order the schema requires.
pub open spec fn toast_xml(t: Toast) -> Seq<char> {
    "<toast duration='long'"@ + activation_xml(t.url)
        + "><visual><binding template='ToastGeneric'><text>"@ + xml_escaped(t.title@)
        + "</text><text>"@ + xml_escaped(t.message@) + "</text>"@ + image_xml(t.icon)
        + "</binding></visual>"@ + audio_xml(t.sound, t.level.sound) + actions_xml(t.buttons@)
        + "</toast>"@
}

fn push_activation(out: &mut String, url: Option<&str>)
    ensures
        final(out)@ == old(out)@ + activation_xml(url),
{
    match url {
        Some(url) => {
            out.append(" activationType='protocol' launch='");
            out.append(xml_escape(url).as_str());
            out.append("'");
        },
        None => {},
    }
    assert(out@ =~= old(out)@ + activation_xml(url));
}

fn push_image(out: &mut String, icon: Option<&str>)
    ensures
        final(out)@ == old(out)@ + image_xml(icon),
{
    match icon {
        Some(path) => {
            out.append("<image placement='appLogoOverride' src='");
            out.append(xml_escape(path_to_file_uri(path).as_str()).as_str());
            out.append("'/>");
        },
        None => {},
    }
    assert(out@ =~= old(out)@ + image_xml(icon));
}

fn push_audio(out: &mut String, sound: bool, level_sound: &str)
    ensures
        final(out)@ == old(out)@ + audio_xml(sound, level_sound),
{
    if sound {
        out.append("<audio src='");
        out.append(xml_escape(level_sound).as_str());
        out.append("'/>");
    } else {
        out.append("<audio silent='true'/>");
    }
    assert(out@ =~= old(out)@ + audio_xml(sound, level_sound));
}

fn push_actions(out: &mut String, buttons: &[(String, String)])
    ensures
        final(out)@ == old(out)@ + actions_xml(buttons@),
{
    if buttons.len() > 0 {
        out.append("<actions>");
        let ghost before = out@;
        let mut i: usize = 0;
        while i < buttons.len()
            invariant
                i <= buttons@.len(),
                out@ == before + buttons@.take(i as int).flat_map(
                    |b: (String, String)| action_xml(b),
                ),
            decreases buttons.len() - i,
        {
            proof {
                buttons@.lemma_flat_map_take_append(|b: (String, String)| action_xml(b), i as int);
            }
            let (label, target) = &buttons[i];
            let ghost mark = out@;
            out.append("<action content='");
            out.append(xml_escape(label.as_str()).as_str());
            out.append("' activationType='protocol' arguments='");
            out.append(xml_escape(target.as_str()).as_str());
            out.append("'/>");
            assert(out@ =~= mark + action_xml(buttons@[i as int]));
            i = i + 1;
        }
        assert(buttons@.take(buttons@.len() as int) == buttons@);
        out.append("</actions>");
    }
    assert(out@ =~= old(out)@ + actions_xml(buttons@));
}

impl<'a> Toast<'a> {
    /// Render the XML payload.
    pub fn to_xml(&self) -> (res: String)
        ensures
            res@ == toast_xml(*self),
    {
        let mut out = String::new();
        out.append("<toast duration='long'");
        // Protocol activation hands the launch string to the shell, which
        // resolves it with the registered handler.
        push_activation(&mut out, self.url);
        out.append("><visual><binding template='ToastGeneric'><text>");
        out.append(xml_escape(self.title).as_str());
        out.append("</text><text>");
        out.append(xml_escape(self.message).as_str());
        out.append("</text>");
        push_image(&mut out, self.icon);
        out.append("</binding></visual>");
        push_audio(&mut out, self.sound, self.level.sound);
        push_actions(&mut out, self.buttons);
        out.append("</toast>");
        assert(out@ =~= toast_xml(*self));
        out
    }
}

// ---------------------------------------------------------------- laws

/// Escaped text holds no `<`, `>`, `"` or `'`, so it can stand in a text
/// node or in a single- or double-quoted attribute without ending it.
pub proof fn lemma_xml_escaped_has_no_markup(s: Seq<char>)
    ensures
        forall|i: int|
            0 <= i < xml_escaped(s).len() ==> {
                let c = #[trigger] xml_escaped(s)[i];
                c != '<' && c != '>' && c != '"' && c != '\''
            },
    decreases s.len(),
{
    reveal_strlit("&amp;");
    reveal_strlit("&lt;");
    reveal_strlit("&gt;");
    reveal_strlit("&quot;");
    reveal_strlit("&apos;");
    if s.len() > 0 {
        let f = |c: char| xml_escape_char(c);
        lemma_flat_map_last(s, f);
        lemma_xml_escaped_has_no_markup(s.drop_last());
        let front = xml_escaped(s.drop_last());
        let tail = xml_escape_char(s.last());
        assert forall|i: int| 0 <= i < xml_escaped(s).len() implies {
            let c = #[trigger] xml_escaped(s)[i];
            c != '<' && c != '>' && c != '"' && c != '\''
        } by {
            if i >= front.len() {
                assert(xml_escaped(s)[i] == tail[i - front.len()]);
            } else {
                assert(xml_escaped(s)[i] == front[i]);
            }
        }
    }
}

/// Reads XML text back: the five entities `&amp;`, `&lt;`, `&gt;`,
/// `&quot;` and `&apos;` become their characters, everything else stands
/// for itself.
pub open spec fn xml_unescaped(t: Seq<char>) -> Seq<char>
    decreases t.len(),
{
    if t.len() == 0 {
        Seq::empty()
    } else if t.len() >= 5 && t.take(5) == "&amp;"@ {
        seq!['&'] + xml_unescaped(t.skip(5))
    } else if t.len() >= 4 && t.take(4) == "&lt;"@ {
        seq!['<'] + xml_unescaped(t.skip(4))
    } else if t.len() >= 4 && t.take(4) == "&gt;"@ {
        seq!['>'] + xml_unescaped(t.skip(4))
    } else if t.len() >= 6 && t.take(6) == "&quot;"@ {
        seq!['"'] + xml_unescaped(t.skip(6))
    } else if t.len() >= 6 && t.take(6) == "&apos;"@ {
        seq!['\''] + xml_unescaped(t.skip(6))
    } else {
        seq![t[0]] + xml_unescaped(t.skip(1))
    }
}

/// Escaping loses nothing: reading the escaped text back gives the same
/// string.
pub proof fn lemma_xml_escape_round_trip(s: Seq<char>)
    ensures
        xml_unescaped(xml_escaped(s)) == s,
    decreases s.len(),
{
    reveal_strlit("&amp;");
    reveal_strlit("&lt;");
    reveal_strlit("&gt;");
    reveal_strlit("&quot;");
    reveal_strlit("&apos;");
    if s.len() > 0 {
        let f = |c: char| xml_escape_char(c);
        lemma_flat_map_first(s, f);
        let x = s[0];
        let rest = s.drop_first();
        lemma_xml_escape_round_trip(rest);
        let e = xml_escape_char(x);
        let t = e + xml_escaped(rest);
        assert(t.take(e.len() as int) =~= e);
        assert(t.skip(e.len() as int) =~= xml_escaped(rest));
        if x == '&' {
            assert(t.take(5) =~= "&amp;"@);
        } else if x == '<' {
            if t.len() >= 5 {
                assert(t.take(5)[1] != "&amp;"@[1]);
            }
            assert(t.take(4) =~= "&lt;"@);
        } else if x == '>' {
            if t.len() >= 5 {
                assert(t.take(5)[1] != "&amp;"@[1]);
            }
            assert(t.take(4)[1] != "&lt;"@[1]);
            assert(t.take(4) =~= "&gt;"@);
        } else if x == '"' {
            assert(t.take(5)[1] != "&amp;"@[1]);
            assert(t.take(4)[1] != "&lt;"@[1]);
            assert(t.take(4)[1] != "&gt;"@[1]);
            assert(t.take(6) =~= "&quot;"@);
        } else if x == '\'' {
            assert(t.take(5)[2] != "&amp;"@[2]);
            assert(t.take(4)[1] != "&lt;"@[1]);
            assert(t.take(4)[1] != "&gt;"@[1]);
            assert(t.take(6)[1] != "&quot;"@[1]);
            assert(t.take(6) =~= "&apos;"@);
        } else {
            assert(t[0] == x);
            if t.len() >= 5 {
                assert(t.take(5)[0] != "&amp;"@[0]);
            }
            if t.len() >= 4 {
                assert(t.take(4)[0] != "&lt;"@[0]);
                assert(t.take(4)[0] != "&gt;"@[0]);
            }
            if t.len() >= 6 {
                assert(t.take(6)[0] != "&quot;"@[0]);
                assert(t.take(6)[0] != "&apos;"@[0]);
            }
        }
        assert(seq![x] + rest =~= s);
    }
}

/// Whether `c` is a hex digit, either case.
pub open spec fn is_hex(c: char) -> bool {
    ('0' <= c <= '9') || ('A' <= c <= 'F') || ('a' <= c <= 'f')
}

/// The value of hex digit `c`.
pub open spec fn hex_value(c: char) -> int {
    if '0' <= c <= '9' {
        c as int - '0' as int
    } else if 'A' <= c <= 'F' {
        c as int - 'A' as int + 10
    } else {
        c as int - 'a' as int + 10
    }
}

/// Percent-decodes URI text into bytes: `%` and two hex digits give one
/// byte, any other character gives its own code as a byte.
pub open spec fn percent_decoded(t: Seq<char>) -> Seq<u8>
    decreases t.len(),
{
    if t.len() == 0 {
        Seq::empty()
    } else if t.len() >= 3 && t[0] == '%' && is_hex(t[1]) && is_hex(t[2]) {
        seq![(hex_value(t[1]) * 16 + hex_value(t[2])) as u8] + percent_decoded(t.skip(3))
    } else {
        seq![t[0] as u8] + percent_decoded(t.skip(1))
    }
}

/// The path's bytes with every backslash turned into a forward slash.
pub open spec fn slashed(bytes: Seq<u8>) -> Seq<u8> {
    bytes.map_values(|b: u8| if b == 0x5C { 0x2Fu8 } else { b })
}

proof fn lemma_uri_bytes_decode(bytes: Seq<u8>)
    ensures
        percent_decoded(bytes.flat_map(|b: u8| uri_byte(b))) == slashed(bytes),
    decreases bytes.len(),
{
    if bytes.len() > 0 {
        let f = |b: u8| uri_byte(b);
        lemma_flat_map_first(bytes, f);
        let b = bytes[0];
        let rest = bytes.drop_first();
        lemma_uri_bytes_decode(rest);
        let e = uri_byte(b);
        let t = e + rest.flat_map(f);
        assert(t.skip(e.len() as int) =~= rest.flat_map(f));
        if b == 0x5C {
            assert(t[0] == '/');
        } else if uri_unreserved(b) {
            assert(t[0] == b as char);
            assert((b as char) as u8 == b);
        } else {
            let hi = b / 16;
            let lo = b % 16;
            assert(t[0] == '%' && t[1] == hex_upper(hi) && t[2] == hex_upper(lo));
            assert(hex_value(hex_upper(hi)) == hi);
            assert(hex_value(hex_upper(lo)) == lo);
        }
        assert(slashed(bytes) =~= seq![if b == 0x5C { 0x2Fu8 } else { b }] + slashed(rest));
    } else {
        assert(slashed(bytes) =~= Seq::<u8>::empty());
    }
}

/// A file URI names the path it came from: after `file:///`,
/// percent-decoding gives back the path's UTF-8 bytes, with backslashes
/// turned into forward slashes.
pub proof fn lemma_file_uri_decodes(path: Seq<char>)
    ensures
        file_uri(path).take(8) == "file:///"@,
        percent_decoded(file_uri(path).skip(8)) == slashed(vstd::utf8::encode_utf8(path)),
{
    reveal_strlit("file:///");
    let tail = vstd::utf8::encode_utf8(path).flat_map(|b: u8| uri_byte(b));
    assert(file_uri(path).take(8) =~= "file:///"@);
    assert(file_uri(path).skip(8) =~= tail);
    lemma_uri_bytes_decode(vstd::utf8::encode_utf8(path));
}


/// Escaping works character by character: the escape of two texts one
/// after the other is the escape of the first followed by that of the
/// second.
pub proof fn lemma_xml_escape_concat(a: Seq<char>, b: Seq<char>)
    ensures
        xml_escaped(a + b) == xml_escaped(a) + xml_escaped(b),
    decreases b.len(),
{
    let f = |c: char| xml_escape_char(c);
    if b.len() == 0 {
        assert(a + b =~= a);
        assert(xml_escaped(b) =~= Seq::<char>::empty());
        assert(xml_escaped(a) + xml_escaped(b) =~= xml_escaped(a));
    } else {
        lemma_xml_escape_concat(a, b.drop_last());
        lemma_flat_map_last(a + b, f);
        lemma_flat_map_last(b, f);
        assert((a + b).drop_last() =~= a + b.drop_last());
        assert((a + b).last() == b.last());
        assert(xml_escaped(a) + xml_escaped(b.drop_last()) + xml_escape_char(b.last())
            =~= xml_escaped(a) + (xml_escaped(b.drop_last()) + xml_escape_char(b.last())));
    }
}

/// One of the five characters that escaping replaces.
pub open spec fn xml_special(c: char) -> bool {
    c == '&' || c == '<' || c == '>' || c == '"' || c == '\''
}

proof fn lemma_xml_escape_len(s: Seq<char>)
    ensures
        xml_escaped(s).len() >= s.len(),
        (exists|i: int| 0 <= i < s.len() && xml_special(s[i])) ==> xml_escaped(s).len()
            > s.len(),
        (forall|i: int| 0 <= i < s.len() ==> !xml_special(#[trigger] s[i])) ==> xml_escaped(s)
            == s,
    decreases s.len(),
{
    reveal_strlit("&amp;");
    reveal_strlit("&lt;");
    reveal_strlit("&gt;");
    reveal_strlit("&quot;");
    reveal_strlit("&apos;");
    if s.len() == 0 {
        assert(xml_escaped(s) =~= Seq::<char>::empty());
    } else {
        let f = |c: char| xml_escape_char(c);
        lemma_flat_map_first(s, f);
        let rest = s.drop_first();
        lemma_xml_escape_len(rest);
        if exists|i: int| 0 <= i < s.len() && xml_special(s[i]) {
            let i = choose|i: int| 0 <= i < s.len() && xml_special(s[i]);
            if i > 0 {
                assert(rest[i - 1] == s[i]);
            }
        }
        if forall|i: int| 0 <= i < s.len() ==> !xml_special(#[trigger] s[i]) {
            assert(!xml_special(s[0]));
            assert forall|i: int| 0 <= i < rest.len() implies !xml_special(#[trigger] rest[i]) by {
                assert(rest[i] == s[i + 1]);
            }
            assert(seq![s[0]] + rest =~= s);
        }
    }
}

/// Escaping leaves a text unchanged exactly when it holds none of `&`,
/// `<`, `>`, `"` and `'`.
pub proof fn lemma_xml_escape_identity(s: Seq<char>)
    ensures
        (forall|i: int| 0 <= i < s.len() ==> !xml_special(#[trigger] s[i])) <==> xml_escaped(s)
            == s,
{
    lemma_xml_escape_len(s);
}

/// A character a file URI carries as itself.
pub open spec fn uri_char(c: char) -> bool {
    ('A' <= c <= 'Z') || ('a' <= c <= 'z') || ('0' <= c <= '9') || c == '-' || c == '.' || c
        == '_' || c == '~' || c == '/' || c == ':'
}

/// An upper-case hexadecimal digit.
pub open spec fn upper_hex_digit(c: char) -> bool {
    ('0' <= c <= '9') || ('A' <= c <= 'F')
}

/// Text made only of URI characters and `%XX` escapes with upper-case
/// hexadecimal digits.
pub open spec fn uri_clean(t: Seq<char>) -> bool
    decreases t.len(),
{
    if t.len() == 0 {
        true
    } else if uri_char(t[0]) {
        uri_clean(t.drop_first())
    } else if t[0] == '%' && t.len() >= 3 && upper_hex_digit(t[1]) && upper_hex_digit(t[2]) {
        uri_clean(t.skip(3))
    } else {
        false
    }
}

proof fn lemma_uri_bytes_clean(bytes: Seq<u8>)
    ensures
        uri_clean(bytes.flat_map(|b: u8| uri_byte(b))),
    decreases bytes.len(),
{
    let f = |b: u8| uri_byte(b);
    if bytes.len() == 0 {
        assert(bytes.flat_map(f) =~= Seq::<char>::empty());
    } else {
        lemma_flat_map_first(bytes, f);
        lemma_uri_bytes_clean(bytes.drop_first());
        let b = bytes[0];
        let h = uri_byte(b);
        let rest = bytes.drop_first().flat_map(f);
        let t = h + rest;
        if h.len() == 1 {
            assert(t.drop_first() =~= rest);
            assert(uri_char(h[0]));
        } else {
            assert(h.len() == 3);
            assert(t.skip(3) =~= rest);
            assert(upper_hex_digit(hex_upper(b / 16)));
            assert(upper_hex_digit(hex_upper(b % 16)));
        }
    }
}

/// A file URI is `file:///` followed only by unreserved characters and
/// upper-case `%XX` escapes: no backslash, space or quote is left in it.
pub proof fn lemma_file_uri_is_clean(path: Seq<char>)
    ensures
        file_uri(path).take(8) == "file:///"@,
        uri_clean(file_uri(path).skip(8)),
{
    reveal_strlit("file:///");
    let tail = vstd::utf8::encode_utf8(path).flat_map(|b: u8| uri_byte(b));
    assert(file_uri(path).take(8) =~= "file:///"@);
    assert(file_uri(path).skip(8) =~= tail);
    lemma_uri_bytes_clean(vstd::utf8::encode_utf8(path));
}


/// How many of the first `n` characters of `s` are `c`.
pub open spec fn count_upto(s: Seq<char>, c: char, n: int) -> nat
    decreases n,
{
    if n <= 0 {
        0
    } else {
        count_upto(s, c, n - 1) + (if s[n - 1] == c {
            1nat
        } else {
            0nat
        })
    }
}

/// How many characters of `s` are `c`.
pub open spec fn count_char(s: Seq<char>, c: char) -> nat {
    count_upto(s, c, s.len() as int)
}

proof fn lemma_count_prefix(a: Seq<char>, b: Seq<char>, c: char, n: int)
    requires
        0 <= n <= a.len(),
    ensures
        count_upto(a + b, c, n) == count_upto(a, c, n),
    decreases n,
{
    if n > 0 {
        lemma_count_prefix(a, b, c, n - 1);
        assert((a + b)[n - 1] == a[n - 1]);
    }
}

proof fn lemma_count_suffix(a: Seq<char>, b: Seq<char>, c: char, n: int)
    requires
        0 <= n <= b.len(),
    ensures
        count_upto(a + b, c, a.len() + n) == count_char(a, c) + count_upto(b, c, n),
    decreases n,
{
    if n > 0 {
        lemma_count_suffix(a, b, c, n - 1);
        assert((a + b)[a.len() + n - 1] == b[n - 1]);
    } else {
        lemma_count_prefix(a, b, c, a.len() as int);
    }
}

/// Counting a character over two texts one after the other adds up.
proof fn lemma_count_concat(a: Seq<char>, b: Seq<char>, c: char)
    ensures
        count_char(a + b, c) == count_char(a, c) + count_char(b, c),
{
    lemma_count_suffix(a, b, c, b.len() as int);
}

proof fn lemma_count_none(s: Seq<char>, c: char, n: int)
    requires
        0 <= n <= s.len(),
        forall|i: int| 0 <= i < s.len() ==> #[trigger] s[i] != c,
    ensures
        count_upto(s, c, n) == 0,
    decreases n,
{
    if n > 0 {
        lemma_count_none(s, c, n - 1);
    }
}

proof fn lemma_escaped_has_no_tag(s: Seq<char>)
    ensures
        count_char(xml_escaped(s), '<') == 0,
{
    lemma_xml_escaped_has_no_markup(s);
    let e = xml_escaped(s);
    assert forall|i: int| 0 <= i < e.len() implies #[trigger] e[i] != '<' by {
        let c = e[i];
    }
    lemma_count_none(e, '<', e.len() as int);
}

proof fn lemma_action_tags(bs: Seq<(String, String)>)
    ensures
        count_char(bs.flat_map(|b: (String, String)| action_xml(b)), '<') == bs.len(),
    decreases bs.len(),
{
    let f = |b: (String, String)| action_xml(b);
    if bs.len() == 0 {
        assert(bs.flat_map(f) =~= Seq::<char>::empty());
    } else {
        lemma_action_tags(bs.drop_last());
        lemma_flat_map_last(bs, f);
        let b = bs.last();
        lemma_count_concat(bs.drop_last().flat_map(f), action_xml(b), '<');
        reveal_strlit("<action content='");
        reveal_strlit("' activationType='protocol' arguments='");
        reveal_strlit("'/>");
        reveal_with_fuel(count_upto, 45);
        let p1 = "<action content='"@;
        let p2 = "' activationType='protocol' arguments='"@;
        let p3 = "'/>"@;
        assert(count_char(p1, '<') == 1);
        assert(count_char(p2, '<') == 0);
        assert(count_char(p3, '<') == 0);
        lemma_escaped_has_no_tag(b.0@);
        lemma_escaped_has_no_tag(b.1@);
        lemma_count_concat(p1, xml_escaped(b.0@), '<');
        lemma_count_concat(p1 + xml_escaped(b.0@), p2, '<');
        lemma_count_concat(p1 + xml_escaped(b.0@) + p2, xml_escaped(b.1@), '<');
        lemma_count_concat(p1 + xml_escaped(b.0@) + p2 + xml_escaped(b.1@), p3, '<');
    }
}

proof fn lemma_activation_tags(url: Option<&str>)
    ensures
        count_char(activation_xml(url), '<') == 0,
{
    match url {
        Some(u) => {
            reveal_strlit(" activationType='protocol' launch='");
            reveal_strlit("'");
            reveal_with_fuel(count_upto, 40);
            let p1 = " activationType='protocol' launch='"@;
            assert(count_char(p1, '<') == 0);
            assert(count_char("'"@, '<') == 0);
            lemma_escaped_has_no_tag(u@);
            lemma_count_concat(p1, xml_escaped(u@), '<');
            lemma_count_concat(p1 + xml_escaped(u@), "'"@, '<');
        },
        None => {
            assert(count_char(Seq::<char>::empty(), '<') == 0);
        },
    }
}

proof fn lemma_image_tags(icon: Option<&str>)
    ensures
        count_char(image_xml(icon), '<') == (if icon is Some {
            1nat
        } else {
            0nat
        }),
{
    match icon {
        Some(p) => {
            reveal_strlit("<image placement='appLogoOverride' src='");
            reveal_strlit("'/>");
            reveal_with_fuel(count_upto, 45);
            let p1 = "<image placement='appLogoOverride' src='"@;
            let p2 = "'/>"@;
            assert(count_char(p1, '<') == 1);
            assert(count_char(p2, '<') == 0);
            lemma_escaped_has_no_tag(file_uri(p@));
            lemma_count_concat(p1, xml_escaped(file_uri(p@)), '<');
            lemma_count_concat(p1 + xml_escaped(file_uri(p@)), p2, '<');
        },
        None => {
            assert(count_char(Seq::<char>::empty(), '<') == 0);
        },
    }
}

proof fn lemma_audio_tags(sound: bool, level_sound: &str)
    ensures
        count_char(audio_xml(sound, level_sound), '<') == 1,
{
    reveal_strlit("<audio src='");
    reveal_strlit("'/>");
    reveal_strlit("<audio silent='true'/>");
    reveal_with_fuel(count_upto, 25);
    if sound {
        let p1 = "<audio src='"@;
        let p2 = "'/>"@;
        assert(count_char(p1, '<') == 1);
        assert(count_char(p2, '<') == 0);
        lemma_escaped_has_no_tag(level_sound@);
        lemma_count_concat(p1, xml_escaped(level_sound@), '<');
        lemma_count_concat(p1 + xml_escaped(level_sound@), p2, '<');
    } else {
        assert(count_char("<audio silent='true'/>"@, '<') == 1);
    }
}

proof fn lemma_actions_tags(bs: Seq<(String, String)>)
    ensures
        count_char(actions_xml(bs), '<') == (if bs.len() > 0 {
            2 + bs.len()
        } else {
            0
        }),
{
    if bs.len() > 0 {
        reveal_strlit("<actions>");
        reveal_strlit("</actions>");
        reveal_with_fuel(count_upto, 12);
        let p1 = "<actions>"@;
        let p2 = "</actions>"@;
        let items = bs.flat_map(|b: (String, String)| action_xml(b));
        assert(count_char(p1, '<') == 1);
        assert(count_char(p2, '<') == 1);
        lemma_action_tags(bs);
        lemma_count_concat(p1, items, '<');
        lemma_count_concat(p1 + items, p2, '<');
    } else {
        assert(count_char(Seq::<char>::empty(), '<') == 0);
    }
}

proof fn lemma_toast_literal_tags()
    ensures
        count_char("<toast duration='long'"@, '<') == 1,
        count_char("><visual><binding template='ToastGeneric'><text>"@, '<') == 3,
        count_char("</text><text>"@, '<') == 2,
        count_char("</text>"@, '<') == 1,
        count_char("</binding></visual>"@, '<') == 2,
        count_char("</toast>"@, '<') == 1,
{
    reveal_strlit("<toast duration='long'");
    reveal_strlit("><visual><binding template='ToastGeneric'><text>");
    reveal_strlit("</text><text>");
    reveal_strlit("</text>");
    reveal_strlit("</binding></visual>");
    reveal_strlit("</toast>");
    reveal_with_fuel(count_upto, 50);
}

/// Only the payload's own markup opens or closes elements: it holds exactly
/// 11 `<` (toast, visual, binding, the two texts, audio and the closing
/// tags), plus one for the image and, when there are buttons, one per button
/// and two for the actions element. No title, message, URL, path, sound or
/// button text adds one.
pub proof fn lemma_toast_xml_tags(t: Toast)
    ensures
        count_char(toast_xml(t), '<') == 11 + (if t.icon is Some {
            1int
        } else {
            0int
        }) + (if t.buttons@.len() > 0 {
            2 + t.buttons@.len()
        } else {
            0
        }),
{
    let l1 = "<toast duration='long'"@;
    let l2 = "><visual><binding template='ToastGeneric'><text>"@;
    let l3 = "</text><text>"@;
    let l4 = "</text>"@;
    let l5 = "</binding></visual>"@;
    let l6 = "</toast>"@;
    lemma_toast_literal_tags();
    let act = activation_xml(t.url);
    let et = xml_escaped(t.title@);
    let em = xml_escaped(t.message@);
    let img = image_xml(t.icon);
    let aud = audio_xml(t.sound, t.level.sound);
    let acts = actions_xml(t.buttons@);
    lemma_activation_tags(t.url);
    lemma_escaped_has_no_tag(t.title@);
    lemma_escaped_has_no_tag(t.message@);
    lemma_image_tags(t.icon);
    lemma_audio_tags(t.sound, t.level.sound);
    lemma_actions_tags(t.buttons@);
    let x1 = l1 + act;
    let x2 = x1 + l2;
    let x3 = x2 + et;
    let x4 = x3 + l3;
    let x5 = x4 + em;
    let x6 = x5 + l4;
    let x7 = x6 + img;
    let x8 = x7 + l5;
    let x9 = x8 + aud;
    let x10 = x9 + acts;
    lemma_count_concat(l1, act, '<');
    lemma_count_concat(x1, l2, '<');
    lemma_count_concat(x2, et, '<');
    lemma_count_concat(x3, l3, '<');
    lemma_count_concat(x4, em, '<');
    lemma_count_concat(x5, l4, '<');
    lemma_count_concat(x6, img, '<');
    lemma_count_concat(x7, l5, '<');
    lemma_count_concat(x8, aud, '<');
    lemma_count_concat(x9, acts, '<');
    lemma_count_concat(x10, l6, '<');
    let ni: int = if t.icon is Some { 1 } else { 0 };
    let nb: int = if t.buttons@.len() > 0 { 2 + t.buttons@.len() as int } else { 0 };
    assert(count_char(x1, '<') == 1);
    assert(count_char(x2, '<') == 4);
    assert(count_char(x3, '<') == 4);
    assert(count_char(x4, '<') == 6);
    assert(count_char(x5, '<') == 6);
    assert(count_char(x6, '<') == 7);
    assert(count_char(x7, '<') == 7 + ni);
    assert(count_char(x8, '<') == 9 + ni);
    assert(count_char(x9, '<') == 10 + ni);
    assert(count_char(x10, '<') == 10 + ni + nb);
    assert(count_char(x10 + l6, '<') == 11 + ni + nb);
    assert(toast_xml(t) == x10 + l6);
}

} // verus!
