//! What a toast payload is made of, counted: the tags `to_xml` writes come
//! in a fixed number and order, whatever the user text in them.

use vstd::prelude::*;

use crate::stored::occurs_at;
use crate::text::lemma_flat_map_last;
use crate::toast::{
    action_xml, actions_xml, activation_xml, audio_xml, count_char, count_upto, image_xml,
    lemma_xml_escaped_has_no_markup, toast_xml, xml_escaped, Toast,
};

verus! {

/// How many times `pat` occurs in `s` starting before position `n`.
pub open spec fn count_pat_upto(s: Seq<char>, pat: Seq<char>, n: int) -> nat
    decreases n,
{
    if n <= 0 {
        0
    } else {
        count_pat_upto(s, pat, n - 1) + (if occurs_at(s, pat, n - 1) {
            1nat
        } else {
            0nat
        })
    }
}

/// How many times `pat` occurs in `s`.
pub open spec fn count_pat(s: Seq<char>, pat: Seq<char>) -> nat {
    count_pat_upto(s, pat, s.len() as int)
}

/// The start of one of the elements a toast payload has: `<text>`,
/// `<toast `, `<audio `, `<visual>`, `<actions>` or `<action `.
pub open spec fn is_tag_pat(pat: Seq<char>) -> bool {
    pat == "<text>"@ || pat == "<toast "@ || pat == "<audio "@ || pat == "<visual>"@ || pat
        == "<actions>"@ || pat == "<action "@
}

/// A pattern that starts with `<` and has no `<` or `>` before its last
/// character, at most 9 characters long.
spec fn tag_shaped(pat: Seq<char>) -> bool {
    &&& 2 <= pat.len() <= 9
    &&& pat[0] == '<'
    &&& forall|k: int| 1 <= k < pat.len() - 1 ==> #[trigger] pat[k] != '>' && pat[k] != '<'
}

/// `a` does not end inside a tag: every `<` among its last 8 characters is
/// followed in `a` by a `>`.
pub open spec fn closed_tail(a: Seq<char>) -> bool {
    forall|i: int|
        0 <= i && a.len() - 9 < i < a.len() && #[trigger] a[i] == '<' ==> exists|j: int|
            i < j < a.len() && #[trigger] a[j] == '>'
}

proof fn lemma_pats()
    ensures
        tag_shaped("<text>"@),
        tag_shaped("<toast "@),
        tag_shaped("<audio "@),
        tag_shaped("<visual>"@),
        tag_shaped("<actions>"@),
        tag_shaped("<action "@),
        "<text>"@ != "<toast "@ && "<text>"@ != "<audio "@ && "<text>"@ != "<visual>"@
            && "<text>"@ != "<actions>"@ && "<text>"@ != "<action "@,
        "<toast "@ != "<audio "@ && "<toast "@ != "<visual>"@ && "<toast "@ != "<actions>"@
            && "<toast "@ != "<action "@,
        "<audio "@ != "<visual>"@ && "<audio "@ != "<actions>"@ && "<audio "@ != "<action "@,
        "<visual>"@ != "<actions>"@ && "<visual>"@ != "<action "@,
        "<actions>"@ != "<action "@,
{
    reveal_strlit("<text>");
    reveal_strlit("<toast ");
    reveal_strlit("<audio ");
    reveal_strlit("<visual>");
    reveal_strlit("<actions>");
    reveal_strlit("<action ");
    assert("<text>"@[2] != "<toast "@[2]);
    assert("<toast "@[1] != "<audio "@[1]);
    assert("<audio "@[2] != "<actions>"@[2]);
    assert("<audio "@[2] != "<action "@[2]);
    assert("<visual>"@[1] != "<action "@[1]);
    assert("<actions>"@[7] != "<action "@[7]);
    assert("<text>"@[1] != "<audio "@[1]);
    assert("<text>"@[1] != "<action "@[1]);
}

proof fn lemma_count_pat_prefix(a: Seq<char>, b: Seq<char>, pat: Seq<char>, n: int)
    requires
        tag_shaped(pat),
        closed_tail(a),
        0 <= n <= a.len(),
    ensures
        count_pat_upto(a + b, pat, n) == count_pat_upto(a, pat, n),
    decreases n,
{
    if n > 0 {
        lemma_count_pat_prefix(a, b, pat, n - 1);
        let i = n - 1;
        let l = pat.len() as int;
        if i + l <= a.len() {
            assert((a + b).subrange(i, i + l) =~= a.subrange(i, i + l));
        } else if occurs_at(a + b, pat, i) {
            assert((a + b).subrange(i, i + l)[0] == pat[0]);
            assert(a[i] == '<');
            let j = choose|j: int| i < j < a.len() && #[trigger] a[j] == '>';
            assert((a + b).subrange(i, i + l)[j - i] == pat[j - i]);
            assert(pat[j - i] != '>');
        }
    }
}

proof fn lemma_count_pat_suffix(a: Seq<char>, b: Seq<char>, pat: Seq<char>, m: int)
    requires
        tag_shaped(pat),
        closed_tail(a),
        0 <= m <= b.len(),
    ensures
        count_pat_upto(a + b, pat, a.len() + m) == count_pat(a, pat) + count_pat_upto(
            b,
            pat,
            m,
        ),
    decreases m,
{
    if m > 0 {
        lemma_count_pat_suffix(a, b, pat, m - 1);
        let i = a.len() + m - 1;
        let l = pat.len() as int;
        if i + l <= a.len() + b.len() {
            assert((a + b).subrange(i, i + l) =~= b.subrange(m - 1, m - 1 + l));
        }
    } else {
        lemma_count_pat_prefix(a, b, pat, a.len() as int);
    }
}

/// Counting an element's start over two texts, the first of which does not
/// end inside a tag, adds up.
proof fn lemma_count_pat_concat(a: Seq<char>, b: Seq<char>, pat: Seq<char>)
    requires
        tag_shaped(pat),
        closed_tail(a),
    ensures
        count_pat(a + b, pat) == count_pat(a, pat) + count_pat(b, pat),
        closed_tail(b) ==> closed_tail(a + b),
{
    lemma_count_pat_suffix(a, b, pat, b.len() as int);
    if closed_tail(b) {
        lemma_closed_concat(a, b);
    }
}

/// Two texts that do not end inside a tag, one after the other, do not
/// either.
proof fn lemma_closed_concat(a: Seq<char>, b: Seq<char>)
    requires
        closed_tail(a),
        closed_tail(b),
    ensures
        closed_tail(a + b),
{
    let z = a + b;
    assert forall|i: int| 0 <= i && z.len() - 9 < i < z.len() && #[trigger] z[i] == '<' implies exists|
        j: int,
    | i < j < z.len() && #[trigger] z[j] == '>' by {
        if i >= a.len() {
            assert(b[i - a.len()] == '<');
            let j = choose|j: int| i - a.len() < j < b.len() && #[trigger] b[j] == '>';
            assert(z[j + a.len()] == '>');
        } else {
            assert(a[i] == '<');
            let j = choose|j: int| i < j < a.len() && #[trigger] a[j] == '>';
            assert(z[j] == '>');
        }
    }
}

proof fn lemma_count_upto_mono(a: Seq<char>, c: char, m: int, n: int)
    requires
        0 <= m <= n,
    ensures
        count_upto(a, c, m) <= count_upto(a, c, n),
    decreases n - m,
{
    if m < n {
        lemma_count_upto_mono(a, c, m, n - 1);
    }
}

/// A text with no `<` has no element start and does not end inside a tag.
proof fn lemma_no_lt(a: Seq<char>, pat: Seq<char>)
    requires
        tag_shaped(pat),
        count_char(a, '<') == 0,
    ensures
        count_pat(a, pat) == 0,
        closed_tail(a),
        forall|i: int| 0 <= i < a.len() ==> #[trigger] a[i] != '<',
{
    assert forall|i: int| 0 <= i < a.len() implies #[trigger] a[i] != '<' by {
        lemma_count_upto_mono(a, '<', i + 1, a.len() as int);
    }
    lemma_no_start(a, pat, a.len() as int);
    lemma_closed_if_no_lt(a);
}

proof fn lemma_closed_if_no_lt(a: Seq<char>)
    requires
        forall|i: int| 0 <= i < a.len() ==> #[trigger] a[i] != '<',
    ensures
        closed_tail(a),
{
    assert forall|i: int| 0 <= i && a.len() - 9 < i < a.len() && #[trigger] a[i] == '<' implies exists|
        j: int,
    | i < j < a.len() && #[trigger] a[j] == '>' by {
        assert(a[i] != '<');
    }
}

proof fn lemma_no_start(a: Seq<char>, pat: Seq<char>, n: int)
    requires
        tag_shaped(pat),
        0 <= n <= a.len(),
        forall|i: int| 0 <= i < a.len() ==> #[trigger] a[i] != '<',
    ensures
        count_pat_upto(a, pat, n) == 0,
    decreases n,
{
    if n > 0 {
        lemma_no_start(a, pat, n - 1);
        if occurs_at(a, pat, n - 1) {
            assert(a.subrange(n - 1, n - 1 + pat.len())[0] == pat[0]);
        }
    }
}

/// A text ending in `>` does not end inside a tag.
proof fn lemma_gt_end(a: Seq<char>)
    requires
        a.len() > 0,
        a.last() == '>',
    ensures
        closed_tail(a),
{
    assert forall|i: int| 0 <= i && a.len() - 9 < i < a.len() && #[trigger] a[i] == '<' implies exists|
        j: int,
    | i < j < a.len() && #[trigger] a[j] == '>' by {
        assert(a[a.len() - 1] == '>');
    }
}

/// A text whose one `<` is its first character has one element start, at
/// 0, if the pattern is there; when it is long, it does not end inside a
/// tag.
proof fn lemma_one_tag(a: Seq<char>, pat: Seq<char>)
    requires
        tag_shaped(pat),
        a.len() > 0,
        a[0] == '<',
        count_char(a, '<') == 1,
    ensures
        count_pat(a, pat) == (if occurs_at(a, pat, 0) {
            1nat
        } else {
            0nat
        }),
        a.len() >= 9 ==> closed_tail(a),
        forall|i: int| 1 <= i < a.len() ==> #[trigger] a[i] != '<',
{
    assert forall|i: int| 1 <= i < a.len() implies #[trigger] a[i] != '<' by {
        lemma_count_upto_mono(a, '<', 1, i);
        lemma_count_upto_mono(a, '<', i + 1, a.len() as int);
    }
    lemma_later_no_start(a, pat, a.len() as int);
}

proof fn lemma_later_no_start(a: Seq<char>, pat: Seq<char>, n: int)
    requires
        tag_shaped(pat),
        1 <= n <= a.len(),
        forall|i: int| 1 <= i < a.len() ==> #[trigger] a[i] != '<',
    ensures
        count_pat_upto(a, pat, n) == (if occurs_at(a, pat, 0) {
            1nat
        } else {
            0nat
        }),
    decreases n,
{
    if n > 1 {
        lemma_later_no_start(a, pat, n - 1);
        if occurs_at(a, pat, n - 1) {
            assert(a.subrange(n - 1, n - 1 + pat.len())[0] == pat[0]);
        }
    } else {
        assert(count_pat_upto(a, pat, 0) == 0);
    }
}

/// `pat` is not at the start of `a`: they differ at `k`.
proof fn lemma_differs(a: Seq<char>, pat: Seq<char>, k: int)
    requires
        0 <= k < pat.len(),
        k < a.len() ==> a[k] != pat[k],
    ensures
        !occurs_at(a, pat, 0),
{
    if occurs_at(a, pat, 0) {
        assert(a.subrange(0, pat.len() as int)[k] == pat[k]);
    }
}

/// The element starts in "<toast duration='long'".
proof fn lemma_lit_toast_open(pat: Seq<char>)
    requires
        is_tag_pat(pat),
    ensures
        count_pat("<toast duration='long'"@, pat) == (if pat == "<toast "@ { 1nat } else { 0nat }),
        closed_tail("<toast duration='long'"@),
{
    reveal_strlit("<toast duration='long'");
    lemma_pats();
    let a = "<toast duration='long'"@;
    assert(count_char(a, '<') == 1) by {
        reveal_with_fuel(count_upto, 24);
    }
    lemma_one_tag(a, pat);
    if pat == "<text>"@ {
        reveal_strlit("<text>");
        lemma_differs(a, "<text>"@, 2);
    }
    if pat == "<toast "@ {
        reveal_strlit("<toast ");
        assert(a.subrange(0, 7) =~= "<toast "@);
    }
    if pat == "<audio "@ {
        reveal_strlit("<audio ");
        lemma_differs(a, "<audio "@, 1);
    }
    if pat == "<visual>"@ {
        reveal_strlit("<visual>");
        lemma_differs(a, "<visual>"@, 1);
    }
    if pat == "<actions>"@ {
        reveal_strlit("<actions>");
        lemma_differs(a, "<actions>"@, 1);
    }
    if pat == "<action "@ {
        reveal_strlit("<action ");
        lemma_differs(a, "<action "@, 1);
    }
}

/// The element starts in "<visual>".
proof fn lemma_lit_visual_open(pat: Seq<char>)
    requires
        is_tag_pat(pat),
    ensures
        count_pat("<visual>"@, pat) == (if pat == "<visual>"@ { 1nat } else { 0nat }),
        closed_tail("<visual>"@),
{
    reveal_strlit("<visual>");
    lemma_pats();
    let a = "<visual>"@;
    assert(count_char(a, '<') == 1) by {
        reveal_with_fuel(count_upto, 10);
    }
    lemma_one_tag(a, pat);
    lemma_gt_end(a);
    if pat == "<text>"@ {
        reveal_strlit("<text>");
        lemma_differs(a, "<text>"@, 1);
    }
    if pat == "<toast "@ {
        reveal_strlit("<toast ");
        lemma_differs(a, "<toast "@, 1);
    }
    if pat == "<audio "@ {
        reveal_strlit("<audio ");
        lemma_differs(a, "<audio "@, 1);
    }
    if pat == "<visual>"@ {
        reveal_strlit("<visual>");
        assert(a.subrange(0, 8) =~= "<visual>"@);
    }
    if pat == "<actions>"@ {
        reveal_strlit("<actions>");
        lemma_differs(a, "<actions>"@, 1);
    }
    if pat == "<action "@ {
        reveal_strlit("<action ");
        lemma_differs(a, "<action "@, 1);
    }
}

/// The element starts in "<binding template='ToastGeneric'>".
proof fn lemma_lit_binding_open(pat: Seq<char>)
    requires
        is_tag_pat(pat),
    ensures
        count_pat("<binding template='ToastGeneric'>"@, pat) == 0nat,
        closed_tail("<binding template='ToastGeneric'>"@),
{
    reveal_strlit("<binding template='ToastGeneric'>");
    lemma_pats();
    let a = "<binding template='ToastGeneric'>"@;
    assert(count_char(a, '<') == 1) by {
        reveal_with_fuel(count_upto, 35);
    }
    lemma_one_tag(a, pat);
    lemma_gt_end(a);
    if pat == "<text>"@ {
        reveal_strlit("<text>");
        lemma_differs(a, "<text>"@, 1);
    }
    if pat == "<toast "@ {
        reveal_strlit("<toast ");
        lemma_differs(a, "<toast "@, 1);
    }
    if pat == "<audio "@ {
        reveal_strlit("<audio ");
        lemma_differs(a, "<audio "@, 1);
    }
    if pat == "<visual>"@ {
        reveal_strlit("<visual>");
        lemma_differs(a, "<visual>"@, 1);
    }
    if pat == "<actions>"@ {
        reveal_strlit("<actions>");
        lemma_differs(a, "<actions>"@, 1);
    }
    if pat == "<action "@ {
        reveal_strlit("<action ");
        lemma_differs(a, "<action "@, 1);
    }
}

/// The element starts in "<text>".
proof fn lemma_lit_text_open(pat: Seq<char>)
    requires
        is_tag_pat(pat),
    ensures
        count_pat("<text>"@, pat) == (if pat == "<text>"@ { 1nat } else { 0nat }),
        closed_tail("<text>"@),
{
    reveal_strlit("<text>");
    lemma_pats();
    let a = "<text>"@;
    assert(count_char(a, '<') == 1) by {
        reveal_with_fuel(count_upto, 8);
    }
    lemma_one_tag(a, pat);
    lemma_gt_end(a);
    if pat == "<text>"@ {
        reveal_strlit("<text>");
        assert(a.subrange(0, 6) =~= "<text>"@);
    }
    if pat == "<toast "@ {
        reveal_strlit("<toast ");
        lemma_differs(a, "<toast "@, 2);
    }
    if pat == "<audio "@ {
        reveal_strlit("<audio ");
        lemma_differs(a, "<audio "@, 1);
    }
    if pat == "<visual>"@ {
        reveal_strlit("<visual>");
        lemma_differs(a, "<visual>"@, 1);
    }
    if pat == "<actions>"@ {
        reveal_strlit("<actions>");
        lemma_differs(a, "<actions>"@, 1);
    }
    if pat == "<action "@ {
        reveal_strlit("<action ");
        lemma_differs(a, "<action "@, 1);
    }
}

/// The element starts in "</text>".
proof fn lemma_lit_text_close(pat: Seq<char>)
    requires
        is_tag_pat(pat),
    ensures
        count_pat("</text>"@, pat) == 0nat,
        closed_tail("</text>"@),
{
    reveal_strlit("</text>");
    lemma_pats();
    let a = "</text>"@;
    assert(count_char(a, '<') == 1) by {
        reveal_with_fuel(count_upto, 9);
    }
    lemma_one_tag(a, pat);
    lemma_gt_end(a);
    if pat == "<text>"@ {
        reveal_strlit("<text>");
        lemma_differs(a, "<text>"@, 1);
    }
    if pat == "<toast "@ {
        reveal_strlit("<toast ");
        lemma_differs(a, "<toast "@, 1);
    }
    if pat == "<audio "@ {
        reveal_strlit("<audio ");
        lemma_differs(a, "<audio "@, 1);
    }
    if pat == "<visual>"@ {
        reveal_strlit("<visual>");
        lemma_differs(a, "<visual>"@, 1);
    }
    if pat == "<actions>"@ {
        reveal_strlit("<actions>");
        lemma_differs(a, "<actions>"@, 1);
    }
    if pat == "<action "@ {
        reveal_strlit("<action ");
        lemma_differs(a, "<action "@, 1);
    }
}

/// The element starts in "<image placement='appLogoOverride' src='".
proof fn lemma_lit_image_open(pat: Seq<char>)
    requires
        is_tag_pat(pat),
    ensures
        count_pat("<image placement='appLogoOverride' src='"@, pat) == 0nat,
        closed_tail("<image placement='appLogoOverride' src='"@),
{
    reveal_strlit("<image placement='appLogoOverride' src='");
    lemma_pats();
    let a = "<image placement='appLogoOverride' src='"@;
    assert(count_char(a, '<') == 1) by {
        reveal_with_fuel(count_upto, 42);
    }
    lemma_one_tag(a, pat);
    if pat == "<text>"@ {
        reveal_strlit("<text>");
        lemma_differs(a, "<text>"@, 1);
    }
    if pat == "<toast "@ {
        reveal_strlit("<toast ");
        lemma_differs(a, "<toast "@, 1);
    }
    if pat == "<audio "@ {
        reveal_strlit("<audio ");
        lemma_differs(a, "<audio "@, 1);
    }
    if pat == "<visual>"@ {
        reveal_strlit("<visual>");
        lemma_differs(a, "<visual>"@, 1);
    }
    if pat == "<actions>"@ {
        reveal_strlit("<actions>");
        lemma_differs(a, "<actions>"@, 1);
    }
    if pat == "<action "@ {
        reveal_strlit("<action ");
        lemma_differs(a, "<action "@, 1);
    }
}

/// The element starts in "</binding>".
proof fn lemma_lit_binding_close(pat: Seq<char>)
    requires
        is_tag_pat(pat),
    ensures
        count_pat("</binding>"@, pat) == 0nat,
        closed_tail("</binding>"@),
{
    reveal_strlit("</binding>");
    lemma_pats();
    let a = "</binding>"@;
    assert(count_char(a, '<') == 1) by {
        reveal_with_fuel(count_upto, 12);
    }
    lemma_one_tag(a, pat);
    lemma_gt_end(a);
    if pat == "<text>"@ {
        reveal_strlit("<text>");
        lemma_differs(a, "<text>"@, 1);
    }
    if pat == "<toast "@ {
        reveal_strlit("<toast ");
        lemma_differs(a, "<toast "@, 1);
    }
    if pat == "<audio "@ {
        reveal_strlit("<audio ");
        lemma_differs(a, "<audio "@, 1);
    }
    if pat == "<visual>"@ {
        reveal_strlit("<visual>");
        lemma_differs(a, "<visual>"@, 1);
    }
    if pat == "<actions>"@ {
        reveal_strlit("<actions>");
        lemma_differs(a, "<actions>"@, 1);
    }
    if pat == "<action "@ {
        reveal_strlit("<action ");
        lemma_differs(a, "<action "@, 1);
    }
}

/// The element starts in "</visual>".
proof fn lemma_lit_visual_close(pat: Seq<char>)
    requires
        is_tag_pat(pat),
    ensures
        count_pat("</visual>"@, pat) == 0nat,
        closed_tail("</visual>"@),
{
    reveal_strlit("</visual>");
    lemma_pats();
    let a = "</visual>"@;
    assert(count_char(a, '<') == 1) by {
        reveal_with_fuel(count_upto, 11);
    }
    lemma_one_tag(a, pat);
    lemma_gt_end(a);
    if pat == "<text>"@ {
        reveal_strlit("<text>");
        lemma_differs(a, "<text>"@, 1);
    }
    if pat == "<toast "@ {
        reveal_strlit("<toast ");
        lemma_differs(a, "<toast "@, 1);
    }
    if pat == "<audio "@ {
        reveal_strlit("<audio ");
        lemma_differs(a, "<audio "@, 1);
    }
    if pat == "<visual>"@ {
        reveal_strlit("<visual>");
        lemma_differs(a, "<visual>"@, 1);
    }
    if pat == "<actions>"@ {
        reveal_strlit("<actions>");
        lemma_differs(a, "<actions>"@, 1);
    }
    if pat == "<action "@ {
        reveal_strlit("<action ");
        lemma_differs(a, "<action "@, 1);
    }
}

/// The element starts in "<audio src='".
proof fn lemma_lit_audio_open(pat: Seq<char>)
    requires
        is_tag_pat(pat),
    ensures
        count_pat("<audio src='"@, pat) == (if pat == "<audio "@ { 1nat } else { 0nat }),
        closed_tail("<audio src='"@),
{
    reveal_strlit("<audio src='");
    lemma_pats();
    let a = "<audio src='"@;
    assert(count_char(a, '<') == 1) by {
        reveal_with_fuel(count_upto, 14);
    }
    lemma_one_tag(a, pat);
    if pat == "<text>"@ {
        reveal_strlit("<text>");
        lemma_differs(a, "<text>"@, 1);
    }
    if pat == "<toast "@ {
        reveal_strlit("<toast ");
        lemma_differs(a, "<toast "@, 1);
    }
    if pat == "<audio "@ {
        reveal_strlit("<audio ");
        assert(a.subrange(0, 7) =~= "<audio "@);
    }
    if pat == "<visual>"@ {
        reveal_strlit("<visual>");
        lemma_differs(a, "<visual>"@, 1);
    }
    if pat == "<actions>"@ {
        reveal_strlit("<actions>");
        lemma_differs(a, "<actions>"@, 2);
    }
    if pat == "<action "@ {
        reveal_strlit("<action ");
        lemma_differs(a, "<action "@, 2);
    }
}

/// The element starts in "<audio silent='true'/>".
proof fn lemma_lit_audio_silent(pat: Seq<char>)
    requires
        is_tag_pat(pat),
    ensures
        count_pat("<audio silent='true'/>"@, pat) == (if pat == "<audio "@ { 1nat } else { 0nat }),
        closed_tail("<audio silent='true'/>"@),
{
    reveal_strlit("<audio silent='true'/>");
    lemma_pats();
    let a = "<audio silent='true'/>"@;
    assert(count_char(a, '<') == 1) by {
        reveal_with_fuel(count_upto, 24);
    }
    lemma_one_tag(a, pat);
    lemma_gt_end(a);
    if pat == "<text>"@ {
        reveal_strlit("<text>");
        lemma_differs(a, "<text>"@, 1);
    }
    if pat == "<toast "@ {
        reveal_strlit("<toast ");
        lemma_differs(a, "<toast "@, 1);
    }
    if pat == "<audio "@ {
        reveal_strlit("<audio ");
        assert(a.subrange(0, 7) =~= "<audio "@);
    }
    if pat == "<visual>"@ {
        reveal_strlit("<visual>");
        lemma_differs(a, "<visual>"@, 1);
    }
    if pat == "<actions>"@ {
        reveal_strlit("<actions>");
        lemma_differs(a, "<actions>"@, 2);
    }
    if pat == "<action "@ {
        reveal_strlit("<action ");
        lemma_differs(a, "<action "@, 2);
    }
}

/// The element starts in "<actions>".
proof fn lemma_lit_actions_open(pat: Seq<char>)
    requires
        is_tag_pat(pat),
    ensures
        count_pat("<actions>"@, pat) == (if pat == "<actions>"@ { 1nat } else { 0nat }),
        closed_tail("<actions>"@),
{
    reveal_strlit("<actions>");
    lemma_pats();
    let a = "<actions>"@;
    assert(count_char(a, '<') == 1) by {
        reveal_with_fuel(count_upto, 11);
    }
    lemma_one_tag(a, pat);
    lemma_gt_end(a);
    if pat == "<text>"@ {
        reveal_strlit("<text>");
        lemma_differs(a, "<text>"@, 1);
    }
    if pat == "<toast "@ {
        reveal_strlit("<toast ");
        lemma_differs(a, "<toast "@, 1);
    }
    if pat == "<audio "@ {
        reveal_strlit("<audio ");
        lemma_differs(a, "<audio "@, 2);
    }
    if pat == "<visual>"@ {
        reveal_strlit("<visual>");
        lemma_differs(a, "<visual>"@, 1);
    }
    if pat == "<actions>"@ {
        reveal_strlit("<actions>");
        assert(a.subrange(0, 9) =~= "<actions>"@);
    }
    if pat == "<action "@ {
        reveal_strlit("<action ");
        lemma_differs(a, "<action "@, 7);
    }
}

/// The element starts in "<action content='".
proof fn lemma_lit_action_open(pat: Seq<char>)
    requires
        is_tag_pat(pat),
    ensures
        count_pat("<action content='"@, pat) == (if pat == "<action "@ { 1nat } else { 0nat }),
        closed_tail("<action content='"@),
{
    reveal_strlit("<action content='");
    lemma_pats();
    let a = "<action content='"@;
    assert(count_char(a, '<') == 1) by {
        reveal_with_fuel(count_upto, 19);
    }
    lemma_one_tag(a, pat);
    if pat == "<text>"@ {
        reveal_strlit("<text>");
        lemma_differs(a, "<text>"@, 1);
    }
    if pat == "<toast "@ {
        reveal_strlit("<toast ");
        lemma_differs(a, "<toast "@, 1);
    }
    if pat == "<audio "@ {
        reveal_strlit("<audio ");
        lemma_differs(a, "<audio "@, 2);
    }
    if pat == "<visual>"@ {
        reveal_strlit("<visual>");
        lemma_differs(a, "<visual>"@, 1);
    }
    if pat == "<actions>"@ {
        reveal_strlit("<actions>");
        lemma_differs(a, "<actions>"@, 7);
    }
    if pat == "<action "@ {
        reveal_strlit("<action ");
        assert(a.subrange(0, 8) =~= "<action "@);
    }
}

/// The element starts in "</actions>".
proof fn lemma_lit_actions_close(pat: Seq<char>)
    requires
        is_tag_pat(pat),
    ensures
        count_pat("</actions>"@, pat) == 0nat,
        closed_tail("</actions>"@),
{
    reveal_strlit("</actions>");
    lemma_pats();
    let a = "</actions>"@;
    assert(count_char(a, '<') == 1) by {
        reveal_with_fuel(count_upto, 12);
    }
    lemma_one_tag(a, pat);
    lemma_gt_end(a);
    if pat == "<text>"@ {
        reveal_strlit("<text>");
        lemma_differs(a, "<text>"@, 1);
    }
    if pat == "<toast "@ {
        reveal_strlit("<toast ");
        lemma_differs(a, "<toast "@, 1);
    }
    if pat == "<audio "@ {
        reveal_strlit("<audio ");
        lemma_differs(a, "<audio "@, 1);
    }
    if pat == "<visual>"@ {
        reveal_strlit("<visual>");
        lemma_differs(a, "<visual>"@, 1);
    }
    if pat == "<actions>"@ {
        reveal_strlit("<actions>");
        lemma_differs(a, "<actions>"@, 1);
    }
    if pat == "<action "@ {
        reveal_strlit("<action ");
        lemma_differs(a, "<action "@, 1);
    }
}

/// The element starts in "</toast>".
proof fn lemma_lit_toast_close(pat: Seq<char>)
    requires
        is_tag_pat(pat),
    ensures
        count_pat("</toast>"@, pat) == 0nat,
        closed_tail("</toast>"@),
{
    reveal_strlit("</toast>");
    lemma_pats();
    let a = "</toast>"@;
    assert(count_char(a, '<') == 1) by {
        reveal_with_fuel(count_upto, 10);
    }
    lemma_one_tag(a, pat);
    lemma_gt_end(a);
    if pat == "<text>"@ {
        reveal_strlit("<text>");
        lemma_differs(a, "<text>"@, 1);
    }
    if pat == "<toast "@ {
        reveal_strlit("<toast ");
        lemma_differs(a, "<toast "@, 1);
    }
    if pat == "<audio "@ {
        reveal_strlit("<audio ");
        lemma_differs(a, "<audio "@, 1);
    }
    if pat == "<visual>"@ {
        reveal_strlit("<visual>");
        lemma_differs(a, "<visual>"@, 1);
    }
    if pat == "<actions>"@ {
        reveal_strlit("<actions>");
        lemma_differs(a, "<actions>"@, 1);
    }
    if pat == "<action "@ {
        reveal_strlit("<action ");
        lemma_differs(a, "<action "@, 1);
    }
}

/// The element starts in " activationType='protocol' launch='".
proof fn lemma_lit_launch_attr(pat: Seq<char>)
    requires
        is_tag_pat(pat),
    ensures
        count_pat(" activationType='protocol' launch='"@, pat) == 0nat,
        closed_tail(" activationType='protocol' launch='"@),
        no_lt(" activationType='protocol' launch='"@),
{
    reveal_strlit(" activationType='protocol' launch='");
    lemma_pats();
    let a = " activationType='protocol' launch='"@;
    assert(count_char(a, '<') == 0) by {
        reveal_with_fuel(count_upto, 37);
    }
    lemma_no_lt(a, pat);
    lemma_no_lt_is(a);
}

/// The element starts in "'".
proof fn lemma_lit_quote(pat: Seq<char>)
    requires
        is_tag_pat(pat),
    ensures
        count_pat("'"@, pat) == 0nat,
        closed_tail("'"@),
        no_lt("'"@),
{
    reveal_strlit("'");
    lemma_pats();
    let a = "'"@;
    assert(count_char(a, '<') == 0) by {
        reveal_with_fuel(count_upto, 3);
    }
    lemma_no_lt(a, pat);
    lemma_no_lt_is(a);
}

/// The element starts in ">".
proof fn lemma_lit_gt(pat: Seq<char>)
    requires
        is_tag_pat(pat),
    ensures
        count_pat(">"@, pat) == 0nat,
        closed_tail(">"@),
        no_lt(">"@),
{
    reveal_strlit(">");
    lemma_pats();
    let a = ">"@;
    assert(count_char(a, '<') == 0) by {
        reveal_with_fuel(count_upto, 3);
    }
    lemma_no_lt(a, pat);
    lemma_no_lt_is(a);
}

/// The element starts in "'/>".
proof fn lemma_lit_empty_close(pat: Seq<char>)
    requires
        is_tag_pat(pat),
    ensures
        count_pat("'/>"@, pat) == 0nat,
        closed_tail("'/>"@),
        no_lt("'/>"@),
{
    reveal_strlit("'/>");
    lemma_pats();
    let a = "'/>"@;
    assert(count_char(a, '<') == 0) by {
        reveal_with_fuel(count_upto, 5);
    }
    lemma_no_lt(a, pat);
    lemma_no_lt_is(a);
}

/// The element starts in "' activationType='protocol' arguments='".
proof fn lemma_lit_arguments_attr(pat: Seq<char>)
    requires
        is_tag_pat(pat),
    ensures
        count_pat("' activationType='protocol' arguments='"@, pat) == 0nat,
        closed_tail("' activationType='protocol' arguments='"@),
        no_lt("' activationType='protocol' arguments='"@),
{
    reveal_strlit("' activationType='protocol' arguments='");
    lemma_pats();
    let a = "' activationType='protocol' arguments='"@;
    assert(count_char(a, '<') == 0) by {
        reveal_with_fuel(count_upto, 41);
    }
    lemma_no_lt(a, pat);
    lemma_no_lt_is(a);
}

/// No `<` in `s`.
pub open spec fn no_lt(s: Seq<char>) -> bool {
    forall|i: int| 0 <= i < s.len() ==> #[trigger] s[i] != '<'
}

proof fn lemma_no_lt_is(a: Seq<char>)
    requires
        forall|i: int| 0 <= i < a.len() ==> #[trigger] a[i] != '<',
    ensures
        no_lt(a),
{
}

proof fn lemma_no_lt_parts(a: Seq<char>, pat: Seq<char>)
    requires
        tag_shaped(pat),
        no_lt(a),
    ensures
        count_pat(a, pat) == 0,
        closed_tail(a),
{
    lemma_no_start(a, pat, a.len() as int);
    lemma_closed_if_no_lt(a);
}

proof fn lemma_no_lt_concat(a: Seq<char>, b: Seq<char>)
    requires
        no_lt(a),
        no_lt(b),
    ensures
        no_lt(a + b),
{
    assert forall|i: int| 0 <= i < (a + b).len() implies #[trigger] (a + b)[i] != '<' by {
        if i < a.len() {
            assert((a + b)[i] == a[i]);
        } else {
            assert((a + b)[i] == b[i - a.len()]);
        }
    }
}

proof fn lemma_ends_gt(a: Seq<char>, b: Seq<char>)
    requires
        b.len() > 0,
        b.last() == '>',
    ensures
        closed_tail(a + b),
{
    assert((a + b).last() == b.last());
    lemma_gt_end(a + b);
}

proof fn lemma_escaped(s: Seq<char>, pat: Seq<char>)
    requires
        is_tag_pat(pat),
    ensures
        count_pat(xml_escaped(s), pat) == 0,
        closed_tail(xml_escaped(s)),
        no_lt(xml_escaped(s)),
{
    lemma_pats();
    lemma_xml_escaped_has_no_markup(s);
    let e = xml_escaped(s);
    assert forall|i: int| 0 <= i < e.len() implies #[trigger] e[i] != '<' by {
        let c = e[i];
    }
    lemma_no_lt_parts(e, pat);
}

proof fn lemma_activation(url: Option<&str>, pat: Seq<char>)
    requires
        is_tag_pat(pat),
    ensures
        count_pat(activation_xml(url), pat) == 0,
        closed_tail(activation_xml(url)),
{
    lemma_pats();
    match url {
        Some(u) => {
            let a = " activationType='protocol' launch='"@;
            let e = xml_escaped(u@);
            let q = "'"@;
            lemma_lit_launch_attr(pat);
            lemma_escaped(u@, pat);
            lemma_lit_quote(pat);
            lemma_no_lt_concat(e, q);
            lemma_no_lt_concat(a, e + q);
            assert(activation_xml(url) =~= a + (e + q));
            lemma_no_lt_parts(a + (e + q), pat);
        },
        None => {
            assert(no_lt(activation_xml(url)));
            lemma_no_lt_parts(activation_xml(url), pat);
        },
    }
}

proof fn lemma_image(icon: Option<&str>, pat: Seq<char>)
    requires
        is_tag_pat(pat),
    ensures
        count_pat(image_xml(icon), pat) == 0,
        closed_tail(image_xml(icon)),
{
    lemma_pats();
    match icon {
        Some(p) => {
            let f = "<image placement='appLogoOverride' src='"@;
            let e = xml_escaped(crate::toast::file_uri(p@));
            let c = "'/>"@;
            lemma_lit_image_open(pat);
            lemma_escaped(crate::toast::file_uri(p@), pat);
            lemma_lit_empty_close(pat);
            lemma_count_pat_concat(e, c, pat);
            lemma_count_pat_concat(f, e + c, pat);
            assert(image_xml(icon) =~= f + (e + c));
            reveal_strlit("'/>");
            assert(image_xml(icon) =~= (f + e) + c);
            lemma_ends_gt(f + e, c);
        },
        None => {
            assert(no_lt(image_xml(icon)));
            lemma_no_lt_parts(image_xml(icon), pat);
        },
    }
}

proof fn lemma_audio(sound: bool, level_sound: &str, pat: Seq<char>)
    requires
        is_tag_pat(pat),
    ensures
        count_pat(audio_xml(sound, level_sound), pat) == (if pat == "<audio "@ {
            1nat
        } else {
            0nat
        }),
        closed_tail(audio_xml(sound, level_sound)),
{
    lemma_pats();
    if sound {
        let f = "<audio src='"@;
        let e = xml_escaped(level_sound@);
        let c = "'/>"@;
        lemma_lit_audio_open(pat);
        lemma_escaped(level_sound@, pat);
        lemma_lit_empty_close(pat);
        lemma_count_pat_concat(e, c, pat);
        lemma_count_pat_concat(f, e + c, pat);
        assert(audio_xml(sound, level_sound) =~= f + (e + c));
        reveal_strlit("'/>");
        lemma_ends_gt(f + e, c);
    } else {
        lemma_lit_audio_silent(pat);
    }
}

proof fn lemma_action(b: (String, String), pat: Seq<char>)
    requires
        is_tag_pat(pat),
    ensures
        count_pat(action_xml(b), pat) == (if pat == "<action "@ {
            1nat
        } else {
            0nat
        }),
        closed_tail(action_xml(b)),
        action_xml(b).len() > 0 && action_xml(b).last() == '>',
{
    lemma_pats();
    let m = "<action content='"@;
    let e1 = xml_escaped(b.0@);
    let g = "' activationType='protocol' arguments='"@;
    let e2 = xml_escaped(b.1@);
    let c = "'/>"@;
    lemma_lit_action_open(pat);
    lemma_escaped(b.0@, pat);
    lemma_lit_arguments_attr(pat);
    lemma_escaped(b.1@, pat);
    lemma_lit_empty_close(pat);
    lemma_count_pat_concat(e2, c, pat);
    lemma_count_pat_concat(g, e2 + c, pat);
    lemma_count_pat_concat(e1, g + (e2 + c), pat);
    lemma_count_pat_concat(m, e1 + (g + (e2 + c)), pat);
    assert(action_xml(b) =~= m + (e1 + (g + (e2 + c))));
    reveal_strlit("'/>");
    assert(action_xml(b) =~= (m + e1 + g + e2) + c);
    lemma_ends_gt(m + e1 + g + e2, c);
    assert(action_xml(b).last() == c.last());
}

proof fn lemma_action_list(bs: Seq<(String, String)>, pat: Seq<char>)
    requires
        is_tag_pat(pat),
    ensures
        count_pat(bs.flat_map(|b: (String, String)| action_xml(b)), pat) == (if pat
            == "<action "@ {
            bs.len()
        } else {
            0nat
        }),
        closed_tail(bs.flat_map(|b: (String, String)| action_xml(b))),
    decreases bs.len(),
{
    let f = |b: (String, String)| action_xml(b);
    lemma_pats();
    if bs.len() == 0 {
        assert(bs.flat_map(f) =~= Seq::<char>::empty());
        assert(no_lt(bs.flat_map(f)));
        lemma_no_lt_parts(bs.flat_map(f), pat);
    } else {
        lemma_action_list(bs.drop_last(), pat);
        lemma_flat_map_last(bs, f);
        lemma_action(bs.last(), pat);
        lemma_count_pat_concat(bs.drop_last().flat_map(f), action_xml(bs.last()), pat);
        lemma_ends_gt(bs.drop_last().flat_map(f), action_xml(bs.last()));
    }
}

proof fn lemma_actions(bs: Seq<(String, String)>, pat: Seq<char>)
    requires
        is_tag_pat(pat),
    ensures
        count_pat(actions_xml(bs), pat) == (if bs.len() == 0 {
            0nat
        } else if pat == "<actions>"@ {
            1nat
        } else if pat == "<action "@ {
            bs.len()
        } else {
            0nat
        }),
        closed_tail(actions_xml(bs)),
{
    lemma_pats();
    if bs.len() > 0 {
        let k = "<actions>"@;
        let items = bs.flat_map(|b: (String, String)| action_xml(b));
        let n = "</actions>"@;
        lemma_lit_actions_open(pat);
        lemma_action_list(bs, pat);
        lemma_lit_actions_close(pat);
        lemma_count_pat_concat(items, n, pat);
        lemma_count_pat_concat(k, items + n, pat);
        assert(actions_xml(bs) =~= k + (items + n));
        reveal_strlit("</actions>");
        lemma_ends_gt(k + items, n);
    } else {
        assert(no_lt(actions_xml(bs)));
        lemma_no_lt_parts(actions_xml(bs), pat);
    }
}

/// The part of a toast payload before its audio element: the toast's
/// opening tag with the launch attributes, and the visual element.
pub open spec fn visual_part(t: Toast) -> Seq<char> {
    "<toast duration='long'"@ + activation_xml(t.url)
        + "><visual><binding template='ToastGeneric'><text>"@ + xml_escaped(t.title@)
        + "</text><text>"@ + xml_escaped(t.message@) + "</text>"@ + image_xml(t.icon)
        + "</binding></visual>"@
}

proof fn lemma_visual(t: Toast, pat: Seq<char>)
    requires
        is_tag_pat(pat),
    ensures
        count_pat(visual_part(t), pat) == (if pat == "<toast "@ {
            1nat
        } else if pat == "<visual>"@ {
            1nat
        } else if pat == "<text>"@ {
            2nat
        } else {
            0nat
        }),
        closed_tail(visual_part(t)),
{
    lemma_pats();
    reveal_strlit("><visual><binding template='ToastGeneric'><text>");
    reveal_strlit("</text><text>");
    reveal_strlit("</binding></visual>");
    reveal_strlit("<toast duration='long'");
    reveal_strlit("</text>");
    reveal_strlit(">");
    reveal_strlit("<visual>");
    reveal_strlit("<binding template='ToastGeneric'>");
    reveal_strlit("<text>");
    reveal_strlit("</binding>");
    reveal_strlit("</visual>");
    let a = "<toast duration='long'"@;
    let act = activation_xml(t.url);
    let gt = ">"@;
    let b = "<visual>"@;
    let c = "<binding template='ToastGeneric'>"@;
    let d = "<text>"@;
    let et = xml_escaped(t.title@);
    let e = "</text>"@;
    let em = xml_escaped(t.message@);
    let img = image_xml(t.icon);
    let g = "</binding>"@;
    let h = "</visual>"@;
    assert("><visual><binding template='ToastGeneric'><text>"@ =~= gt + b + c + d);
    assert("</text><text>"@ =~= e + d);
    assert("</binding></visual>"@ =~= g + h);
    lemma_lit_toast_open(pat);
    lemma_activation(t.url, pat);
    lemma_lit_gt(pat);
    lemma_lit_visual_open(pat);
    lemma_lit_binding_open(pat);
    lemma_lit_text_open(pat);
    lemma_escaped(t.title@, pat);
    lemma_lit_text_close(pat);
    lemma_escaped(t.message@, pat);
    lemma_image(t.icon, pat);
    lemma_lit_binding_close(pat);
    lemma_lit_visual_close(pat);
    let l2 = gt + b + c + d;
    let l3 = e + d;
    let l5 = g + h;
    lemma_count_pat_concat(gt, b, pat);
    lemma_count_pat_concat(gt + b, c, pat);
    lemma_count_pat_concat(gt + b + c, d, pat);
    lemma_count_pat_concat(e, d, pat);
    lemma_count_pat_concat(g, h, pat);
    let p1 = a + act;
    let p2 = p1 + l2;
    let p3 = p2 + et;
    let p4 = p3 + l3;
    let p5 = p4 + em;
    let p6 = p5 + e;
    let p7 = p6 + img;
    lemma_count_pat_concat(a, act, pat);
    lemma_count_pat_concat(p1, l2, pat);
    lemma_count_pat_concat(p2, et, pat);
    lemma_count_pat_concat(p3, l3, pat);
    lemma_count_pat_concat(p4, em, pat);
    lemma_count_pat_concat(p5, e, pat);
    lemma_count_pat_concat(p6, img, pat);
    lemma_count_pat_concat(p7, l5, pat);
    assert(visual_part(t) == p7 + l5);
}

proof fn lemma_counts(t: Toast, pat: Seq<char>)
    requires
        is_tag_pat(pat),
    ensures
        toast_xml(t) == visual_part(t) + audio_xml(t.sound, t.level.sound) + actions_xml(
            t.buttons@,
        ) + "</toast>"@,
        count_pat(toast_xml(t), pat) == count_pat(visual_part(t), pat) + count_pat(
            audio_xml(t.sound, t.level.sound),
            pat,
        ) + count_pat(actions_xml(t.buttons@), pat) + count_pat("</toast>"@, pat),
        count_pat("</toast>"@, pat) == 0,
{
    let v = visual_part(t);
    let u = audio_xml(t.sound, t.level.sound);
    let x = actions_xml(t.buttons@);
    let o = "</toast>"@;
    lemma_pats();
    lemma_visual(t, pat);
    lemma_audio(t.sound, t.level.sound, pat);
    lemma_actions(t.buttons@, pat);
    lemma_lit_toast_close(pat);
    lemma_count_pat_concat(v, u, pat);
    lemma_count_pat_concat(v + u, x, pat);
    lemma_count_pat_concat(v + u + x, o, pat);
    assert(toast_xml(t) == v + u + x + o);
}

/// The elements of a toast payload come in the order the schema fixes: the
/// part with the one `<visual>` element, then the audio element, then the
/// actions element when there are buttons, holding one `<action ` per
/// button in button order, then `</toast>`. No part holds the others'
/// elements.
pub proof fn lemma_toast_xml_order(t: Toast)
    ensures
        toast_xml(t) == visual_part(t) + audio_xml(t.sound, t.level.sound) + actions_xml(
            t.buttons@,
        ) + "</toast>"@,
        count_pat(visual_part(t), "<visual>"@) == 1,
        count_pat(visual_part(t), "<audio "@) == 0,
        count_pat(visual_part(t), "<actions>"@) == 0,
        count_pat(visual_part(t), "<action "@) == 0,
        count_pat(audio_xml(t.sound, t.level.sound), "<audio "@) == 1,
        count_pat(audio_xml(t.sound, t.level.sound), "<visual>"@) == 0,
        count_pat(audio_xml(t.sound, t.level.sound), "<actions>"@) == 0,
        count_pat(audio_xml(t.sound, t.level.sound), "<action "@) == 0,
        count_pat(actions_xml(t.buttons@), "<visual>"@) == 0,
        count_pat(actions_xml(t.buttons@), "<audio "@) == 0,
        count_pat(actions_xml(t.buttons@), "<actions>"@) == (if t.buttons@.len() > 0 {
            1nat
        } else {
            0nat
        }),
        count_pat(actions_xml(t.buttons@), "<action "@) == t.buttons@.len(),
        t.buttons@.len() == 0 ==> actions_xml(t.buttons@) == Seq::<char>::empty(),
        t.buttons@.len() > 0 ==> actions_xml(t.buttons@) == "<actions>"@ + t.buttons@.flat_map(
            |b: (String, String)| action_xml(b),
        ) + "</actions>"@,
{
    lemma_pats();
    lemma_counts(t, "<visual>"@);
    lemma_counts(t, "<audio "@);
    lemma_counts(t, "<actions>"@);
    lemma_counts(t, "<action "@);
    lemma_visual(t, "<visual>"@);
    lemma_visual(t, "<audio "@);
    lemma_visual(t, "<actions>"@);
    lemma_visual(t, "<action "@);
    lemma_audio(t.sound, t.level.sound, "<visual>"@);
    lemma_audio(t.sound, t.level.sound, "<audio "@);
    lemma_audio(t.sound, t.level.sound, "<actions>"@);
    lemma_audio(t.sound, t.level.sound, "<action "@);
    lemma_actions(t.buttons@, "<visual>"@);
    lemma_actions(t.buttons@, "<audio "@);
    lemma_actions(t.buttons@, "<actions>"@);
    lemma_actions(t.buttons@, "<action "@);
}

/// Whatever the user text, a toast payload has exactly two `<text>`
/// elements, one `<toast ` and one `<audio ` element, one `<visual>`, one
/// `<actions>` when there are buttons (none otherwise), and one `<action `
/// per button.
pub proof fn lemma_toast_xml_elements(t: Toast)
    ensures
        count_pat(toast_xml(t), "<text>"@) == 2,
        count_pat(toast_xml(t), "<toast "@) == 1,
        count_pat(toast_xml(t), "<audio "@) == 1,
        count_pat(toast_xml(t), "<visual>"@) == 1,
        count_pat(toast_xml(t), "<actions>"@) == (if t.buttons@.len() > 0 {
            1nat
        } else {
            0nat
        }),
        count_pat(toast_xml(t), "<action "@) == t.buttons@.len(),
{
    lemma_pats();
    lemma_counts(t, "<text>"@);
    lemma_counts(t, "<toast "@);
    lemma_counts(t, "<audio "@);
    lemma_counts(t, "<visual>"@);
    lemma_counts(t, "<actions>"@);
    lemma_counts(t, "<action "@);
    lemma_visual(t, "<text>"@);
    lemma_visual(t, "<toast "@);
    lemma_visual(t, "<audio "@);
    lemma_visual(t, "<visual>"@);
    lemma_visual(t, "<actions>"@);
    lemma_visual(t, "<action "@);
    lemma_audio(t.sound, t.level.sound, "<text>"@);
    lemma_audio(t.sound, t.level.sound, "<toast "@);
    lemma_audio(t.sound, t.level.sound, "<audio "@);
    lemma_audio(t.sound, t.level.sound, "<visual>"@);
    lemma_audio(t.sound, t.level.sound, "<actions>"@);
    lemma_audio(t.sound, t.level.sound, "<action "@);
    lemma_actions(t.buttons@, "<text>"@);
    lemma_actions(t.buttons@, "<toast "@);
    lemma_actions(t.buttons@, "<audio "@);
    lemma_actions(t.buttons@, "<visual>"@);
    lemma_actions(t.buttons@, "<actions>"@);
    lemma_actions(t.buttons@, "<action "@);
}

} // verus!
