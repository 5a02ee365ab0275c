use reminder::stored::{listing, live_actions};
use reminder::callback::{action_json, ACTION_TTL_SECONDS};
use reminder::stored::{newest_first, parse_action_json, run_refusal, Refusal, StoredAction};

fn strings(items: &[&str]) -> Vec<String> {
    items.iter().map(|s| s.to_string()).collect()
}

#[test]
fn reads_what_the_store_writes() {
    let json = action_json(&["py", "rerun tests.py", "--x=\"1\""], Some("C:\\work dir"), 1700000000);
    let a = parse_action_json(&json).expect("readable");
    assert_eq!(a.argv, strings(&["py", "rerun tests.py", "--x=\"1\""]));
    assert_eq!(a.cwd.as_deref(), Some("C:\\work dir"));
    assert_eq!(a.created, 1700000000);
}

#[test]
fn reads_back_without_cwd_and_with_control_whitespace() {
    let json = action_json(&["echo", "line1\nline2\ttab\rcr"], None, 42);
    let a = parse_action_json(&json).unwrap();
    assert_eq!(a.argv, strings(&["echo", "line1\nline2\ttab\rcr"]));
    assert_eq!(a.cwd, None);
    assert_eq!(a.created, 42);
}

#[test]
fn tolerates_white_space_around_values() {
    let a = parse_action_json("{ \"argv\":  [ \"a\" , \"b\" ], \"cwd\":\n null, \"created\": \t7 }")
        .unwrap();
    assert_eq!(a.argv, strings(&["a", "b"]));
    assert_eq!(a.cwd, None);
    assert_eq!(a.created, 7);
}

#[test]
fn argv_is_required() {
    assert!(parse_action_json("{\"cwd\":null,\"created\":1}").is_none());
    assert!(parse_action_json("{\"argv\":\"notepad\"}").is_none());
    assert!(parse_action_json("{\"argv\":[\"a\"").is_none());
    assert!(parse_action_json("").is_none());
}

#[test]
fn missing_or_bad_creation_time_is_zero() {
    assert_eq!(parse_action_json("{\"argv\":[]}").unwrap().created, 0);
    assert_eq!(parse_action_json("{\"argv\":[],\"created\":\"x\"}").unwrap().created, 0);
    assert_eq!(
        parse_action_json("{\"argv\":[],\"created\":99999999999999999999}").unwrap().created,
        0
    );
    assert_eq!(
        parse_action_json("{\"argv\":[],\"created\":18446744073709551615}").unwrap().created,
        u64::MAX
    );
}

#[test]
fn cwd_that_is_not_a_string_is_none() {
    assert_eq!(parse_action_json("{\"argv\":[],\"cwd\":5}").unwrap().cwd, None);
    assert_eq!(parse_action_json("{\"argv\":[],\"cwd\":\"unterminated}").unwrap().cwd, None);
}

#[test]
fn brackets_inside_strings_do_not_close_the_array() {
    let a = parse_action_json("{\"argv\":[\"a]b\",\"[c\",\"d\\\"]\"]}").unwrap();
    assert_eq!(a.argv, strings(&["a]b", "[c", "d\"]"]));
}

#[test]
fn escapes_are_decoded_and_text_is_read_as_characters() {
    let a = parse_action_json("{\"argv\":[\"x\\u0041y\",\"\\/\",\"é\",\"\\u00e9\\u00C9\"]}").unwrap();
    assert_eq!(a.argv, strings(&["xAy", "/", "é", "éÉ"]));
}

#[test]
fn surrogate_pairs_are_joined_and_lone_ones_kept() {
    let a = parse_action_json("{\"argv\":[\"\\ud83d\\ude00\",\"\\ud83dx\",\"\\uzzzz\",\"\\q\"]}")
        .unwrap();
    assert_eq!(a.argv, strings(&["\u{1F600}", "\\ud83dx", "\\uzzzz", "\\q"]));
}

fn action(argv: &[&str], created: u64) -> StoredAction {
    StoredAction { argv: strings(argv), cwd: None, created }
}

#[test]
fn refusals() {
    let now = 1_000_000;
    assert_eq!(run_refusal(&None, now), Some(Refusal::Missing));
    assert_eq!(run_refusal(&Some(action(&[], now)), now), Some(Refusal::NoCommand));
    assert_eq!(
        run_refusal(&Some(action(&["x"], now - ACTION_TTL_SECONDS - 1)), now),
        Some(Refusal::Expired)
    );
    assert_eq!(run_refusal(&Some(action(&["x"], now - ACTION_TTL_SECONDS)), now), None);
    assert_eq!(run_refusal(&Some(action(&["x"], now + 50)), now), None);
}

#[test]
fn refusal_messages() {
    assert_eq!(Refusal::Missing.message(), "action has expired or no longer exists");
    assert_eq!(Refusal::NoCommand.message(), "stored action has no command");
    assert_eq!(Refusal::Expired.message(), "action has expired");
}

#[test]
fn listing_is_newest_first_and_stable() {
    let entries = vec![
        ("a".to_string(), action(&["1"], 5)),
        ("b".to_string(), action(&["2"], 9)),
        ("c".to_string(), action(&["3"], 5)),
        ("d".to_string(), action(&["4"], 1)),
        ("e".to_string(), action(&["5"], 9)),
    ];
    let out = newest_first(entries);
    let tokens: Vec<&str> = out.iter().map(|(t, _)| t.as_str()).collect();
    assert_eq!(tokens, vec!["b", "e", "a", "c", "d"]);
    assert_eq!(out[0].1.argv, strings(&["2"]));
    assert!(newest_first(Vec::new()).is_empty());
}

#[test]
fn any_text_reads_back_unchanged() {
    let argv = ["é", "a\u{1}b\u{1f}", "\u{7f}", "日本語 ✓ 😀", "\"quoted\" \\path\\", "\n\r\t", ""];
    let json = action_json(&argv, Some("C:\\Users\\Zoë\\\u{0}"), 99);
    let a = parse_action_json(&json).unwrap();
    assert_eq!(a.argv, strings(&argv));
    assert_eq!(a.cwd.as_deref(), Some("C:\\Users\\Zoë\\\u{0}"));
    assert_eq!(a.created, 99);
}

#[test]
fn only_live_actions_are_listed() {
    let now = 10 * ACTION_TTL_SECONDS;
    let entries = vec![
        ("old".to_string(), action(&["1"], now - ACTION_TTL_SECONDS - 1)),
        ("edge".to_string(), action(&["2"], now - ACTION_TTL_SECONDS)),
        ("new".to_string(), action(&["3"], now)),
        ("future".to_string(), action(&["4"], now + 5)),
    ];
    let live = live_actions(entries, now);
    let tokens: Vec<&str> = live.iter().map(|(t, _)| t.as_str()).collect();
    assert_eq!(tokens, vec!["edge", "new", "future"]);
}

#[test]
fn listing_is_the_live_actions_newest_first() {
    let now = 10 * ACTION_TTL_SECONDS;
    let entries = vec![
        ("a".to_string(), action(&["1"], now - 5)),
        ("old".to_string(), action(&["2"], 1)),
        ("b".to_string(), action(&["3"], now)),
        ("c".to_string(), action(&["4"], now - 5)),
    ];
    let out = listing(entries, now);
    let tokens: Vec<&str> = out.iter().map(|(t, _)| t.as_str()).collect();
    assert_eq!(tokens, vec!["b", "a", "c"]);
}
