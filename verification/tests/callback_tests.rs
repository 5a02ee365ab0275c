use reminder::callback::{registry_text, registry_text_units};
use reminder::callback::{
    action_expired, action_file_name, action_json, action_uri, base64_url_encode, is_valid_token,
    json_escape, json_string_array, parse_action_uri, protocol_command, ACTION_TTL_SECONDS,
    SCHEME, TOKEN_BYTES,
};

const TOKEN: &str = "AAECAwQFBgcICQoLDA0ODw";

#[test]
fn base64_of_sixteen_bytes_is_a_22_character_token() {
    let data: Vec<u8> = (0..16u8).collect();
    let token = base64_url_encode(&data);
    assert_eq!(token, TOKEN);
    assert_eq!(token.len(), 22);
    assert!(is_valid_token(&token));
    assert_eq!(TOKEN_BYTES, 16);
}

#[test]
fn base64_is_url_safe_and_unpadded() {
    assert_eq!(base64_url_encode(&[0xFB, 0xFF, 0xFE]), "-__-");
    assert_eq!(base64_url_encode(b"ab"), "YWI");
    assert_eq!(base64_url_encode(b"a"), "YQ");
    assert_eq!(base64_url_encode(b""), "");
    assert_eq!(base64_url_encode(b"Man"), "TWFu");
}

#[test]
fn any_sixteen_bytes_make_a_valid_token() {
    for seed in 0..=255u8 {
        let data: Vec<u8> = (0..16u8).map(|i| seed.wrapping_mul(31).wrapping_add(i * 17)).collect();
        let token = base64_url_encode(&data);
        assert_eq!(token.len(), 22);
        assert!(is_valid_token(&token));
        assert_eq!(action_file_name(&token), Some(format!("{token}.json")));
    }
}

#[test]
fn token_validation() {
    assert!(is_valid_token("abcdefghijklmnop"));
    assert!(!is_valid_token("abcdefghijklmno"));
    assert!(is_valid_token(&"a".repeat(128)));
    assert!(!is_valid_token(&"a".repeat(129)));
    assert!(!is_valid_token("../../etc/passwd_xx"));
    assert!(!is_valid_token("abcdefghijklmnop.json"));
    assert!(!is_valid_token("abcdefghijklmnopé"));
    assert!(is_valid_token("A-_z09A-_z09A-_z09"));
}

#[test]
fn action_file_name_only_for_valid_tokens() {
    assert_eq!(action_file_name(TOKEN), Some(format!("{TOKEN}.json")));
    assert_eq!(action_file_name("..\\..\\secrets-file"), None);
    assert_eq!(action_file_name("short"), None);
}

#[test]
fn action_uri_format() {
    assert_eq!(SCHEME, "reminder");
    assert_eq!(action_uri(TOKEN), format!("reminder://run/{TOKEN}"));
}

#[test]
fn parse_action_uri_round_trip() {
    assert_eq!(parse_action_uri(&action_uri(TOKEN)), Ok(TOKEN.to_string()));
}

#[test]
fn parse_action_uri_ignores_query_and_fragment() {
    assert_eq!(
        parse_action_uri(&format!("reminder://run/{TOKEN}?from=toast")),
        Ok(TOKEN.to_string())
    );
    assert_eq!(
        parse_action_uri(&format!("reminder://run/{TOKEN}#x?y")),
        Ok(TOKEN.to_string())
    );
}

#[test]
fn parse_action_uri_rejects_other_uris() {
    assert_eq!(
        parse_action_uri("https://example.com/run/x"),
        Err("not a valid reminder:// URI: https://example.com/run/x".to_string())
    );
    assert_eq!(
        parse_action_uri("reminder://other/abcdefghijklmnop"),
        Err("not a valid reminder:// URI: reminder://other/abcdefghijklmnop".to_string())
    );
    assert_eq!(
        parse_action_uri(""),
        Err("not a valid reminder:// URI: ".to_string())
    );
}

#[test]
fn parse_action_uri_rejects_bad_tokens() {
    assert_eq!(
        parse_action_uri("reminder://run/short"),
        Err("invalid token in URI: reminder://run/short".to_string())
    );
    assert_eq!(
        parse_action_uri("reminder://run/../../../windows/x"),
        Err("invalid token in URI: reminder://run/../../../windows/x".to_string())
    );
    assert_eq!(
        parse_action_uri("reminder://run/?abcdefghijklmnopq"),
        Err("invalid token in URI: reminder://run/?abcdefghijklmnopq".to_string())
    );
}

#[test]
fn protocol_command_quotes_the_program() {
    assert_eq!(
        protocol_command("C:\\Program Files\\reminder.exe"),
        "\"C:\\Program Files\\reminder.exe\" --open-uri \"%1\""
    );
}

#[test]
fn expiry_after_seven_days() {
    assert_eq!(ACTION_TTL_SECONDS, 7 * 24 * 3600);
    assert!(!action_expired(1000, 1000));
    assert!(!action_expired(1000, 1000 + ACTION_TTL_SECONDS));
    assert!(action_expired(1000, 1000 + ACTION_TTL_SECONDS + 1));
    assert!(!action_expired(5000, 10));
    assert!(action_expired(0, u64::MAX));
}

#[test]
fn json_escape_of_specials() {
    assert_eq!(
        json_escape("a\"b\\c\nd\re\tf\u{1}g\u{1f}h"),
        "a\\\"b\\\\c\\nd\\re\\tf\\u0001g\\u001fh"
    );
    assert_eq!(json_escape("é /"), "é /");
}

#[test]
fn json_string_array_format() {
    assert_eq!(json_string_array(&["a", "b c", "q\""]), "[\"a\",\"b c\",\"q\\\"\"]");
    assert_eq!(json_string_array(&[]), "[]");
}

#[test]
fn action_json_format() {
    assert_eq!(
        action_json(&["py", "rerun.py"], Some("C:\\work"), 12345),
        "{\"argv\":[\"py\",\"rerun.py\"],\"cwd\":\"C:\\\\work\",\"created\":12345}"
    );
    assert_eq!(
        action_json(&["notepad"], None, 0),
        "{\"argv\":[\"notepad\"],\"cwd\":null,\"created\":0}"
    );
    assert_eq!(
        action_json(&[], None, u64::MAX),
        "{\"argv\":[],\"cwd\":null,\"created\":18446744073709551615}"
    );
}

#[test]
fn an_expired_action_stays_expired() {
    let created = 1_000;
    let first = created + ACTION_TTL_SECONDS + 1;
    assert!(action_expired(created, first));
    for later in [first, first + 1, first + 86_400, u64::MAX] {
        assert!(action_expired(created, later));
    }
}

#[test]
fn registry_units_drop_the_terminator() {
    let buf: Vec<u16> = vec![104, 105, 0, 7, 7];
    assert_eq!(registry_text_units(&buf, 6), vec![104, 105]);
    assert_eq!(registry_text_units(&buf, 4), vec![104, 105]);
    assert_eq!(registry_text_units(&buf, 5), vec![104, 105]);
    assert_eq!(registry_text_units(&buf, 0), Vec::<u16>::new());
    assert_eq!(registry_text_units(&buf, 10), vec![104, 105, 0, 7, 7]);
}

#[test]
fn registry_text_decodes_utf16() {
    let command = "\"C:\\é\\reminder.exe\" --open-uri \"%1\"";
    let mut buf: Vec<u16> = command.encode_utf16().collect();
    buf.push(0);
    let size = (buf.len() * 2) as u32;
    buf.extend_from_slice(&[65, 66]);
    assert_eq!(registry_text(&buf, size), command);
    assert_eq!(registry_text(&[0xD800, 0], 4), "\u{FFFD}");
}
