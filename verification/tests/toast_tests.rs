use reminder::level::by_name;
use reminder::toast::{path_to_file_uri, xml_escape, Toast};

#[test]
fn xml_escape_replaces_the_five_entities() {
    assert_eq!(xml_escape("a&b<c>d\"e'f"), "a&amp;b&lt;c&gt;d&quot;e&apos;f");
    assert_eq!(xml_escape("plain text"), "plain text");
    assert_eq!(xml_escape(""), "");
    assert_eq!(xml_escape("é ✓"), "é ✓");
}

#[test]
fn xml_escape_of_an_apostrophe_label() {
    assert_eq!(xml_escape("It's fine"), "It&apos;s fine");
}

#[test]
fn file_uri_of_a_windows_path() {
    assert_eq!(
        path_to_file_uri("C:\\Users\\me\\icon one.png"),
        "file:///C:/Users/me/icon%20one.png"
    );
}

#[test]
fn file_uri_keeps_unreserved_and_encodes_the_rest() {
    assert_eq!(path_to_file_uri("a-b.c_d~e/f:g"), "file:///a-b.c_d~e/f:g");
    assert_eq!(path_to_file_uri("café#1%"), "file:///caf%C3%A9%231%25");
    assert_eq!(path_to_file_uri(""), "file:///");
}

fn toast<'a>(
    level: &'a reminder::level::Level,
    buttons: &'a [(String, String)],
) -> Toast<'a> {
    Toast {
        title: "Reminder",
        message: "Time for a break",
        level,
        sound: true,
        url: None,
        buttons,
        icon: None,
        tag: None,
    }
}

#[test]
fn plain_toast_xml() {
    let level = by_name("info").unwrap();
    let t = toast(&level, &[]);
    assert_eq!(
        t.to_xml(),
        "<toast duration='long'><visual><binding template='ToastGeneric'>\
         <text>Reminder</text><text>Time for a break</text></binding></visual>\
         <audio src='ms-winsoundevent:Notification.Default'/></toast>"
    );
}

#[test]
fn silent_toast_with_url_icon_and_buttons() {
    let level = by_name("error").unwrap();
    let buttons = vec![
        ("It's fine".to_string(), "https://a.example/?x=1&y=2".to_string()),
        ("Logs".to_string(), "https://github.com/".to_string()),
    ];
    let mut t = toast(&level, &buttons);
    t.title = "Build <main>";
    t.sound = false;
    t.url = Some("https://x.example/?a=1&b=2");
    t.icon = Some("C:\\icons\\error.png");
    t.tag = Some("build");
    assert_eq!(
        t.to_xml(),
        "<toast duration='long' activationType='protocol' launch='https://x.example/?a=1&amp;b=2'>\
         <visual><binding template='ToastGeneric'>\
         <text>Build &lt;main&gt;</text><text>Time for a break</text>\
         <image placement='appLogoOverride' src='file:///C:/icons/error.png'/>\
         </binding></visual><audio silent='true'/>\
         <actions><action content='It&apos;s fine' activationType='protocol' arguments='https://a.example/?x=1&amp;y=2'/>\
         <action content='Logs' activationType='protocol' arguments='https://github.com/'/></actions></toast>"
    );
}

#[test]
fn warning_level_sound_is_used() {
    let level = by_name("warning").unwrap();
    let t = toast(&level, &[]);
    assert!(t
        .to_xml()
        .contains("<audio src='ms-winsoundevent:Notification.Reminder'/>"));
}

#[test]
fn escaping_is_per_character_and_leaves_plain_text_alone() {
    let (a, b) = ("Tom & \"Jerry\"", " <it's>");
    assert_eq!(xml_escape(&format!("{a}{b}")), format!("{}{}", xml_escape(a), xml_escape(b)));
    assert_eq!(xml_escape("Build 42 passed: ok!"), "Build 42 passed: ok!");
    assert_ne!(xml_escape("a&b"), "a&b");
}

#[test]
fn file_uri_tail_is_clean() {
    let uri = path_to_file_uri("C:\\Mes docs\\\"é\" 'x'.png");
    assert_eq!(uri, "file:///C:/Mes%20docs/%22%C3%A9%22%20%27x%27.png");
    let tail = &uri[8..];
    assert!(!tail.contains('\\') && !tail.contains(' ') && !tail.contains('"') && !tail.contains('\''));
}

#[test]
fn user_text_adds_no_elements() {
    let level = by_name("info").unwrap();
    let buttons = vec![("<b>".to_string(), "x'/><evil".to_string()); 3];
    let mut t = toast(&level, &buttons);
    t.title = "</text><text>";
    t.message = "<script>";
    t.url = Some("<a>");
    t.icon = Some("<dir>\\i.png");
    let xml = t.to_xml();
    assert_eq!(xml.matches('<').count(), 11 + 1 + 2 + 3);
    assert_eq!(xml.matches("<text>").count(), 2);
    let visual = xml.find("<visual>").unwrap();
    let audio = xml.find("<audio ").unwrap();
    let actions = xml.find("<actions>").unwrap();
    assert!(visual < audio && audio < actions);
    assert!(xml.ends_with("</actions></toast>"));
}
