use reminder::level::{by_name, levels, names, Glyph};

#[test]
fn names_are_listed_in_help_order() {
    assert_eq!(names(), vec!["info", "success", "warning", "error"]);
}

#[test]
fn by_name_finds_each_level() {
    for name in names() {
        let level = by_name(name).expect("listed name");
        assert_eq!(level.name, name);
    }
    let error = by_name("error").unwrap();
    assert_eq!(error.glyph, Glyph::Cross);
    assert_eq!(error.colour, (0xC4, 0x2B, 0x1C));
    assert_eq!(error.sound, "ms-winsoundevent:Notification.Looping.Alarm2");
    let warning = by_name("warning").unwrap();
    assert_eq!(warning.glyph, Glyph::Bang);
    assert_eq!(warning.sound, "ms-winsoundevent:Notification.Reminder");
}

#[test]
fn by_name_is_exact() {
    assert!(by_name("Info").is_none());
    assert!(by_name("").is_none());
    assert!(by_name("informational").is_none());
    assert!(by_name("inf").is_none());
}

#[test]
fn levels_table() {
    let all = levels();
    assert_eq!(all.len(), 4);
    assert_eq!(all[0].name, "info");
    assert_eq!(all[0].colour, (0x00, 0x78, 0xD4));
    assert_eq!(all[1].glyph, Glyph::Check);
    assert_eq!(all[1].colour, (0x10, 0x7C, 0x10));
    assert_eq!(all[2].colour, (0xE8, 0xA1, 0x00));
    assert_eq!(all[0].sound, "ms-winsoundevent:Notification.Default");
}
