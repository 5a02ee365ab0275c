use reminder::cli::{parse_args, Args, Parsed, UsageError, AUMID};
use reminder::level::Glyph;

fn args(items: &[&str]) -> Vec<String> {
    items.iter().map(|s| s.to_string()).collect()
}

fn run(items: &[&str]) -> Args {
    match parse_args(args(items)) {
        Ok(Parsed::Run(a)) => a,
        other => panic!("expected a run, got {other:?}"),
    }
}

fn error(items: &[&str]) -> UsageError {
    match parse_args(args(items)) {
        Err(e) => e,
        Ok(p) => panic!("expected an error, got {p:?}"),
    }
}

#[test]
fn defaults() {
    let a = run(&["Time for a break"]);
    assert_eq!(a.message, "Time for a break");
    assert_eq!(a.title, "Reminder");
    assert_eq!(a.level.name, "info");
    assert_eq!(a.icon, None);
    assert!(!a.app_icon);
    assert_eq!(a.url, None);
    assert_eq!(a.on_click, None);
    assert!(a.buttons.is_empty());
    assert!(!a.silent);
    assert_eq!(a.delay, 0);
    assert_eq!(a.repeat, 1);
    assert_eq!(a.every, 60);
    assert_eq!(a.app_id, AUMID);
    assert_eq!(AUMID, "Reminder.App");
    assert!(!a.print_xml);
    assert_eq!(a.tag, None);
}

#[test]
fn all_options() {
    let a = run(&[
        "--title", "Build", "-l", "error", "--url", "https://x", "--button", " Logs = https://l?a=b ",
        "--silent", "--print-xml", "--app-id", "Other.App", "--tag", "ci", "--in", "300",
        "--repeat", "+4", "--every", "1800", "Build broke", "--icon", "C:\\i.png",
    ]);
    assert_eq!(a.message, "Build broke");
    assert_eq!(a.title, "Build");
    assert_eq!(a.level.glyph, Glyph::Cross);
    assert_eq!(a.url.as_deref(), Some("https://x"));
    assert_eq!(a.buttons, vec![("Logs".to_string(), "https://l?a=b".to_string())]);
    assert!(a.silent);
    assert!(a.print_xml);
    assert_eq!(a.app_id, "Other.App");
    assert_eq!(a.tag.as_deref(), Some("ci"));
    assert_eq!(a.delay, 300);
    assert_eq!(a.repeat, 4);
    assert_eq!(a.every, 1800);
    assert_eq!(a.icon.as_deref(), Some("C:\\i.png"));
}

#[test]
fn later_values_win_and_icon_app_is_the_app_icon() {
    let a = run(&["m", "--title", "one", "--title", "two", "--icon", "app", "--level", "success"]);
    assert_eq!(a.title, "two");
    assert!(a.app_icon);
    assert_eq!(a.icon, None);
    assert_eq!(a.level.name, "success");
}

#[test]
fn on_click_takes_the_rest() {
    let a = run(&["Tests failed", "--on-click", "py", "rerun.py", "--level", "error"]);
    assert_eq!(a.on_click, Some(args(&["py", "rerun.py", "--level", "error"])));
    assert_eq!(a.level.name, "info");
}

#[test]
fn button_splits_on_the_first_equals() {
    let a = run(&["m", "--button", "Open=https://x/?a=1=2", "--button", "B=c"]);
    assert_eq!(
        a.buttons,
        vec![
            ("Open".to_string(), "https://x/?a=1=2".to_string()),
            ("B".to_string(), "c".to_string())
        ]
    );
}

#[test]
fn subcommands() {
    assert!(matches!(parse_args(args(&["-h"])), Ok(Parsed::Help)));
    assert!(matches!(parse_args(args(&["msg", "--help"])), Ok(Parsed::Help)));
    assert!(matches!(parse_args(args(&["-V"])), Ok(Parsed::Version)));
    assert!(matches!(parse_args(args(&["--version"])), Ok(Parsed::Version)));
    assert!(matches!(parse_args(args(&["--register"])), Ok(Parsed::Register)));
    assert!(matches!(parse_args(args(&["--unregister"])), Ok(Parsed::Unregister)));
    assert!(matches!(parse_args(args(&["--register-protocol"])), Ok(Parsed::RegisterProtocol)));
    assert!(matches!(
        parse_args(args(&["--unregister-protocol"])),
        Ok(Parsed::UnregisterProtocol)
    ));
    assert!(matches!(parse_args(args(&["--protocol-status"])), Ok(Parsed::ProtocolStatus)));
    assert!(matches!(parse_args(args(&["--list-actions"])), Ok(Parsed::ListActions)));
    match parse_args(args(&["--open-uri", "reminder://run/x"])) {
        Ok(Parsed::OpenUri(u)) => assert_eq!(u, "reminder://run/x"),
        other => panic!("{other:?}"),
    }
}

#[test]
fn a_subcommand_stops_at_the_first_error_free_point() {
    // The scan stops at --help before it sees the bad option after it.
    assert!(matches!(parse_args(args(&["--help", "--bogus"])), Ok(Parsed::Help)));
    // An error before it wins.
    assert!(matches!(error(&["--bogus", "--help"]), UsageError::UnknownOption(o) if o == "--bogus"));
}

#[test]
fn missing_values() {
    assert!(matches!(error(&["--open-uri"]), UsageError::MissingValue("--open-uri")));
    assert!(matches!(error(&["m", "--title"]), UsageError::MissingValue("--title")));
    assert!(matches!(error(&["m", "-l"]), UsageError::MissingValue("--level")));
    assert!(matches!(error(&["m", "--in"]), UsageError::MissingValue("--in")));
}

#[test]
fn numbers() {
    assert!(matches!(error(&["m", "--in", "soon"]), UsageError::NotANumber("--in", r) if r == "soon"));
    assert!(matches!(error(&["m", "--repeat", "-1"]), UsageError::NotANumber("--repeat", r) if r == "-1"));
    assert!(matches!(
        error(&["m", "--repeat", "4294967296"]),
        UsageError::NotANumber("--repeat", r) if r == "4294967296"
    ));
    assert_eq!(run(&["m", "--repeat", "4294967295"]).repeat, u32::MAX);
    assert_eq!(run(&["m", "--every", "18446744073709551615"]).every, u64::MAX);
    assert!(matches!(error(&["m", "--every", ""]), UsageError::NotANumber("--every", r) if r.is_empty()));
    assert!(matches!(error(&["m", "--in", "+"]), UsageError::NotANumber("--in", r) if r == "+"));
}

#[test]
fn on_click_needs_a_command() {
    assert!(matches!(error(&["m", "--on-click"]), UsageError::OnClickNeedsCommand));
}

#[test]
fn unknown_options_and_extra_arguments() {
    assert!(matches!(error(&["m", "--bogus"]), UsageError::UnknownOption(o) if o == "--bogus"));
    assert!(matches!(error(&["-x"]), UsageError::UnknownOption(o) if o == "-x"));
    assert!(matches!(error(&["one", "two"]), UsageError::ExtraArgument(o) if o == "two"));
    // A lone dash is a message, not an option.
    assert_eq!(run(&["-"]).message, "-");
}

#[test]
fn message_required() {
    assert!(matches!(error(&[]), UsageError::MessageRequired));
    assert!(matches!(error(&["--silent"]), UsageError::MessageRequired));
}

#[test]
fn invalid_level() {
    assert!(matches!(error(&["m", "--level", "fatal"]), UsageError::InvalidLevel(n) if n == "fatal"));
}

#[test]
fn bad_buttons() {
    assert!(matches!(error(&["m", "--button", "nolabel"]), UsageError::BadButton(s) if s == "nolabel"));
    assert!(matches!(error(&["m", "--button", " =x"]), UsageError::BadButton(s) if s == " =x"));
    assert!(matches!(error(&["m", "--button", "x= "]), UsageError::BadButton(s) if s == "x= "));
}

#[test]
fn too_many_buttons() {
    let mut items = vec!["m"];
    for _ in 0..6 {
        items.push("--button");
        items.push("a=b");
    }
    assert!(matches!(error(&items), UsageError::TooManyButtons));
    items.truncate(11);
    assert_eq!(run(&items).buttons.len(), 5);
}

#[test]
fn zero_repeat() {
    assert!(matches!(error(&["m", "--repeat", "0"]), UsageError::ZeroRepeat));
}

#[test]
fn errors_come_in_the_order_they_are_checked() {
    // A missing message is reported before a bad level, a bad level before
    // a bad button, buttons before the repeat count.
    assert!(matches!(error(&["--level", "x"]), UsageError::MessageRequired));
    assert!(matches!(error(&["m", "--level", "x", "--button", "y"]), UsageError::InvalidLevel(_)));
    assert!(matches!(error(&["m", "--button", "y", "--repeat", "0"]), UsageError::BadButton(_)));
}

#[test]
fn usage_error_messages() {
    assert_eq!(error(&["m", "--title"]).message(), "--title needs a value");
    assert_eq!(error(&["m", "--in", "soon"]).message(), "--in expects a number, got \"soon\"");
    assert_eq!(error(&["m", "--on-click"]).message(), "--on-click needs at least one argument");
    assert_eq!(error(&["m", "--bogus"]).message(), "unknown option \"--bogus\"");
    assert_eq!(
        error(&["one", "two \"q\""]).message(),
        "unexpected extra argument \"two \\\"q\\\"\" (quote the message?)"
    );
    assert_eq!(error(&[]).message(), "a message is required");
    assert_eq!(
        error(&["m", "--level", "fatal"]).message(),
        "invalid level \"fatal\" (choose from info, success, warning, error)"
    );
    assert_eq!(error(&["m", "--button", "x"]).message(), "--button expects LABEL=URL, got \"x\"");
    assert_eq!(error(&["m", "--repeat", "0"]).message(), "--repeat must be at least 1");
    assert_eq!(
        UsageError::TooManyButtons.message(),
        "Windows allows at most 5 buttons per notification"
    );
    assert_eq!(
        UsageError::IconNotFound("C:\\x.png".to_string()).message(),
        "--icon file not found: C:\\x.png"
    );
}

#[test]
fn button_count_up_to_five() {
    for k in 0..8 {
        let mut items = vec!["Pipeline failed"];
        for _ in 0..k {
            items.push("--button");
            items.push("L=https://x");
        }
        if k <= 5 {
            let a = run(&items);
            assert_eq!(a.buttons, vec![("L".to_string(), "https://x".to_string()); k]);
        } else {
            assert!(matches!(error(&items), UsageError::TooManyButtons));
        }
    }
}
