//! Command-line parsing.
//!
//! `parse_args` reads the arguments (without the program name) into either
//! a reminder to send or one of the subcommands. Whether an `--icon` file
//! exists is the caller's to check, after a successful parse.

use vstd::prelude::*;

use crate::level::{by_name, first_named, level_named, level_names, level_table, names, Level};
use crate::text::{
    chars_of, find_char, index_of, lemma_parse_unsigned_range, parse_unsigned, parse_unsigned_upto, same_text, string_of,
    trim_range, trimmed,
};

verus! {

/// Our AppUserModelId, the default identity toasts are shown under.
pub const AUMID: &'static str = "Reminder.App";

// ---------------------------------------------------------------- model

/// The options gathered while scanning the arguments.
pub struct Options {
    pub message: Option<Seq<char>>,
    pub title: Seq<char>,
    pub level_name: Seq<char>,
    pub icon: Option<Seq<char>>,
    pub app_icon: bool,
    pub url: Option<Seq<char>>,
    pub on_click: Option<Seq<Seq<char>>>,
    pub button_specs: Seq<Seq<char>>,
    pub silent: bool,
    pub delay: u64,
    pub repeat: u32,
    pub every: u64,
    pub app_id: Seq<char>,
    pub print_xml: bool,
    pub tag: Option<Seq<char>>,
}

/// A reminder to send, as the model sees it.
pub struct RunOptions {
    pub message: Seq<char>,
    pub title: Seq<char>,
    pub level: Level,
    pub icon: Option<Seq<char>>,
    pub app_icon: bool,
    pub url: Option<Seq<char>>,
    pub on_click: Option<Seq<Seq<char>>>,
    pub buttons: Seq<(Seq<char>, Seq<char>)>,
    pub silent: bool,
    pub delay: u64,
    pub repeat: u32,
    pub every: u64,
    pub app_id: Seq<char>,
    pub print_xml: bool,
    pub tag: Option<Seq<char>>,
}

/// A usage error, as the model sees it.
pub enum Fault {
    MissingValue(Seq<char>),
    NotANumber(Seq<char>, Seq<char>),
    OnClickNeedsCommand,
    UnknownOption(Seq<char>),
    ExtraArgument(Seq<char>),
    MessageRequired,
    InvalidLevel(Seq<char>),
    BadButton(Seq<char>),
    TooManyButtons,
    ZeroRepeat,
    IconNotFound(Seq<char>),
}

/// What the arguments ask for, as the model sees it.
pub enum Outcome {
    Run(RunOptions),
    Help,
    Version,
    Register,
    Unregister,
    RegisterProtocol,
    UnregisterProtocol,
    ProtocolStatus,
    ListActions,
    OpenUri(Seq<char>),
    Fail(Fault),
}

/// Where scanning the arguments ends: with every option gathered, or early
/// with a subcommand or an error.
pub enum Scan {
    Done(Options),
    Stop(Outcome),
}

/// The options before any argument is read.
pub open spec fn initial_options() -> Options {
    Options {
        message: None,
        title: "Reminder"@,
        level_name: "info"@,
        icon: None,
        app_icon: false,
        url: None,
        on_click: None,
        button_specs: Seq::empty(),
        silent: false,
        delay: 0,
        repeat: 1,
        every: 60,
        app_id: AUMID@,
        print_xml: false,
        tag: None,
    }
}

/// Reads the arguments from `i` on, with `o` gathered so far. A flag that
/// takes a value takes the next argument, whatever it is.
pub open spec fn scan(args: Seq<Seq<char>>, i: int, o: Options) -> Scan
    decreases args.len() - i,
{
    if i < 0 || i >= args.len() {
        Scan::Done(o)
    } else {
        let a = args[i];
        let has_value = i + 1 < args.len();
        let v = args[i + 1];
        if a == "-h"@ || a == "--help"@ {
            Scan::Stop(Outcome::Help)
        } else if a == "-V"@ || a == "--version"@ {
            Scan::Stop(Outcome::Version)
        } else if a == "--register"@ {
            Scan::Stop(Outcome::Register)
        } else if a == "--unregister"@ {
            Scan::Stop(Outcome::Unregister)
        } else if a == "--register-protocol"@ {
            Scan::Stop(Outcome::RegisterProtocol)
        } else if a == "--unregister-protocol"@ {
            Scan::Stop(Outcome::UnregisterProtocol)
        } else if a == "--protocol-status"@ {
            Scan::Stop(Outcome::ProtocolStatus)
        } else if a == "--list-actions"@ {
            Scan::Stop(Outcome::ListActions)
        } else if a == "--open-uri"@ {
            if has_value {
                Scan::Stop(Outcome::OpenUri(v))
            } else {
                Scan::Stop(Outcome::Fail(Fault::MissingValue("--open-uri"@)))
            }
        } else if a == "--on-click"@ {
            // Everything after --on-click is the command.
            if has_value {
                Scan::Done(Options { on_click: Some(args.skip(i + 1)), ..o })
            } else {
                Scan::Stop(Outcome::Fail(Fault::OnClickNeedsCommand))
            }
        } else if a == "--silent"@ {
            scan(args, i + 1, Options { silent: true, ..o })
        } else if a == "--print-xml"@ {
            scan(args, i + 1, Options { print_xml: true, ..o })
        } else if a == "--title"@ || a == "-l"@ || a == "--level"@ || a == "--icon"@ || a
            == "--url"@ || a == "--button"@ || a == "--app-id"@ || a == "--tag"@ || a == "--in"@
            || a == "--repeat"@ || a == "--every"@ {
            let flag = if a == "-l"@ {
                "--level"@
            } else {
                a
            };
            if !has_value {
                Scan::Stop(Outcome::Fail(Fault::MissingValue(flag)))
            } else {
                match with_value(o, a, v) {
                    Some(next) => scan(args, i + 2, next),
                    None => Scan::Stop(Outcome::Fail(Fault::NotANumber(flag, v))),
                }
            }
        } else if a.len() > 1 && a[0] == '-' {
            Scan::Stop(Outcome::Fail(Fault::UnknownOption(a)))
        } else if o.message is Some {
            Scan::Stop(Outcome::Fail(Fault::ExtraArgument(a)))
        } else {
            scan(args, i + 1, Options { message: Some(a), ..o })
        }
    }
}

/// The options after flag `a` with value `v`; None when a number was
/// expected and `v` is not one.
pub open spec fn with_value(o: Options, a: Seq<char>, v: Seq<char>) -> Option<Options> {
    if a == "--title"@ {
        Some(Options { title: v, ..o })
    } else if a == "-l"@ || a == "--level"@ {
        Some(Options { level_name: v, ..o })
    } else if a == "--icon"@ {
        if v == "app"@ {
            Some(Options { app_icon: true, ..o })
        } else {
            Some(Options { icon: Some(v), ..o })
        }
    } else if a == "--url"@ {
        Some(Options { url: Some(v), ..o })
    } else if a == "--button"@ {
        Some(Options { button_specs: o.button_specs.push(v), ..o })
    } else if a == "--app-id"@ {
        Some(Options { app_id: v, ..o })
    } else if a == "--tag"@ {
        Some(Options { tag: Some(v), ..o })
    } else if a == "--in"@ {
        match parse_unsigned(v, u64::MAX as int) {
            Some(n) => Some(Options { delay: n as u64, ..o }),
            None => None,
        }
    } else if a == "--repeat"@ {
        match parse_unsigned(v, u32::MAX as int) {
            Some(n) => Some(Options { repeat: n as u32, ..o }),
            None => None,
        }
    } else {
        match parse_unsigned(v, u64::MAX as int) {
            Some(n) => Some(Options { every: n as u64, ..o }),
            None => None,
        }
    }
}

/// A `LABEL=URL` button: split on the first `=`, both sides trimmed and
/// non-empty.
pub open spec fn button_of(spec: Seq<char>) -> Option<(Seq<char>, Seq<char>)> {
    let k = index_of(spec, '=');
    if k >= spec.len() {
        None
    } else {
        let label = trimmed(spec.take(k));
        let target = trimmed(spec.skip(k + 1));
        if label.len() > 0 && target.len() > 0 {
            Some((label, target))
        } else {
            None
        }
    }
}

/// The buttons for `specs`, or the first spec that is not `LABEL=URL`.
pub open spec fn buttons_of(specs: Seq<Seq<char>>) -> Result<Seq<(Seq<char>, Seq<char>)>, Seq<char>>
    decreases specs.len(),
{
    if specs.len() == 0 {
        Ok(Seq::empty())
    } else {
        match buttons_of(specs.drop_last()) {
            Err(bad) => Err(bad),
            Ok(done) => match button_of(specs.last()) {
                Some(b) => Ok(done.push(b)),
                None => Err(specs.last()),
            },
        }
    }
}

/// Checks the gathered options: a message is required, the level must be
/// known, buttons must be `LABEL=URL` and at most five, and at least one
/// reminder must be sent.
pub open spec fn finish(o: Options) -> Outcome {
    match o.message {
        None => Outcome::Fail(Fault::MessageRequired),
        Some(message) => match level_named(o.level_name) {
            None => Outcome::Fail(Fault::InvalidLevel(o.level_name)),
            Some(level) => match buttons_of(o.button_specs) {
                Err(bad) => Outcome::Fail(Fault::BadButton(bad)),
                Ok(buttons) => if buttons.len() > 5 {
                    Outcome::Fail(Fault::TooManyButtons)
                } else if o.repeat == 0 {
                    Outcome::Fail(Fault::ZeroRepeat)
                } else {
                    Outcome::Run(
                        RunOptions {
                            message,
                            title: o.title,
                            level,
                            icon: o.icon,
                            app_icon: o.app_icon,
                            url: o.url,
                            on_click: o.on_click,
                            buttons,
                            silent: o.silent,
                            delay: o.delay,
                            repeat: o.repeat,
                            every: o.every,
                            app_id: o.app_id,
                            print_xml: o.print_xml,
                            tag: o.tag,
                        },
                    )
                },
            },
        },
    }
}

/// What the arguments `args` ask for.
pub open spec fn parse_outcome(args: Seq<Seq<char>>) -> Outcome {
    match scan(args, 0, initial_options()) {
        Scan::Done(o) => finish(o),
        Scan::Stop(out) => out,
    }
}

// ---------------------------------------------------------------- exec

/// A reminder to send.
#[derive(Debug)]
pub struct Args {
    pub message: String,
    pub title: String,
    pub level: Level,
    pub icon: Option<String>,
    pub app_icon: bool,
    pub url: Option<String>,
    pub on_click: Option<Vec<String>>,
    pub buttons: Vec<(String, String)>,
    pub silent: bool,
    pub delay: u64,
    pub repeat: u32,
    pub every: u64,
    pub app_id: String,
    pub print_xml: bool,
    pub tag: Option<String>,
}

/// What to do after parsing: run, or handle a subcommand.
#[derive(Debug)]
pub enum Parsed {
    Run(Args),
    Help,
    Version,
    Register,
    Unregister,
    RegisterProtocol,
    UnregisterProtocol,
    ProtocolStatus,
    ListActions,
    OpenUri(String),
}

/// A usage error, reported like a CLI should and exiting 2.
#[derive(Debug)]
pub enum UsageError {
    /// `{flag} needs a value`
    MissingValue(&'static str),
    /// `{flag} expects a number, got {raw:?}`
    NotANumber(&'static str, String),
    /// `--on-click needs at least one argument`
    OnClickNeedsCommand,
    /// `unknown option {other:?}`
    UnknownOption(String),
    /// `unexpected extra argument {other:?} (quote the message?)`
    ExtraArgument(String),
    /// `a message is required`
    MessageRequired,
    /// `invalid level {name:?} (choose from ...)`
    InvalidLevel(String),
    /// `--button expects LABEL=URL, got {spec:?}`
    BadButton(String),
    /// `Windows allows at most 5 buttons per notification`
    TooManyButtons,
    /// `--repeat must be at least 1`
    ZeroRepeat,
    /// `--icon file not found: {path}` (checked by the caller)
    IconNotFound(String),
}

/// The characters of each string.
pub open spec fn strings_view(v: Seq<String>) -> Seq<Seq<char>> {
    v.map_values(|s: String| s@)
}

/// An optional string's characters.
pub open spec fn opt_view(o: Option<String>) -> Option<Seq<char>> {
    match o {
        Some(s) => Some(s@),
        None => None,
    }
}

/// The model of a reminder to send.
pub open spec fn args_view(a: Args) -> RunOptions {
    RunOptions {
        message: a.message@,
        title: a.title@,
        level: a.level,
        icon: opt_view(a.icon),
        app_icon: a.app_icon,
        url: opt_view(a.url),
        on_click: match a.on_click {
            Some(v) => Some(strings_view(v@)),
            None => None,
        },
        buttons: a.buttons@.map_values(|b: (String, String)| (b.0@, b.1@)),
        silent: a.silent,
        delay: a.delay,
        repeat: a.repeat,
        every: a.every,
        app_id: a.app_id@,
        print_xml: a.print_xml,
        tag: opt_view(a.tag),
    }
}

/// The model of a usage error.
pub open spec fn fault_view(e: UsageError) -> Fault {
    match e {
        UsageError::MissingValue(flag) => Fault::MissingValue(flag@),
        UsageError::NotANumber(flag, raw) => Fault::NotANumber(flag@, raw@),
        UsageError::OnClickNeedsCommand => Fault::OnClickNeedsCommand,
        UsageError::UnknownOption(a) => Fault::UnknownOption(a@),
        UsageError::ExtraArgument(a) => Fault::ExtraArgument(a@),
        UsageError::MessageRequired => Fault::MessageRequired,
        UsageError::InvalidLevel(n) => Fault::InvalidLevel(n@),
        UsageError::BadButton(b) => Fault::BadButton(b@),
        UsageError::TooManyButtons => Fault::TooManyButtons,
        UsageError::ZeroRepeat => Fault::ZeroRepeat,
        UsageError::IconNotFound(p) => Fault::IconNotFound(p@),
    }
}

/// The model of a parse result.
pub open spec fn outcome_view(r: Result<Parsed, UsageError>) -> Outcome {
    match r {
        Ok(Parsed::Run(a)) => Outcome::Run(args_view(a)),
        Ok(Parsed::Help) => Outcome::Help,
        Ok(Parsed::Version) => Outcome::Version,
        Ok(Parsed::Register) => Outcome::Register,
        Ok(Parsed::Unregister) => Outcome::Unregister,
        Ok(Parsed::RegisterProtocol) => Outcome::RegisterProtocol,
        Ok(Parsed::UnregisterProtocol) => Outcome::UnregisterProtocol,
        Ok(Parsed::ProtocolStatus) => Outcome::ProtocolStatus,
        Ok(Parsed::ListActions) => Outcome::ListActions,
        Ok(Parsed::OpenUri(u)) => Outcome::OpenUri(u@),
        Err(e) => Outcome::Fail(fault_view(e)),
    }
}

// ---------------------------------------------------------------- messages

/// `s` as std's `Debug` for `str` writes it (the `{:?}` of `format!`).
pub uninterp spec fn debug_quoted(s: Seq<char>) -> Seq<char>;

/// Formats `s` with std's `Debug` for `str`, as `format!("{:?}", s)` does:
/// in double quotes, with quotes, backslashes and unprintable characters
/// escaped. Trusted: the contract says only that the result is a function of
/// `s` alone, named `debug_quoted`; its text is std's and not stated here.
#[verifier::external_body]
fn debug_string(s: &str) -> (r: String)
    ensures
        r@ == debug_quoted(s@),
{
    format!("{:?}", s)
}

/// The names joined with `, ` between consecutive ones.
pub open spec fn comma_list(names: Seq<Seq<char>>) -> Seq<char>
    decreases names.len(),
{
    if names.len() == 0 {
        Seq::empty()
    } else if names.len() == 1 {
        names[0]
    } else {
        comma_list(names.drop_last()) + ", "@ + names.last()
    }
}

/// The text reported for a usage error.
pub open spec fn fault_message(f: Fault) -> Seq<char> {
    match f {
        Fault::MissingValue(flag) => flag + " needs a value"@,
        Fault::NotANumber(flag, raw) => flag + " expects a number, got "@ + debug_quoted(raw),
        Fault::OnClickNeedsCommand => "--on-click needs at least one argument"@,
        Fault::UnknownOption(a) => "unknown option "@ + debug_quoted(a),
        Fault::ExtraArgument(a) => "unexpected extra argument "@ + debug_quoted(a)
            + " (quote the message?)"@,
        Fault::MessageRequired => "a message is required"@,
        Fault::InvalidLevel(n) => "invalid level "@ + debug_quoted(n) + " (choose from "@
            + comma_list(level_names()) + ")"@,
        Fault::BadButton(b) => "--button expects LABEL=URL, got "@ + debug_quoted(b),
        Fault::TooManyButtons => "Windows allows at most 5 buttons per notification"@,
        Fault::ZeroRepeat => "--repeat must be at least 1"@,
        Fault::IconNotFound(p) => "--icon file not found: "@ + p,
    }
}

/// The level names, as `comma_list(level_names())`.
fn level_name_list() -> (res: String)
    ensures
        res@ == comma_list(level_names()),
{
    let all = names();
    let ghost ns = all@.map_values(|s: &'static str| s@);
    let mut out = String::new();
    let mut i: usize = 0;
    assert(ns.take(0) =~= Seq::<Seq<char>>::empty());
    while i < all.len()
        invariant
            i <= all@.len(),
            ns == all@.map_values(|s: &'static str| s@),
            ns == level_names(),
            out@ == comma_list(ns.take(i as int)),
        decreases all.len() - i,
    {
        let ghost prev = ns.take(i as int);
        assert(ns.take(i + 1).drop_last() =~= prev);
        assert(ns.take(i + 1).last() == all@[i as int]@);
        if i > 0 {
            out.append(", ");
        } else {
            assert(prev.len() == 0);
            assert(out@ =~= Seq::<char>::empty());
        }
        out.append(all[i]);
        proof {
            if i == 0 {
                assert(out@ =~= all@[0]@);
            }
        }
        i = i + 1;
    }
    assert(ns.take(all@.len() as int) =~= ns);
    out
}

impl UsageError {
    /// The text reported for this error.
    pub fn message(&self) -> (m: String)
        ensures
            m@ == fault_message(fault_view(*self)),
    {
        match self {
            UsageError::MissingValue(flag) => {
                let mut m = String::from_str(flag);
                m.append(" needs a value");
                m
            },
            UsageError::NotANumber(flag, raw) => {
                let mut m = String::from_str(flag);
                m.append(" expects a number, got ");
                m.append(debug_string(raw.as_str()).as_str());
                m
            },
            UsageError::OnClickNeedsCommand => String::from_str(
                "--on-click needs at least one argument",
            ),
            UsageError::UnknownOption(a) => {
                let mut m = String::from_str("unknown option ");
                m.append(debug_string(a.as_str()).as_str());
                m
            },
            UsageError::ExtraArgument(a) => {
                let mut m = String::from_str("unexpected extra argument ");
                m.append(debug_string(a.as_str()).as_str());
                m.append(" (quote the message?)");
                m
            },
            UsageError::MessageRequired => String::from_str("a message is required"),
            UsageError::InvalidLevel(n) => {
                let mut m = String::from_str("invalid level ");
                m.append(debug_string(n.as_str()).as_str());
                m.append(" (choose from ");
                m.append(level_name_list().as_str());
                m.append(")");
                m
            },
            UsageError::BadButton(b) => {
                let mut m = String::from_str("--button expects LABEL=URL, got ");
                m.append(debug_string(b.as_str()).as_str());
                m
            },
            UsageError::TooManyButtons => String::from_str(
                "Windows allows at most 5 buttons per notification",
            ),
            UsageError::ZeroRepeat => String::from_str("--repeat must be at least 1"),
            UsageError::IconNotFound(p) => {
                let mut m = String::from_str("--icon file not found: ");
                m.append(p.as_str());
                m
            },
        }
    }
}

/// The options gathered so far while scanning.
struct Gathered {
    message: Option<String>,
    title: String,
    level_name: String,
    icon: Option<String>,
    app_icon: bool,
    url: Option<String>,
    on_click: Option<Vec<String>>,
    button_specs: Vec<String>,
    silent: bool,
    delay: u64,
    repeat: u32,
    every: u64,
    app_id: String,
    print_xml: bool,
    tag: Option<String>,
}

impl Gathered {
    spec fn model(&self) -> Options {
        Options {
            message: opt_view(self.message),
            title: self.title@,
            level_name: self.level_name@,
            icon: opt_view(self.icon),
            app_icon: self.app_icon,
            url: opt_view(self.url),
            on_click: match self.on_click {
                Some(v) => Some(strings_view(v@)),
                None => None,
            },
            button_specs: strings_view(self.button_specs@),
            silent: self.silent,
            delay: self.delay,
            repeat: self.repeat,
            every: self.every,
            app_id: self.app_id@,
            print_xml: self.print_xml,
            tag: opt_view(self.tag),
        }
    }
}

/// Copies of `argv[from..]`.
fn rest_of(argv: &Vec<String>, from: usize) -> (res: Vec<String>)
    requires
        from <= argv@.len(),
    ensures
        strings_view(res@) == strings_view(argv@).skip(from as int),
{
    let mut out: Vec<String> = Vec::new();
    let mut i = from;
    while i < argv.len()
        invariant
            from <= i <= argv@.len(),
            strings_view(out@) == strings_view(argv@).subrange(from as int, i as int),
        decreases argv.len() - i,
    {
        let copy = argv[i].clone();
        assert(copy@ == strings_view(argv@)[i as int]);
        let ghost prev = out@;
        assert(strings_view(prev).len() == prev.len());
        assert(prev.len() == i - from);
        out.push(copy);
        assert forall|k: int| 0 <= k < out@.len() implies #[trigger] strings_view(out@)[k]
            == strings_view(argv@).subrange(from as int, i + 1)[k] by {
            if k < prev.len() {
                assert(out@[k] == prev[k]);
                assert(strings_view(prev)[k] == strings_view(argv@).subrange(from as int, i as int)[k]);
            } else {
                assert(out@[k] == copy);
            }
        }
        assert(strings_view(out@) =~= strings_view(argv@).subrange(from as int, i + 1));
        i = i + 1;
    }
    assert(strings_view(argv@).subrange(from as int, argv@.len() as int) =~= strings_view(
        argv@,
    ).skip(from as int));
    out
}

/// Applies flag `a` with value `v` to the gathered options, as
/// `with_value` describes; None when a number was expected and `v` is not
/// one.
fn apply_value(g: Gathered, a: &str, v: String) -> (res: Option<Gathered>)
    requires
        a@ == "--title"@ || a@ == "-l"@ || a@ == "--level"@ || a@ == "--icon"@ || a@ == "--url"@
            || a@ == "--button"@ || a@ == "--app-id"@ || a@ == "--tag"@ || a@ == "--in"@ || a@
            == "--repeat"@ || a@ == "--every"@,
    ensures
        match res {
            Some(next) => with_value(g.model(), a@, v@) == Some(next.model()),
            None => with_value(g.model(), a@, v@) is None,
        },
{
    let mut g = g;
    let ghost before = g.model();
    if same_text(a, "--title") {
        g.title = v;
    } else if same_text(a, "-l") || same_text(a, "--level") {
        g.level_name = v;
    } else if same_text(a, "--icon") {
        if same_text(v.as_str(), "app") {
            g.app_icon = true;
        } else {
            g.icon = Some(v);
        }
    } else if same_text(a, "--url") {
        g.url = Some(v);
    } else if same_text(a, "--button") {
        g.button_specs.push(v);
        assert(strings_view(g.button_specs@) =~= before.button_specs.push(v@));
    } else if same_text(a, "--app-id") {
        g.app_id = v;
    } else if same_text(a, "--tag") {
        g.tag = Some(v);
    } else if same_text(a, "--in") {
        match parse_unsigned_upto(v.as_str(), u64::MAX) {
            Some(n) => g.delay = n,
            None => return None,
        }
    } else if same_text(a, "--repeat") {
        match parse_unsigned_upto(v.as_str(), u32::MAX as u64) {
            Some(n) => g.repeat = n as u32,
            None => return None,
        }
    } else {
        match parse_unsigned_upto(v.as_str(), u64::MAX) {
            Some(n) => g.every = n,
            None => return None,
        }
    }
    Some(g)
}

/// The flag named in errors about `a`: `-l` is reported as `--level`.
fn flag_name(a: &str) -> (res: &'static str)
    requires
        a@ == "--title"@ || a@ == "-l"@ || a@ == "--level"@ || a@ == "--icon"@ || a@ == "--url"@
            || a@ == "--button"@ || a@ == "--app-id"@ || a@ == "--tag"@ || a@ == "--in"@ || a@
            == "--repeat"@ || a@ == "--every"@,
    ensures
        res@ == (if a@ == "-l"@ {
            "--level"@
        } else {
            a@
        }),
{
    proof {
        reveal_strlit("-l");
        reveal_strlit("--title");
        reveal_strlit("--level");
        reveal_strlit("--icon");
        reveal_strlit("--url");
        reveal_strlit("--button");
        reveal_strlit("--app-id");
        reveal_strlit("--tag");
        reveal_strlit("--in");
        reveal_strlit("--repeat");
        reveal_strlit("--every");
    }
    if same_text(a, "--title") {
        "--title"
    } else if same_text(a, "-l") || same_text(a, "--level") {
        "--level"
    } else if same_text(a, "--icon") {
        "--icon"
    } else if same_text(a, "--url") {
        "--url"
    } else if same_text(a, "--button") {
        "--button"
    } else if same_text(a, "--app-id") {
        "--app-id"
    } else if same_text(a, "--tag") {
        "--tag"
    } else if same_text(a, "--in") {
        "--in"
    } else if same_text(a, "--repeat") {
        "--repeat"
    } else {
        "--every"
    }
}

/// Whether `a` is a flag that takes a value.
fn takes_value(a: &str) -> (r: bool)
    ensures
        r == (a@ == "--title"@ || a@ == "-l"@ || a@ == "--level"@ || a@ == "--icon"@ || a@
            == "--url"@ || a@ == "--button"@ || a@ == "--app-id"@ || a@ == "--tag"@ || a@
            == "--in"@ || a@ == "--repeat"@ || a@ == "--every"@),
{
    same_text(a, "--title") || same_text(a, "-l") || same_text(a, "--level") || same_text(
        a,
        "--icon",
    ) || same_text(a, "--url") || same_text(a, "--button") || same_text(a, "--app-id")
        || same_text(a, "--tag") || same_text(a, "--in") || same_text(a, "--repeat") || same_text(
        a,
        "--every",
    )
}

/// The model of a list of buttons.
pub open spec fn buttons_view(b: Seq<(String, String)>) -> Seq<(Seq<char>, Seq<char>)> {
    b.map_values(|p: (String, String)| (p.0@, p.1@))
}

/// Reads one `LABEL=URL` button spec.
fn button_from(spec: &String) -> (res: Option<(String, String)>)
    ensures
        match res {
            Some(b) => button_of(spec@) == Some((b.0@, b.1@)),
            None => button_of(spec@) is None,
        },
{
    let chars = chars_of(spec.as_str());
    let k = find_char(chars.as_slice(), '=');
    if k == chars.len() {
        return None;
    }
    let label = trim_range(chars.as_slice(), 0, k);
    let target = trim_range(chars.as_slice(), k + 1, chars.len());
    assert(chars@.subrange(0, k as int) == chars@.take(k as int));
    assert(chars@.subrange(k + 1, chars@.len() as int) == chars@.skip(k + 1));
    if label.len() > 0 && target.len() > 0 {
        Some((string_of(label.as_slice()), string_of(target.as_slice())))
    } else {
        None
    }
}

/// The buttons for `specs`, or a copy of the first spec that is not
/// `LABEL=URL`.
fn buttons_from(specs: &Vec<String>) -> (res: Result<Vec<(String, String)>, String>)
    ensures
        res is Ok ==> buttons_of(strings_view(specs@)) == Ok::<_, Seq<char>>(
            buttons_view(res->Ok_0@),
        ),
        res is Err ==> buttons_of(strings_view(specs@)) == Err::<Seq<(Seq<char>, Seq<char>)>, _>(
            res->Err_0@,
        ),
{
    let ghost sv = strings_view(specs@);
    let mut out: Vec<(String, String)> = Vec::new();
    let mut i: usize = 0;
    assert(sv.take(0) =~= Seq::<Seq<char>>::empty());
    assert(buttons_view(out@) =~= Seq::<(Seq<char>, Seq<char>)>::empty());
    while i < specs.len()
        invariant
            sv == strings_view(specs@),
            i <= specs@.len(),
            buttons_of(sv.take(i as int)) == Ok::<_, Seq<char>>(buttons_view(out@)),
        decreases specs.len() - i,
    {
        let ghost t = sv.take(i + 1);
        assert(t.drop_last() == sv.take(i as int));
        assert(t.last() == specs@[i as int]@);
        match button_from(&specs[i]) {
            Some(b) => {
                let ghost prev = out@;
                out.push(b);
                assert(buttons_view(out@) =~= buttons_view(prev).push((b.0@, b.1@)));
            },
            None => {
                proof {
                    lemma_buttons_of_err_extends(sv, i + 1);
                }
                return Err(specs[i].clone());
            },
        }
        i = i + 1;
    }
    assert(sv.take(specs@.len() as int) == sv);
    Ok(out)
}

proof fn lemma_buttons_of_err_extends(specs: Seq<Seq<char>>, k: int)
    requires
        0 <= k <= specs.len(),
        buttons_of(specs.take(k)) is Err,
    ensures
        buttons_of(specs) == buttons_of(specs.take(k)),
    decreases specs.len() - k,
{
    if k < specs.len() {
        assert(specs.take(k + 1).drop_last() == specs.take(k));
        lemma_buttons_of_err_extends(specs, k + 1);
    } else {
        assert(specs.take(k) == specs);
    }
}

/// Reads the arguments (without the program name).
pub fn parse_args(argv: Vec<String>) -> (res: Result<Parsed, UsageError>)
    ensures
        outcome_view(res) == parse_outcome(strings_view(argv@)),
{
    let ghost args = strings_view(argv@);
    let mut g = Gathered {
        message: None,
        title: String::from_str("Reminder"),
        level_name: String::from_str("info"),
        icon: None,
        app_icon: false,
        url: None,
        on_click: None,
        button_specs: Vec::new(),
        silent: false,
        delay: 0,
        repeat: 1,
        every: 60,
        app_id: String::from_str(AUMID),
        print_xml: false,
        tag: None,
    };
    assert(strings_view(g.button_specs@) =~= Seq::<Seq<char>>::empty());
    assert(g.model() == initial_options());
    let n = argv.len();
    let mut i: usize = 0;
    while i < n
        invariant
            n == argv@.len(),
            args == strings_view(argv@),
            i <= n,
            scan(args, 0, initial_options()) == scan(args, i as int, g.model()),
        ensures
            scan(args, 0, initial_options()) == Scan::Done(g.model()),
        decreases n - i,
    {
        let a = argv[i].as_str();
        assert(a@ == args[i as int]);
        if same_text(a, "-h") || same_text(a, "--help") {
            return Ok(Parsed::Help);
        } else if same_text(a, "-V") || same_text(a, "--version") {
            return Ok(Parsed::Version);
        } else if same_text(a, "--register") {
            return Ok(Parsed::Register);
        } else if same_text(a, "--unregister") {
            return Ok(Parsed::Unregister);
        } else if same_text(a, "--register-protocol") {
            return Ok(Parsed::RegisterProtocol);
        } else if same_text(a, "--unregister-protocol") {
            return Ok(Parsed::UnregisterProtocol);
        } else if same_text(a, "--protocol-status") {
            return Ok(Parsed::ProtocolStatus);
        } else if same_text(a, "--list-actions") {
            return Ok(Parsed::ListActions);
        } else if same_text(a, "--open-uri") {
            if i + 1 < n {
                return Ok(Parsed::OpenUri(argv[i + 1].clone()));
            } else {
                return Err(UsageError::MissingValue("--open-uri"));
            }
        } else if same_text(a, "--on-click") {
            if i + 1 < n {
                g.on_click = Some(rest_of(&argv, i + 1));
                break;
            } else {
                return Err(UsageError::OnClickNeedsCommand);
            }
        } else if same_text(a, "--silent") {
            g.silent = true;
            i = i + 1;
        } else if same_text(a, "--print-xml") {
            g.print_xml = true;
            i = i + 1;
        } else if takes_value(a) {
            if i + 1 < n {
                let v = argv[i + 1].clone();
                match apply_value(g, a, v) {
                    Some(next) => {
                        g = next;
                        i = i + 2;
                    },
                    None => {
                        return Err(UsageError::NotANumber(flag_name(a), argv[i + 1].clone()));
                    },
                }
            } else {
                return Err(UsageError::MissingValue(flag_name(a)));
            }
        } else if a.unicode_len() > 1 && a.get_char(0) == '-' {
            return Err(UsageError::UnknownOption(argv[i].clone()));
        } else if g.message.is_some() {
            return Err(UsageError::ExtraArgument(argv[i].clone()));
        } else {
            g.message = Some(argv[i].clone());
            i = i + 1;
        }
    }
    finish_gathered(g)
}

/// Checks the gathered options and builds the reminder, as `finish` says.
fn finish_gathered(g: Gathered) -> (res: Result<Parsed, UsageError>)
    ensures
        outcome_view(res) == finish(g.model()),
{
    let ghost o = g.model();
    let Gathered {
        message,
        title,
        level_name,
        icon,
        app_icon,
        url,
        on_click,
        button_specs,
        silent,
        delay,
        repeat,
        every,
        app_id,
        print_xml,
        tag,
    } = g;
    let message = match message {
        Some(m) => m,
        None => return Err(UsageError::MessageRequired),
    };
    let level = match by_name(level_name.as_str()) {
        Some(l) => l,
        None => return Err(UsageError::InvalidLevel(level_name)),
    };
    let buttons = match buttons_from(&button_specs) {
        Ok(b) => b,
        Err(bad) => return Err(UsageError::BadButton(bad)),
    };
    if buttons.len() > 5 {
        return Err(UsageError::TooManyButtons);
    }
    if repeat == 0 {
        return Err(UsageError::ZeroRepeat);
    }
    let args = Args {
        message,
        title,
        level,
        icon,
        app_icon,
        url,
        on_click,
        buttons,
        silent,
        delay,
        repeat,
        every,
        app_id,
        print_xml,
        tag,
    };
    Ok(Parsed::Run(args))
}

// ---------------------------------------------------------------- laws

proof fn lemma_buttons_nonempty(specs: Seq<Seq<char>>)
    ensures
        buttons_of(specs) matches Ok(bs) ==> bs.len() == specs.len() && forall|i: int|
            0 <= i < bs.len() ==> (#[trigger] bs[i]).0.len() > 0 && bs[i].1.len() > 0,
    decreases specs.len(),
{
    if specs.len() > 0 {
        lemma_buttons_nonempty(specs.drop_last());
    }
}

proof fn lemma_first_named_in_range(table: Seq<Level>, name: Seq<char>, from: int)
    requires
        0 <= from,
    ensures
        from <= first_named(table, name, from) <= table.len() || first_named(table, name, from)
            == table.len(),
    decreases table.len() - from,
{
    if from < table.len() && table[from].name@ != name {
        lemma_first_named_in_range(table, name, from + 1);
    }
}

proof fn lemma_scan_stops_without_running(args: Seq<Seq<char>>, i: int, o: Options)
    ensures
        scan(args, i, o) matches Scan::Stop(out) ==> out !is Run,
    decreases args.len() - i,
{
    if 0 <= i < args.len() {
        let a = args[i];
        lemma_scan_stops_without_running(args, i + 1, Options { silent: true, ..o });
        lemma_scan_stops_without_running(args, i + 1, Options { print_xml: true, ..o });
        lemma_scan_stops_without_running(args, i + 1, Options { message: Some(a), ..o });
        if i + 1 < args.len() {
            match with_value(o, a, args[i + 1]) {
                Some(next) => lemma_scan_stops_without_running(args, i + 2, next),
                None => {},
            }
        }
    }
}

/// Every reminder the parser accepts is one Windows will take: at least
/// one send, a known level, at most five buttons, one per `--button`, each
/// with a non-empty label and target.
pub proof fn lemma_run_is_well_formed(args: Seq<Seq<char>>)
    ensures
        parse_outcome(args) matches Outcome::Run(r) ==> {
            &&& r.repeat >= 1
            &&& level_table().contains(r.level)
            &&& r.buttons.len() <= 5
            &&& forall|i: int|
                0 <= i < r.buttons.len() ==> (#[trigger] r.buttons[i]).0.len() > 0
                    && r.buttons[i].1.len() > 0
        },
{
    match scan(args, 0, initial_options()) {
        Scan::Done(o) => {
            lemma_buttons_nonempty(o.button_specs);
            lemma_first_named_in_range(level_table(), o.level_name, 0);
            let i = first_named(level_table(), o.level_name, 0);
            if i < level_table().len() {
                assert(level_table()[i] == level_named(o.level_name)->0);
                assert(level_table().contains(level_table()[i]));
            }
        },
        Scan::Stop(_) => {
            lemma_scan_stops_without_running(args, 0, initial_options());
        },
    }
}


/// `k` repetitions of `--button b`.
pub open spec fn button_args(b: Seq<char>, k: nat) -> Seq<Seq<char>> {
    Seq::new(2 * k, |i: int| if i % 2 == 0 { "--button"@ } else { b })
}

/// The options once the message `m` and `j` of the buttons `b` are read.
spec fn options_with_buttons(m: Seq<char>, b: Seq<char>, j: nat) -> Options {
    Options {
        message: Some(m),
        button_specs: Seq::new(j, |i: int| b),
        ..initial_options()
    }
}

proof fn lemma_button_flag_is_not_another()
    ensures
        "--button"@ != "-h"@ && "--button"@ != "--help"@ && "--button"@ != "-V"@ && "--button"@
            != "--version"@ && "--button"@ != "--register"@ && "--button"@ != "--unregister"@
            && "--button"@ != "--register-protocol"@ && "--button"@ != "--unregister-protocol"@
            && "--button"@ != "--protocol-status"@ && "--button"@ != "--list-actions"@
            && "--button"@ != "--open-uri"@ && "--button"@ != "--on-click"@ && "--button"@
            != "--silent"@ && "--button"@ != "--print-xml"@ && "--button"@ != "--title"@
            && "--button"@ != "-l"@ && "--button"@ != "--level"@ && "--button"@ != "--icon"@
            && "--button"@ != "--url"@,
{
    reveal_strlit("--button");
    reveal_strlit("-h");
    reveal_strlit("--help");
    reveal_strlit("-V");
    reveal_strlit("--version");
    reveal_strlit("--register");
    reveal_strlit("--unregister");
    reveal_strlit("--register-protocol");
    reveal_strlit("--unregister-protocol");
    reveal_strlit("--protocol-status");
    reveal_strlit("--list-actions");
    reveal_strlit("--open-uri");
    reveal_strlit("--on-click");
    reveal_strlit("--silent");
    reveal_strlit("--print-xml");
    reveal_strlit("--title");
    reveal_strlit("-l");
    reveal_strlit("--level");
    reveal_strlit("--icon");
    reveal_strlit("--url");
    assert("--button"@[2] != "--silent"@[2]);
    assert("--button"@.len() == 8);
    assert("-h"@.len() == 2);
    assert("--help"@.len() == 6);
    assert("-V"@.len() == 2);
    assert("--version"@.len() == 9);
    assert("--register"@.len() == 10);
    assert("--unregister"@.len() == 12);
    assert("--register-protocol"@.len() == 19);
    assert("--unregister-protocol"@.len() == 21);
    assert("--protocol-status"@.len() == 17);
    assert("--list-actions"@.len() == 14);
    assert("--open-uri"@.len() == 10);
    assert("--on-click"@.len() == 10);
    assert("--print-xml"@.len() == 11);
    assert("--title"@.len() == 7);
    assert("-l"@.len() == 2);
    assert("--level"@.len() == 7);
    assert("--icon"@.len() == 6);
    assert("--url"@.len() == 5);
}

proof fn lemma_message_is_not_a_flag(m: Seq<char>)
    requires
        m.len() == 0 || m[0] != '-',
    ensures
        m != "-h"@ && m != "--help"@ && m != "-V"@ && m != "--version"@ && m != "--register"@
            && m != "--unregister"@ && m != "--register-protocol"@ && m != "--unregister-protocol"@
            && m != "--protocol-status"@ && m != "--list-actions"@ && m != "--open-uri"@ && m
            != "--on-click"@ && m != "--silent"@ && m != "--print-xml"@ && m != "--title"@ && m
            != "-l"@ && m != "--level"@ && m != "--icon"@ && m != "--url"@ && m != "--button"@
            && m != "--app-id"@ && m != "--tag"@ && m != "--in"@ && m != "--repeat"@ && m
            != "--every"@,
{
    reveal_strlit("-h");
    reveal_strlit("--help");
    reveal_strlit("-V");
    reveal_strlit("--version");
    reveal_strlit("--register");
    reveal_strlit("--unregister");
    reveal_strlit("--register-protocol");
    reveal_strlit("--unregister-protocol");
    reveal_strlit("--protocol-status");
    reveal_strlit("--list-actions");
    reveal_strlit("--open-uri");
    reveal_strlit("--on-click");
    reveal_strlit("--silent");
    reveal_strlit("--print-xml");
    reveal_strlit("--title");
    reveal_strlit("-l");
    reveal_strlit("--level");
    reveal_strlit("--icon");
    reveal_strlit("--url");
    reveal_strlit("--button");
    reveal_strlit("--app-id");
    reveal_strlit("--tag");
    reveal_strlit("--in");
    reveal_strlit("--repeat");
    reveal_strlit("--every");
}

proof fn lemma_scan_buttons(m: Seq<char>, b: Seq<char>, k: nat, j: nat)
    requires
        j <= k,
    ensures
        scan(seq![m] + button_args(b, k), 1 + 2 * (j as int), options_with_buttons(m, b, j)) == Scan::Done(
            options_with_buttons(m, b, k),
        ),
    decreases k - j,
{
    let args = seq![m] + button_args(b, k);
    let i: int = 1 + 2 * (j as int);
    if j < k {
        assert(args[i] == button_args(b, k)[2 * (j as int)]);
        assert(args[i] == "--button"@);
        assert(args[i + 1] == button_args(b, k)[2 * (j as int) + 1]);
        assert((2 * (j as int) + 1) % 2 == 1);
        assert(args[i + 1] == b);
        lemma_button_flag_is_not_another();
        let o = options_with_buttons(m, b, j);
        assert(with_value(o, "--button"@, b) == Some(options_with_buttons(m, b, j + 1))) by {
            assert(Seq::new(j, |x: int| b).push(b) =~= Seq::new(j + 1, |x: int| b));
        }
        lemma_scan_buttons(m, b, k, j + 1);
        assert(1 + 2 * ((j + 1) as int) == i + 2);
    } else {
        assert(args.len() == 1 + 2 * k);
    }
}

proof fn lemma_buttons_of_copies(b: Seq<char>, j: nat)
    requires
        button_of(b) is Some,
    ensures
        buttons_of(Seq::new(j, |i: int| b)) == Ok::<_, Seq<char>>(
            Seq::new(j, |i: int| button_of(b)->0),
        ),
    decreases j,
{
    if j > 0 {
        lemma_buttons_of_copies(b, (j - 1) as nat);
        assert(Seq::new(j, |i: int| b).drop_last() =~= Seq::new((j - 1) as nat, |i: int| b));
        assert(Seq::new((j - 1) as nat, |i: int| button_of(b)->0).push(button_of(b)->0)
            =~= Seq::new(j, |i: int| button_of(b)->0));
    } else {
        assert(Seq::new(0, |i: int| button_of(b)->0) =~= Seq::<(Seq<char>, Seq<char>)>::empty());
    }
}

/// A message followed by `k` copies of one valid `--button LABEL=URL` gives
/// `k` copies of that button while `k` is at most five, and the too-many
/// error from six on.
pub proof fn lemma_button_count(m: Seq<char>, b: Seq<char>, k: nat)
    requires
        m.len() == 0 || m[0] != '-',
        button_of(b) is Some,
    ensures
        k <= 5 ==> (parse_outcome(seq![m] + button_args(b, k)) matches Outcome::Run(r)
            && r.buttons == Seq::new(k, |i: int| button_of(b)->0)),
        k > 5 ==> parse_outcome(seq![m] + button_args(b, k)) == Outcome::Fail(
            Fault::TooManyButtons,
        ),
{
    let args = seq![m] + button_args(b, k);
    lemma_message_is_not_a_flag(m);
    assert(args[0] == m);
    assert(initial_options().message is None);
    assert(Options { message: Some(m), ..initial_options() } == options_with_buttons(m, b, 0))
        by {
        assert(Seq::new(0, |i: int| b) =~= Seq::<Seq<char>>::empty());
    }
    assert(scan(args, 0, initial_options()) == scan(args, 1, options_with_buttons(m, b, 0)));
    lemma_scan_buttons(m, b, k, 0);
    lemma_buttons_of_copies(b, k);
    lemma_info_is_a_level();
}

proof fn lemma_info_is_a_level()
    ensures
        level_named("info"@) is Some,
{
    reveal_strlit("info");
    assert(level_table()[0].name@ == "info"@);
    assert(first_named(level_table(), "info"@, 0) == 0);
}

proof fn lemma_number_flags_differ()
    ensures
        "--in"@ != "--title"@ && "--in"@ != "-l"@ && "--in"@ != "--level"@ && "--in"@ != "--icon"@
            && "--in"@ != "--url"@ && "--in"@ != "--button"@ && "--in"@ != "--app-id"@ && "--in"@
            != "--tag"@,
        "--repeat"@ != "--title"@ && "--repeat"@ != "-l"@ && "--repeat"@ != "--level"@
            && "--repeat"@ != "--icon"@ && "--repeat"@ != "--url"@ && "--repeat"@ != "--button"@
            && "--repeat"@ != "--app-id"@ && "--repeat"@ != "--tag"@ && "--repeat"@ != "--in"@,
        "--every"@ != "--title"@ && "--every"@ != "-l"@ && "--every"@ != "--level"@ && "--every"@
            != "--icon"@ && "--every"@ != "--url"@ && "--every"@ != "--button"@ && "--every"@
            != "--app-id"@ && "--every"@ != "--tag"@ && "--every"@ != "--in"@ && "--every"@
            != "--repeat"@,
{
    reveal_strlit("--in");
    reveal_strlit("--repeat");
    reveal_strlit("--every");
    reveal_strlit("--title");
    reveal_strlit("-l");
    reveal_strlit("--level");
    reveal_strlit("--icon");
    reveal_strlit("--url");
    reveal_strlit("--button");
    reveal_strlit("--app-id");
    reveal_strlit("--tag");
    assert("--in"@.len() == 4 && "--repeat"@.len() == 8 && "--every"@.len() == 7);
    assert("--title"@.len() == 7 && "-l"@.len() == 2 && "--level"@.len() == 7);
    assert("--icon"@.len() == 6 && "--url"@.len() == 5 && "--button"@.len() == 8);
    assert("--app-id"@.len() == 8 && "--tag"@.len() == 5);
    assert("--repeat"@[2] != "--button"@[2] && "--repeat"@[2] != "--app-id"@[2]);
    assert("--every"@[2] != "--title"@[2] && "--every"@[3] != "--level"@[3]);
}

/// Each numeric flag sets its own option and nothing else: `--in` only the
/// delay, `--repeat` only the count, `--every` only the interval, each to
/// the number given.
pub proof fn lemma_number_flags_are_separate(o: Options, v: Seq<char>)
    ensures
        with_value(o, "--in"@, v) matches Some(n) ==> n == (Options { delay: n.delay, ..o })
            && parse_unsigned(v, u64::MAX as int) == Some(n.delay as int),
        with_value(o, "--repeat"@, v) matches Some(n) ==> n == (Options { repeat: n.repeat, ..o })
            && parse_unsigned(v, u32::MAX as int) == Some(n.repeat as int),
        with_value(o, "--every"@, v) matches Some(n) ==> n == (Options { every: n.every, ..o })
            && parse_unsigned(v, u64::MAX as int) == Some(n.every as int),
{
    lemma_number_flags_differ();
    lemma_parse_unsigned_range(v, u64::MAX as int);
    lemma_parse_unsigned_range(v, u32::MAX as int);
}

proof fn lemma_scan_keeps_timing(args: Seq<Seq<char>>, i: int, o: Options)
    requires
        forall|j: int| 0 <= j < args.len() ==> #[trigger] args[j] != "--every"@,
    ensures
        scan(args, i, o) matches Scan::Done(d) ==> d.every == o.every,
    decreases args.len() - i,
{
    if 0 <= i < args.len() {
        let a = args[i];
        let v = if i + 1 < args.len() { args[i + 1] } else { args[i] };
        assert(a != "--every"@);
        lemma_scan_keeps_timing(args, i + 1, Options { silent: true, ..o });
        lemma_scan_keeps_timing(args, i + 1, Options { print_xml: true, ..o });
        lemma_scan_keeps_timing(args, i + 1, Options { message: Some(a), ..o });
        if i + 1 < args.len() {
            match with_value(o, a, v) {
                Some(next) => {
                    lemma_scan_keeps_timing(args, i + 2, next);
                },
                None => {},
            }
        }
    }
}

/// Without an `--every` flag a run repeats every 60 seconds, whatever other
/// options (`--in` among them) are given.
pub proof fn lemma_every_defaults_to_a_minute(args: Seq<Seq<char>>)
    requires
        forall|j: int| 0 <= j < args.len() ==> #[trigger] args[j] != "--every"@,
    ensures
        parse_outcome(args) matches Outcome::Run(r) ==> r.every == 60,
{
    lemma_scan_keeps_timing(args, 0, initial_options());
    lemma_scan_stops_without_running(args, 0, initial_options());
}

} // verus!
