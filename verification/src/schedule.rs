//! Running a reminder: where the toast's image and click target come from,
//! then the pacing of the run: an optional delay, `repeat` toasts with a
//! pause between each, and an exit status that reports any failure.
//!
//! The runner does the waiting and the showing; this module decides what
//! comes next from where the run stands and what the last toast did.

use vstd::prelude::*;

use crate::callback::{decimal, push_decimal};
use crate::cli::AUMID;
use crate::text::same_text;

verus! {

/// Where the toast's image comes from.
#[derive(Clone, Copy, Debug, PartialEq, Eq, Structural)]
pub enum IconSource {
    /// The file given with `--icon`.
    Given,
    /// The generated app icon (`--icon app`).
    App,
    /// The generated icon of the toast's level.
    Level,
}

/// The image of a toast: the file given with `--icon`, else the app icon
/// when `--icon app` asked for it, else the level's own icon.
pub fn icon_source(icon: &Option<String>, app_icon: bool) -> (r: IconSource)
    ensures
        r == (if icon.is_some() {
            IconSource::Given
        } else if app_icon {
            IconSource::App
        } else {
            IconSource::Level
        }),
{
    match icon {
        Some(_) => IconSource::Given,
        None => if app_icon {
            IconSource::App
        } else {
            IconSource::Level
        },
    }
}

/// What clicking the toast body launches: the URI of a registered click
/// action takes precedence over `--url`.
pub fn launch_target<'a>(action_uri: Option<&'a str>, url: Option<&'a str>) -> (r: Option<
    &'a str,
>)
    ensures
        r == (match action_uri {
            Some(u) => Some(u),
            None => url,
        }),
{
    match action_uri {
        Some(u) => Some(u),
        None => url,
    }
}

/// How a run sets out, once its options are known.
#[derive(Clone, Copy, Debug, PartialEq, Eq, Structural)]
pub enum Setup {
    /// `--on-click` was given but the URI scheme is not registered: stop
    /// with exit status 2.
    NeedsProtocol,
    /// Print the payload instead of sending it.
    PrintOnly,
    /// Send the toasts; with our own AppUserModelId, first make sure it is
    /// registered and point the process at it.
    Send { own_identity: bool },
}

/// The setup of a run: `--on-click` needs the scheme registered
/// (`scheme_registered` is read only when it was given), `--print-xml` only
/// prints, and sending under the default app id uses our own identity.
pub open spec fn setup_of(
    on_click: bool,
    scheme_registered: bool,
    print_xml: bool,
    app_id: Seq<char>,
) -> Setup {
    if on_click && !scheme_registered {
        Setup::NeedsProtocol
    } else if print_xml {
        Setup::PrintOnly
    } else {
        Setup::Send { own_identity: app_id == AUMID@ }
    }
}

/// Decide how a run sets out, as `setup_of`.
pub fn setup(on_click: bool, scheme_registered: bool, print_xml: bool, app_id: &str) -> (r: Setup)
    ensures
        r == setup_of(on_click, scheme_registered, print_xml, app_id@),
{
    if on_click && !scheme_registered {
        Setup::NeedsProtocol
    } else if print_xml {
        Setup::PrintOnly
    } else {
        Setup::Send { own_identity: same_text(app_id, AUMID) }
    }
}

/// How a run sets out, for every app id: `--on-click` without a registered
/// scheme stops it; otherwise `--print-xml` only prints, whatever the app
/// id; otherwise it sends, under our own identity exactly when the app id is
/// the default one.
pub proof fn lemma_setup_rule(
    on_click: bool,
    scheme_registered: bool,
    print_xml: bool,
    app_id: Seq<char>,
)
    ensures
        on_click && !scheme_registered ==> setup_of(on_click, scheme_registered, print_xml, app_id)
            == Setup::NeedsProtocol,
        !(on_click && !scheme_registered) && print_xml ==> setup_of(
            on_click,
            scheme_registered,
            print_xml,
            app_id,
        ) == Setup::PrintOnly,
        !(on_click && !scheme_registered) && !print_xml ==> setup_of(
            on_click,
            scheme_registered,
            print_xml,
            app_id,
        ) == (Setup::Send { own_identity: app_id == "Reminder.App"@ }),
{
    reveal_strlit("Reminder.App");
}

/// What the runner does next.
#[derive(Clone, Copy, Debug, PartialEq, Eq, Structural)]
pub enum Step {
    /// Wait this many seconds before the first toast.
    Delay(u64),
    /// Show the toast with this number, counting from 0.
    Show(u32),
    /// Wait this many seconds before the next toast.
    Pause(u64),
    /// Stop; true when some toast could not be shown.
    Finish(bool),
}

/// Where a run stands: how many toasts it sends, the pause between them,
/// how many were shown so far and whether any of them failed.
#[derive(Clone, Copy, Debug, PartialEq, Eq, Structural)]
pub struct Schedule {
    pub repeat: u32,
    pub every: u64,
    pub shown: u32,
    pub failed: bool,
}

/// A run that has not shown anything yet.
pub open spec fn initial(repeat: u32, every: u64) -> Schedule {
    Schedule { repeat, every, shown: 0, failed: false }
}

/// The step once nothing is left to wait for: the next toast, or the end.
pub open spec fn next_show(s: Schedule) -> Step {
    if s.shown < s.repeat {
        Step::Show(s.shown)
    } else {
        Step::Finish(s.failed)
    }
}

/// The run after one more toast, shown (`ok`) or not.
pub open spec fn shown_once(s: Schedule, ok: bool) -> Schedule {
    Schedule { shown: (s.shown + 1) as u32, failed: s.failed || !ok, ..s }
}

/// The step after a toast: a pause when more are due, else the end.
pub open spec fn step_after_show(s: Schedule) -> Step {
    if s.shown < s.repeat {
        Step::Pause(s.every)
    } else {
        Step::Finish(s.failed)
    }
}

/// Begin a run: wait `delay` seconds first if it is not zero.
pub fn start(delay: u64, repeat: u32, every: u64) -> (res: (Schedule, Step))
    ensures
        res.0 == initial(repeat, every),
        res.1 == (if delay > 0 {
            Step::Delay(delay)
        } else {
            next_show(initial(repeat, every))
        }),
{
    let s = Schedule { repeat, every, shown: 0, failed: false };
    if delay > 0 {
        (s, Step::Delay(delay))
    } else {
        (s, after_wait(s))
    }
}

/// The step after a delay or a pause.
pub fn after_wait(s: Schedule) -> (step: Step)
    ensures
        step == next_show(s),
{
    if s.shown < s.repeat {
        Step::Show(s.shown)
    } else {
        Step::Finish(s.failed)
    }
}

/// Record the outcome of the toast just shown and decide what follows.
pub fn after_show(s: Schedule, ok: bool) -> (res: (Schedule, Step))
    requires
        s.shown < s.repeat,
    ensures
        res.0 == shown_once(s, ok),
        res.1 == step_after_show(shown_once(s, ok)),
{
    let next = Schedule { shown: s.shown + 1, failed: s.failed || !ok, ..s };
    if next.shown < next.repeat {
        (next, Step::Pause(next.every))
    } else {
        (next, Step::Finish(next.failed))
    }
}

/// What is printed once toast `index` of `repeat` was shown.
pub open spec fn sent_text(index: u32, repeat: u32, message: Seq<char>) -> Seq<char> {
    if repeat > 1 {
        "Sent ("@ + decimal((index + 1) as nat) + "/"@ + decimal(repeat as nat) + "): "@ + message
    } else {
        "Sent: "@ + message
    }
}

/// The line reporting that toast `index` of `repeat` was shown.
pub fn sent_line(index: u32, repeat: u32, message: &str) -> (res: String)
    requires
        index < repeat,
    ensures
        res@ == sent_text(index, repeat, message@),
{
    let mut out = String::new();
    if repeat > 1 {
        out.append("Sent (");
        push_decimal(&mut out, index as u64 + 1);
        out.append("/");
        push_decimal(&mut out, repeat as u64);
        out.append("): ");
    } else {
        out.append("Sent: ");
    }
    out.append(message);
    out
}

// ---------------------------------------------------------------- laws

/// The run after toasts with the outcomes `oks`, one after another.
pub open spec fn replay(s: Schedule, oks: Seq<bool>) -> Schedule
    decreases oks.len(),
{
    if oks.len() == 0 {
        s
    } else {
        shown_once(replay(s, oks.drop_last()), oks.last())
    }
}

/// After any `k` toasts of a run, it has shown `k` and has failed exactly
/// when one of them failed; the step after the last of them is a pause of
/// `every` while toasts are due and the end once `repeat` were shown.
pub proof fn lemma_run_progress(repeat: u32, every: u64, oks: Seq<bool>)
    requires
        0 < oks.len() <= repeat,
    ensures
        replay(initial(repeat, every), oks) == (Schedule {
            repeat,
            every,
            shown: oks.len() as u32,
            failed: exists|i: int| 0 <= i < oks.len() && !oks[i],
        }),
        step_after_show(replay(initial(repeat, every), oks)) == (if oks.len() < repeat {
            Step::Pause(every)
        } else {
            Step::Finish(exists|i: int| 0 <= i < oks.len() && !oks[i])
        }),
{
    lemma_replay(repeat, every, oks);
}

proof fn lemma_replay(repeat: u32, every: u64, oks: Seq<bool>)
    requires
        oks.len() <= repeat,
    ensures
        replay(initial(repeat, every), oks) == (Schedule {
            repeat,
            every,
            shown: oks.len() as u32,
            failed: exists|i: int| 0 <= i < oks.len() && !oks[i],
        }),
    decreases oks.len(),
{
    if oks.len() > 0 {
        let prev = oks.drop_last();
        lemma_replay(repeat, every, prev);
        if exists|i: int| 0 <= i < prev.len() && !prev[i] {
            let i = choose|i: int| 0 <= i < prev.len() && !prev[i];
            assert(!oks[i]);
        }
        if exists|i: int| 0 <= i < oks.len() && !oks[i] {
            let i = choose|i: int| 0 <= i < oks.len() && !oks[i];
            if i < prev.len() {
                assert(!prev[i]);
            }
        }
    }
}

} // verus!
