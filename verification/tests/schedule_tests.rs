use reminder::schedule::{icon_source, launch_target, setup, IconSource, Setup};
use reminder::schedule::{after_show, after_wait, sent_line, start, Schedule, Step};

/// Drive a run to its end with the given toast outcomes, recording the steps.
fn drive(delay: u64, repeat: u32, every: u64, oks: &[bool]) -> Vec<Step> {
    let (mut s, mut step) = start(delay, repeat, every);
    let mut steps = vec![step];
    let mut k = 0;
    loop {
        match step {
            Step::Delay(_) | Step::Pause(_) => step = after_wait(s),
            Step::Show(_) => {
                let (s2, st) = after_show(s, oks[k]);
                k += 1;
                s = s2;
                step = st;
            }
            Step::Finish(_) => return steps,
        }
        steps.push(step);
    }
}

#[test]
fn single_toast_without_delay() {
    assert_eq!(drive(0, 1, 60, &[true]), vec![Step::Show(0), Step::Finish(false)]);
}

#[test]
fn delay_then_repeats_with_pauses() {
    assert_eq!(
        drive(300, 3, 1800, &[true, true, true]),
        vec![
            Step::Delay(300),
            Step::Show(0),
            Step::Pause(1800),
            Step::Show(1),
            Step::Pause(1800),
            Step::Show(2),
            Step::Finish(false)
        ]
    );
}

#[test]
fn one_failure_fails_the_run_but_the_rest_are_still_sent() {
    assert_eq!(
        drive(0, 3, 0, &[true, false, true]),
        vec![
            Step::Show(0),
            Step::Pause(0),
            Step::Show(1),
            Step::Pause(0),
            Step::Show(2),
            Step::Finish(true)
        ]
    );
}

#[test]
fn start_state() {
    let (s, step) = start(0, 4, 10);
    assert_eq!(s, Schedule { repeat: 4, every: 10, shown: 0, failed: false });
    assert_eq!(step, Step::Show(0));
    assert_eq!(after_wait(Schedule { repeat: 2, every: 1, shown: 2, failed: true }), Step::Finish(true));
}

#[test]
fn sent_lines() {
    assert_eq!(sent_line(0, 1, "Time for a break"), "Sent: Time for a break");
    assert_eq!(sent_line(0, 4, "Stand up"), "Sent (1/4): Stand up");
    assert_eq!(sent_line(3, 4, "Stand up"), "Sent (4/4): Stand up");
    assert_eq!(sent_line(11, 12, ""), "Sent (12/12): ");
}

#[test]
fn icon_and_launch_choices() {
    assert_eq!(icon_source(&Some("a.png".to_string()), true), IconSource::Given);
    assert_eq!(icon_source(&None, true), IconSource::App);
    assert_eq!(icon_source(&None, false), IconSource::Level);
    assert_eq!(launch_target(Some("reminder://run/x"), Some("https://u")), Some("reminder://run/x"));
    assert_eq!(launch_target(None, Some("https://u")), Some("https://u"));
    assert_eq!(launch_target(None, None), None);
}

#[test]
fn run_setup() {
    assert_eq!(setup(true, false, false, "Reminder.App"), Setup::NeedsProtocol);
    assert_eq!(setup(true, false, true, "Other"), Setup::NeedsProtocol);
    assert_eq!(setup(true, true, true, "Reminder.App"), Setup::PrintOnly);
    assert_eq!(setup(false, false, true, "Reminder.App"), Setup::PrintOnly);
    assert_eq!(setup(false, false, false, "Reminder.App"), Setup::Send { own_identity: true });
    assert_eq!(setup(true, true, false, "Other.App"), Setup::Send { own_identity: false });
}
