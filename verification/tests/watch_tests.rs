use minecraft_mod_organizer::watch::{any_mod_file, watch_step, WatchInput, WatchPhase, WatchStep};

fn run(inputs: &[WatchInput]) -> Vec<WatchStep> {
    let mut phase = WatchPhase::Idle;
    let mut steps = Vec::new();
    for input in inputs {
        let (next, step) = watch_step(phase, *input);
        phase = next;
        steps.push(step);
    }
    steps
}

#[test]
fn a_change_starts_the_quiet_wait() {
    assert_eq!(watch_step(WatchPhase::Idle, WatchInput::Change), (WatchPhase::Settling, WatchStep::AwaitQuiet(220)));
    assert_eq!(watch_step(WatchPhase::Settling, WatchInput::Change), (WatchPhase::Settling, WatchStep::AwaitQuiet(220)));
}

#[test]
fn the_end_of_a_burst_rescans() {
    assert_eq!(watch_step(WatchPhase::Settling, WatchInput::Quiet), (WatchPhase::Idle, WatchStep::Rescan));
    assert_eq!(watch_step(WatchPhase::Settling, WatchInput::Closed), (WatchPhase::Idle, WatchStep::Rescan));
}

#[test]
fn idle_waits_or_stops() {
    assert_eq!(watch_step(WatchPhase::Idle, WatchInput::Quiet), (WatchPhase::Idle, WatchStep::AwaitChange));
    assert_eq!(watch_step(WatchPhase::Idle, WatchInput::Closed), (WatchPhase::Idle, WatchStep::Stop));
}

#[test]
fn a_burst_of_changes_rescans_once() {
    let steps = run(&[WatchInput::Change, WatchInput::Change, WatchInput::Change, WatchInput::Quiet]);
    assert_eq!(
        steps,
        vec![WatchStep::AwaitQuiet(220), WatchStep::AwaitQuiet(220), WatchStep::AwaitQuiet(220), WatchStep::Rescan]
    );
    let steps = run(&[WatchInput::Change, WatchInput::Closed, WatchInput::Closed]);
    assert_eq!(steps, vec![WatchStep::AwaitQuiet(220), WatchStep::Rescan, WatchStep::Stop]);
}

#[test]
fn events_matter_when_a_mod_file_changes() {
    assert!(any_mod_file(&vec![None, Some("readme.txt".to_string()), Some("Sodium.JAR".to_string())]));
    assert!(any_mod_file(&vec![Some("a.jar.disabled".to_string())]));
    assert!(!any_mod_file(&vec![Some("a.jar.tmp".to_string()), None]));
    assert!(!any_mod_file(&Vec::new()));
}
