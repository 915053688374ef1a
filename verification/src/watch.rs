//! The decisions of the mods-folder watcher: which file events matter, and
//! when to rescan. A burst of changes is absorbed until the folder has been
//! quiet for a while; then the folder is rescanned once.
use vstd::prelude::*;
use crate::scanner::{is_mod_file, is_mod_file_name};

verus! {

/// Whether the watcher is waiting for a first change or letting a burst settle.
#[derive(Debug, Clone, Copy, PartialEq, Eq, Structural)]
pub enum WatchPhase {
    Idle,
    Settling,
}

/// What the watcher learned while it waited: a relevant change, a quiet
/// period, or that no more events can come.
#[derive(Debug, Clone, Copy, PartialEq, Eq, Structural)]
pub enum WatchInput {
    Change,
    Quiet,
    Closed,
}

/// What the watcher does next: wait for a change, wait at most the given
/// number of milliseconds for another one, rescan the folder, or stop.
#[derive(Debug, Clone, Copy, PartialEq, Eq, Structural)]
pub enum WatchStep {
    AwaitChange,
    AwaitQuiet(u64),
    Rescan,
    Stop,
}

/// How long the folder must stay quiet before a rescan, in milliseconds.
pub open spec fn settle_millis() -> u64 {
    220
}

/// The next phase and step of the watcher.
pub open spec fn watch_next(phase: WatchPhase, input: WatchInput) -> (WatchPhase, WatchStep) {
    match input {
        WatchInput::Change => (WatchPhase::Settling, WatchStep::AwaitQuiet(settle_millis())),
        _ => match phase {
            WatchPhase::Settling => (WatchPhase::Idle, WatchStep::Rescan),
            WatchPhase::Idle => match input {
                WatchInput::Quiet => (WatchPhase::Idle, WatchStep::AwaitChange),
                _ => (WatchPhase::Idle, WatchStep::Stop),
            },
        },
    }
}

/// The next phase and step of the watcher: a change (re)starts the quiet
/// wait; the end of a settling burst, by quiet or by close, rescans once;
/// when idle, quiet waits for a change and close stops. After a rescan the
/// watcher is idle and is given `Quiet` to wait again.
pub fn watch_step(phase: WatchPhase, input: WatchInput) -> (r: (WatchPhase, WatchStep))
    ensures
        r == watch_next(phase, input),
        input is Change ==> r == (WatchPhase::Settling, WatchStep::AwaitQuiet(220)),
        phase is Settling && !(input is Change) ==> r == (WatchPhase::Idle, WatchStep::Rescan),
        phase is Idle && input is Quiet ==> r == (WatchPhase::Idle, WatchStep::AwaitChange),
        phase is Idle && input is Closed ==> r == (WatchPhase::Idle, WatchStep::Stop),
{
    match input {
        WatchInput::Change => (WatchPhase::Settling, WatchStep::AwaitQuiet(220)),
        _ => match phase {
            WatchPhase::Settling => (WatchPhase::Idle, WatchStep::Rescan),
            WatchPhase::Idle => match input {
                WatchInput::Quiet => (WatchPhase::Idle, WatchStep::AwaitChange),
                _ => (WatchPhase::Idle, WatchStep::Stop),
            },
        },
    }
}

/// Whether a file event matters: one of its paths has a file name that is a
/// mod file (`None` for a path without a UTF-8 file name).
pub fn any_mod_file(names: &Vec<Option<String>>) -> (r: bool)
    ensures
        r == exists|i: int| #![trigger names@[i]] 0 <= i < names@.len() && (names@[i] matches Some(n) && is_mod_file_name(n@)),
{
    let mut i: usize = 0;
    while i < names.len()
        invariant
            i <= names.len(),
            forall|j: int| #![trigger names@[j]] 0 <= j < i ==> !(names@[j] matches Some(n) && is_mod_file_name(n@)),
        decreases names.len() - i,
    {
        match &names[i] {
            Some(n) => {
                if is_mod_file(n.as_str()) {
                    return true;
                }
            },
            None => {},
        }
        i = i + 1;
    }
    false
}

/// The steps the watcher takes from `phase` on the inputs, in order.
pub open spec fn watch_steps(phase: WatchPhase, inputs: Seq<WatchInput>) -> Seq<WatchStep>
    decreases inputs.len(),
{
    if inputs.len() == 0 {
        Seq::empty()
    } else {
        let (next, step) = watch_next(phase, inputs[0]);
        seq![step] + watch_steps(next, inputs.drop_first())
    }
}

/// `n` changes in a row.
pub open spec fn changes(n: nat) -> Seq<WatchInput> {
    Seq::new(n, |i: int| WatchInput::Change)
}

/// A burst of `n >= 1` changes, ended by a quiet period or by the close of
/// the event source, makes the watcher wait for quiet after each change and
/// then rescan exactly once, at the end.
pub proof fn lemma_burst_rescans_once(phase: WatchPhase, n: nat, last: WatchInput)
    requires
        n >= 1,
        !(last is Change),
    ensures
        watch_steps(phase, changes(n).push(last)) == Seq::new(
            n,
            |i: int| WatchStep::AwaitQuiet(settle_millis()),
        ).push(WatchStep::Rescan),
    decreases n,
{
    let ins = changes(n).push(last);
    assert(ins[0] == WatchInput::Change);
    if n == 1 {
        assert(ins.drop_first() =~= seq![last]);
        assert(seq![last].drop_first() =~= Seq::<WatchInput>::empty());
        assert(watch_steps(WatchPhase::Idle, seq![last].drop_first()) =~= Seq::<WatchStep>::empty());
        assert(watch_steps(WatchPhase::Settling, seq![last]) =~= seq![WatchStep::Rescan]);
    } else {
        assert(ins.drop_first() =~= changes((n - 1) as nat).push(last));
        lemma_burst_rescans_once(WatchPhase::Settling, (n - 1) as nat, last);
    }
    assert(watch_steps(phase, ins) =~= Seq::new(
        n,
        |i: int| WatchStep::AwaitQuiet(settle_millis()),
    ).push(WatchStep::Rescan));
}

/// Once idle, the close of the event source stops the watcher.
pub proof fn lemma_idle_close_stops(rest: Seq<WatchInput>)
    ensures
        watch_steps(WatchPhase::Idle, seq![WatchInput::Closed] + rest)[0] == WatchStep::Stop,
{
    assert((seq![WatchInput::Closed] + rest)[0] == WatchInput::Closed);
}

} // verus!
