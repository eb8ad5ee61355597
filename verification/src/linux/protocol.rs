//! Both sides of an attempt together: what holds of the supervisor and the
//! command's process in every order of their steps.

use crate::linux::startup::{
    child_next, led_to, ordered, position, possible, ChildOrder, ChildStage, Event, Stage,
};
use vstd::prelude::*;

verus! {

/// Both sides of an attempt, and what has passed between them.
pub ghost struct Both {
    /// The step of the supervisor.
    pub parent: Stage,
    /// The supervisor has given the attempt up, and the command is run without
    /// the view.
    pub gave_up: bool,
    /// The step of the command's process, while it lives.
    pub child: ChildStage,
    pub alive: bool,
    /// The supervisor has told the process to start the probe.
    pub started: bool,
    /// The process has reported the result of the probe.
    pub report: Option<i32>,
    /// The supervisor has told the process to start the command.
    pub let_go: bool,
    /// The process has gone on to execute the command.
    pub executed: bool,
}

/// Both sides at the start.
pub open spec fn beginning() -> Both {
    Both {
        parent: Stage::Reopening,
        gave_up: false,
        child: ChildStage::Installing,
        alive: true,
        started: false,
        report: None,
        let_go: false,
        executed: false,
    }
}

/// The supervisor makes a step that turned out as `event`. It learns only what
/// the process has reported.
pub open spec fn parent_steps(
    before: Both,
    after: Both,
    event: Event<Seq<char>>,
    projections: nat,
    quiet: bool,
) -> bool {
    let order = ordered(before.parent, event, projections, quiet);
    &&& possible(before.parent, event)
    &&& event matches Event::Probed { code, error } ==> before.report == Some(code)
    &&& after == Both {
        parent: led_to(order),
        gave_up: before.gave_up || order is GiveUp,
        started: before.started || (before.parent == Stage::Starting && event is Done),
        let_go: before.let_go || (before.parent == Stage::Finishing && event is Done),
        ..before
    }
}

/// The step after one that went well.
pub open spec fn child_stage_after(stage: ChildStage) -> ChildStage {
    match child_next(stage) {
        ChildOrder::Send => ChildStage::Sending,
        ChildOrder::Synchronize => ChildStage::Synchronizing,
        ChildOrder::Probe => ChildStage::Probing,
        ChildOrder::Report => ChildStage::Reporting,
        ChildOrder::Finish => ChildStage::Finishing,
        _ => ChildStage::Executing,
    }
}

/// The process makes a step that went well. It goes on from where it waits for
/// the supervisor only once the supervisor has told it to.
pub open spec fn child_steps(before: Both, after: Both) -> bool {
    &&& before.alive
    &&& before.child != ChildStage::Executing
    &&& before.child == ChildStage::Synchronizing ==> before.started
    &&& before.child == ChildStage::Finishing ==> before.let_go
    &&& after == Both {
        child: child_stage_after(before.child),
        report: if before.child == ChildStage::Reporting {
            Some(0)
        } else {
            before.report
        },
        executed: before.executed || child_next(before.child) is Execute,
        ..before
    }
}

/// The process ends, of itself or because it is killed; before that it may have
/// reported a failure of the probe.
pub open spec fn child_ends(before: Both, after: Both) -> bool {
    &&& before.alive
    &&& after == Both { alive: false, report: after.report, ..before }
    &&& after.report == before.report || before.child == ChildStage::Probing
}

/// One side makes a step.
pub open spec fn steps(before: Both, after: Both, projections: nat, quiet: bool) -> bool {
    ||| exists|event: Event<Seq<char>>| #[trigger]
        parent_steps(before, after, event, projections, quiet)
    ||| child_steps(before, after)
    ||| child_ends(before, after)
}

/// A history of both sides.
pub open spec fn history(states: Seq<Both>, projections: nat, quiet: bool) -> bool {
    &&& states.len() > 0
    &&& states[0] == beginning()
    &&& forall|i: int|
        #![trigger states[i]]
        0 < i < states.len() ==> steps(states[i - 1], states[i], projections, quiet)
}

/// What holds of both sides at all times.
spec fn sound(both: Both) -> bool {
    &&& both.executed ==> both.let_go
    &&& both.let_go ==> position(both.parent) >= position(Stage::Waiting) && !both.gave_up
    &&& both.gave_up ==> both.parent == Stage::Over
}

proof fn lemma_step_is_sound(before: Both, after: Both, projections: nat, quiet: bool)
    requires
        sound(before),
        steps(before, after, projections, quiet),
    ensures
        sound(after),
{
    if child_steps(before, after) || child_ends(before, after) {
    } else {
        let event = choose|event: Event<Seq<char>>| #[trigger]
            parent_steps(before, after, event, projections, quiet);
        lemma_parent_is_sound(before, after, event, projections, quiet);
    }
}

proof fn lemma_parent_is_sound(
    before: Both,
    after: Both,
    event: Event<Seq<char>>,
    projections: nat,
    quiet: bool,
)
    requires
        sound(before),
        parent_steps(before, after, event, projections, quiet),
    ensures
        sound(after),
{
    let order = ordered(before.parent, event, projections, quiet);
    if before.parent == Stage::Waiting {
        assert(!(order is GiveUp));
        assert(led_to(order) == Stage::Over);
    }
    if before.parent == Stage::Finishing && event is Done {
        assert(led_to(order) == Stage::Waiting);
        assert(!(order is GiveUp));
    }
}

proof fn lemma_history_is_sound(states: Seq<Both>, upto: int, projections: nat, quiet: bool)
    requires
        history(states, projections, quiet),
        0 <= upto < states.len(),
    ensures
        sound(states[upto]),
    decreases upto,
{
    if upto > 0 {
        lemma_history_is_sound(states, upto - 1, projections, quiet);
        lemma_step_is_sound(states[upto - 1], states[upto], projections, quiet);
    }
}

/// A command never runs twice: in every history, whatever the order of the steps
/// and whatever fails, the process has not executed the command if the supervisor
/// gives the attempt up, and it executes the command only after the supervisor has
/// let it go.
pub proof fn law_command_runs_at_most_once(
    states: Seq<Both>,
    upto: int,
    projections: nat,
    quiet: bool,
)
    requires
        history(states, projections, quiet),
        0 <= upto < states.len(),
    ensures
        !(states[upto].gave_up && states[upto].executed),
        states[upto].executed ==> states[upto].let_go,
{
    lemma_history_is_sound(states, upto, projections, quiet);
}

} // verus!
