//! Session takeover: while a remote session lasts, the physical outputs are off, so that every
//! workspace lives on the virtual output that the remote user sees.
//!
//! Taking over and giving back talk to the compositor step by step. What is done next is decided
//! here; the caller does it and reports what came of it. A sentinel file names the outputs that
//! may be off, so that another process can turn them on again after a crash.
use crate::json::{
    encode_json, item_views, json_parse, json_text, law_plain_document_is_sent, max_depth, object1,
    parse_json, Json, JsonView,
};
use crate::niri_ipc::{
    create_virtual_output_request, member_array, virtual_output_members, IpcError, NiriOutput,
    NiriOutputView, NiriWorkspace, NiriWorkspaceView,
};
use crate::order::{lemma_filter_holds, lemma_filter_map_is_filter, views};
use crate::paths::{join_path, joined};
use crate::text::same_text;
use vstd::prelude::*;
use vstd::utf8::encode_utf8;

verus! {

/// The texts of a list.
pub open spec fn texts(list: Seq<String>) -> Seq<Seq<char>> {
    list.map_values(|s: String| s@)
}

/// A copy of a list of texts.
pub fn copy_texts(list: &Vec<String>) -> (r: Vec<String>)
    ensures
        r@ == list@,
{
    let mut r: Vec<String> = Vec::new();
    let mut i: usize = 0;
    while i < list.len()
        invariant
            i <= list@.len(),
            r@ == list@.take(i as int),
        decreases list@.len() - i,
    {
        r.push(list[i].clone());
        assert(list@.take(i + 1) =~= list@.take(i as int).push(list@[i as int]));
        i = i + 1;
    }
    assert(list@.take(i as int) =~= list@);
    r
}

/// A takeover that is engaged: the outputs that it turned off.
#[derive(Debug)]
pub struct SessionTakeover {
    pub disabled: Vec<String>,
}

/// How far taking over has come. `epoch` is the count of releases when the session asked for it.
#[derive(Debug)]
pub enum AcquireState {
    /// Nothing has been done.
    Start { epoch: u64 },
    /// The compositor was asked for its outputs.
    AskedOutputs { epoch: u64 },
    /// A virtual output is being created for the next session.
    Creating,
    /// The sentinel is being written; the outputs named by it are still on.
    Writing { epoch: u64, candidates: Vec<String> },
    /// The output with index `next` is being turned off; those in `disabled` have been.
    TurningOff { epoch: u64, candidates: Vec<String>, next: usize, disabled: Vec<String> },
    /// All outputs have been seen to, those in `disabled` are off; the releases are counted again.
    Checking { epoch: u64, disabled: Vec<String> },
    /// Nothing is left to be decided.
    Ended,
}

/// What has happened.
#[derive(Debug)]
pub enum AcquireEvent {
    /// Taking over begins: whether a takeover is engaged already, and the count of releases.
    Begin { held: bool, release_epoch: u64 },
    /// The compositor's answer about its outputs.
    Outputs(Result<Vec<NiriOutput>, IpcError>),
    /// The virtual output was created, or could not be.
    Created,
    /// The sentinel was written, or could not be.
    SentinelWritten,
    /// The output was turned off, or could not be.
    TurnedOff { done: bool },
    /// The count of releases.
    Counted { release_epoch: u64 },
}

/// What is to be done.
#[derive(Debug)]
pub enum AcquireAction {
    AskOutputs,
    CreateVirtualOutput,
    WriteSentinel { names: Vec<String> },
    TurnOff { name: String },
    CountReleases,
    RemoveSentinel,
    /// Turn outputs on again, without moving workspaces.
    Restore { names: Vec<String> },
    /// The takeover is engaged.
    Engage { disabled: Vec<String> },
    Stop,
}

/// The mathematical value of an [`AcquireState`].
pub enum StateView {
    Start { epoch: u64 },
    AskedOutputs { epoch: u64 },
    Creating,
    Writing { epoch: u64, candidates: Seq<Seq<char>> },
    TurningOff {
        epoch: u64,
        candidates: Seq<Seq<char>>,
        next: int,
        disabled: Seq<Seq<char>>,
    },
    Checking { epoch: u64, disabled: Seq<Seq<char>> },
    Ended,
}

/// The mathematical value of an [`AcquireEvent`].
pub enum EventView {
    Begin { held: bool, release_epoch: u64 },
    Outputs(Option<Seq<NiriOutputView>>),
    Created,
    SentinelWritten,
    TurnedOff { done: bool },
    Counted { release_epoch: u64 },
}

/// The mathematical value of an [`AcquireAction`].
pub enum ActionView {
    AskOutputs,
    CreateVirtualOutput,
    WriteSentinel { names: Seq<Seq<char>> },
    TurnOff { name: Seq<char> },
    CountReleases,
    RemoveSentinel,
    Restore { names: Seq<Seq<char>> },
    Engage { disabled: Seq<Seq<char>> },
    Stop,
}

impl View for AcquireState {
    type V = StateView;

    open spec fn view(&self) -> StateView {
        match *self {
            AcquireState::Start { epoch } => StateView::Start { epoch },
            AcquireState::AskedOutputs { epoch } => StateView::AskedOutputs { epoch },
            AcquireState::Creating => StateView::Creating,
            AcquireState::Writing { epoch, candidates } => StateView::Writing {
                epoch,
                candidates: texts(candidates@),
            },
            AcquireState::TurningOff { epoch, candidates, next, disabled } => StateView::TurningOff {
                epoch,
                candidates: texts(candidates@),
                next: next as int,
                disabled: texts(disabled@),
            },
            AcquireState::Checking { epoch, disabled } => StateView::Checking {
                epoch,
                disabled: texts(disabled@),
            },
            AcquireState::Ended => StateView::Ended,
        }
    }
}

impl View for AcquireEvent {
    type V = EventView;

    open spec fn view(&self) -> EventView {
        match *self {
            AcquireEvent::Begin { held, release_epoch } => EventView::Begin { held, release_epoch },
            AcquireEvent::Outputs(list) => EventView::Outputs(
                match list {
                    Ok(list) => Some(views(list@)),
                    Err(_) => None,
                },
            ),
            AcquireEvent::Created => EventView::Created,
            AcquireEvent::SentinelWritten => EventView::SentinelWritten,
            AcquireEvent::TurnedOff { done } => EventView::TurnedOff { done },
            AcquireEvent::Counted { release_epoch } => EventView::Counted { release_epoch },
        }
    }
}

impl View for AcquireAction {
    type V = ActionView;

    open spec fn view(&self) -> ActionView {
        match *self {
            AcquireAction::AskOutputs => ActionView::AskOutputs,
            AcquireAction::CreateVirtualOutput => ActionView::CreateVirtualOutput,
            AcquireAction::WriteSentinel { names } => ActionView::WriteSentinel {
                names: texts(names@),
            },
            AcquireAction::TurnOff { name } => ActionView::TurnOff { name: name@ },
            AcquireAction::CountReleases => ActionView::CountReleases,
            AcquireAction::RemoveSentinel => ActionView::RemoveSentinel,
            AcquireAction::Restore { names } => ActionView::Restore { names: texts(names@) },
            AcquireAction::Engage { disabled } => ActionView::Engage { disabled: texts(disabled@) },
            AcquireAction::Stop => ActionView::Stop,
        }
    }
}

/// The name of an output that is turned off for a takeover: a physical one that is on.
pub open spec fn candidate_of(o: NiriOutputView) -> Option<Seq<char>> {
    if !o.is_virtual() && o.mode is Some {
        Some(o.name)
    } else {
        None
    }
}

/// The outputs that are turned off for a takeover.
pub open spec fn candidates_of(outputs: Seq<NiriOutputView>) -> Seq<Seq<char>> {
    outputs.filter_map(|o: NiriOutputView| candidate_of(o))
}

/// Whether there is a virtual output to take over to.
pub open spec fn has_virtual(outputs: Seq<NiriOutputView>) -> bool {
    exists|i: int| 0 <= i < outputs.len() && (#[trigger] outputs[i]).is_virtual_on()
}

/// What follows once all candidates have been seen to: if none was turned off there is nothing to
/// recover from, and otherwise the session has to be there still.
pub open spec fn after_turning_off(epoch: u64, disabled: Seq<Seq<char>>) -> (StateView, ActionView) {
    if disabled.len() == 0 {
        (StateView::Ended, ActionView::RemoveSentinel)
    } else {
        (StateView::Checking { epoch, disabled }, ActionView::CountReleases)
    }
}

/// What an event leads to. An event that the state does not wait for ends the takeover's progress.
pub open spec fn acquire_step(state: StateView, event: EventView) -> (StateView, ActionView) {
    match (state, event) {
        (StateView::Start { epoch }, EventView::Begin { held, release_epoch }) => if held
            || release_epoch != epoch {
            (StateView::Ended, ActionView::Stop)
        } else {
            (StateView::AskedOutputs { epoch }, ActionView::AskOutputs)
        },
        (StateView::AskedOutputs { epoch }, EventView::Outputs(Some(outputs))) => if !has_virtual(
            outputs,
        ) {
            (StateView::Creating, ActionView::CreateVirtualOutput)
        } else if candidates_of(outputs).len() == 0 {
            (StateView::Checking { epoch, disabled: Seq::empty() }, ActionView::CountReleases)
        } else {
            let candidates = candidates_of(outputs);
            (
                StateView::Writing { epoch, candidates },
                ActionView::WriteSentinel { names: candidates },
            )
        },
        (StateView::Writing { epoch, candidates }, EventView::SentinelWritten) => if 0
            < candidates.len() {
            (
                StateView::TurningOff { epoch, candidates, next: 0, disabled: Seq::empty() },
                ActionView::TurnOff { name: candidates[0] },
            )
        } else {
            after_turning_off(epoch, Seq::empty())
        },
        (
            StateView::TurningOff { epoch, candidates, next, disabled },
            EventView::TurnedOff { done },
        ) => {
            let now_off = if done && next < candidates.len() {
                disabled.push(candidates[next])
            } else {
                disabled
            };
            if next + 1 < candidates.len() {
                (
                    StateView::TurningOff { epoch, candidates, next: next + 1, disabled: now_off },
                    ActionView::TurnOff { name: candidates[next + 1] },
                )
            } else {
                after_turning_off(epoch, now_off)
            }
        },
        (StateView::Checking { epoch, disabled }, EventView::Counted { release_epoch }) => if release_epoch
            == epoch {
            (StateView::Ended, ActionView::Engage { disabled })
        } else if disabled.len() == 0 {
            (StateView::Ended, ActionView::Stop)
        } else {
            (StateView::Ended, ActionView::Restore { names: disabled })
        },
        _ => (StateView::Ended, ActionView::Stop),
    }
}

/// Whether the compositor's outputs include a virtual one that is on.
fn any_virtual(outputs: &Vec<NiriOutput>) -> (r: bool)
    ensures
        r == has_virtual(views(outputs@)),
{
    let mut i: usize = 0;
    while i < outputs.len()
        invariant
            i <= outputs@.len(),
            forall|j: int| 0 <= j < i ==> !(#[trigger] views(outputs@)[j]).is_virtual_on(),
        decreases outputs@.len() - i,
    {
        assert(views(outputs@)[i as int] == outputs@[i as int]@);
        if outputs[i].is_virtual_on() {
            return true;
        }
        i = i + 1;
    }
    false
}

fn candidate_names(outputs: &Vec<NiriOutput>) -> (r: Vec<String>)
    ensures
        texts(r@) == candidates_of(views(outputs@)),
{
    let ghost all = views(outputs@);
    let ghost pick = |o: NiriOutputView| candidate_of(o);
    let mut r: Vec<String> = Vec::new();
    let mut i: usize = 0;
    assert(texts(r@) =~= all.take(0).filter_map(pick));
    while i < outputs.len()
        invariant
            i <= outputs@.len(),
            all == views(outputs@),
            pick == |o: NiriOutputView| candidate_of(o),
            texts(r@) == all.take(i as int).filter_map(pick),
        decreases outputs@.len() - i,
    {
        proof {
            all.lemma_filter_map_take_succ(pick, i as int);
        }
        let ghost before = r@;
        if !outputs[i].is_virtual() && outputs[i].mode.is_some() {
            r.push(outputs[i].name.clone());
            assert(texts(r@) =~= texts(before) + seq![outputs@[i as int].name@]);
        } else {
            assert(texts(before) =~= texts(before) + Seq::empty());
        }
        i = i + 1;
    }
    assert(all.take(all.len() as int) =~= all);
    r
}

fn seen_to_all(epoch: u64, disabled: Vec<String>) -> (r: (AcquireState, AcquireAction))
    ensures
        (r.0@, r.1@) == after_turning_off(epoch, texts(disabled@)),
{
    if disabled.len() == 0 {
        (AcquireState::Ended, AcquireAction::RemoveSentinel)
    } else {
        (AcquireState::Checking { epoch, disabled }, AcquireAction::CountReleases)
    }
}

/// Decides what is done next in taking over.
pub fn acquire_blocking(state: AcquireState, event: AcquireEvent) -> (r: (
    AcquireState,
    AcquireAction,
))
    ensures
        (r.0@, r.1@) == acquire_step(state@, event@),
{
    match (state, event) {
        (AcquireState::Start { epoch }, AcquireEvent::Begin { held, release_epoch }) => {
            if held || release_epoch != epoch {
                (AcquireState::Ended, AcquireAction::Stop)
            } else {
                (AcquireState::AskedOutputs { epoch }, AcquireAction::AskOutputs)
            }
        },
        (AcquireState::AskedOutputs { epoch }, AcquireEvent::Outputs(Ok(outputs))) => {
            if !any_virtual(&outputs) {
                return (AcquireState::Creating, AcquireAction::CreateVirtualOutput);
            }
            let candidates = candidate_names(&outputs);
            if candidates.len() == 0 {
                let disabled: Vec<String> = Vec::new();
                assert(texts(disabled@) =~= Seq::empty());
                return (AcquireState::Checking { epoch, disabled }, AcquireAction::CountReleases);
            }
            let names = copy_texts(&candidates);
            (AcquireState::Writing { epoch, candidates }, AcquireAction::WriteSentinel { names })
        },
        (AcquireState::Writing { epoch, candidates }, AcquireEvent::SentinelWritten) => {
            let disabled: Vec<String> = Vec::new();
            assert(texts(disabled@) =~= Seq::empty());
            if 0 < candidates.len() {
                let name = candidates[0].clone();
                (
                    AcquireState::TurningOff { epoch, candidates, next: 0, disabled },
                    AcquireAction::TurnOff { name },
                )
            } else {
                seen_to_all(epoch, disabled)
            }
        },
        (
            AcquireState::TurningOff { epoch, candidates, next, disabled },
            AcquireEvent::TurnedOff { done },
        ) => {
            let mut disabled = disabled;
            let ghost before = disabled@;
            if done && next < candidates.len() {
                disabled.push(candidates[next].clone());
                assert(texts(disabled@) =~= texts(before).push(candidates@[next as int]@));
            }
            if next < candidates.len() && next + 1 < candidates.len() {
                let name = candidates[next + 1].clone();
                (
                    AcquireState::TurningOff { epoch, candidates, next: next + 1, disabled },
                    AcquireAction::TurnOff { name },
                )
            } else {
                seen_to_all(epoch, disabled)
            }
        },
        (AcquireState::Checking { epoch, disabled }, AcquireEvent::Counted { release_epoch }) => {
            if release_epoch == epoch {
                (AcquireState::Ended, AcquireAction::Engage { disabled })
            } else if disabled.len() == 0 {
                (AcquireState::Ended, AcquireAction::Stop)
            } else {
                (AcquireState::Ended, AcquireAction::Restore { names: disabled })
            }
        },
        _ => (AcquireState::Ended, AcquireAction::Stop),
    }
}

/// The state, and the last action, after a takeover has seen `events`.
pub open spec fn acquire_run(epoch: u64, events: Seq<EventView>) -> (StateView, ActionView)
    decreases events.len(),
{
    if events.len() == 0 {
        (StateView::Start { epoch }, ActionView::Stop)
    } else {
        acquire_step(acquire_run(epoch, events.drop_last()).0, events.last())
    }
}

/// The action that the event with index `i` led to.
pub open spec fn action_at(epoch: u64, events: Seq<EventView>, i: int) -> ActionView {
    acquire_run(epoch, events.take(i + 1)).1
}

/// The outputs that were turned off: those for which that was asked and reported as done.
pub open spec fn turned_off(epoch: u64, events: Seq<EventView>) -> Seq<Seq<char>>
    decreases events.len(),
{
    if events.len() == 0 {
        Seq::empty()
    } else {
        let before = turned_off(epoch, events.drop_last());
        match (acquire_run(epoch, events.drop_last()).1, events.last()) {
            (ActionView::TurnOff { name }, EventView::TurnedOff { done: true }) => before.push(name),
            _ => before,
        }
    }
}

/// Whether a state waits for an event.
pub open spec fn waits_for(state: StateView, event: EventView) -> bool {
    match state {
        StateView::Start { .. } => event is Begin,
        StateView::AskedOutputs { .. } => event is Outputs,
        StateView::Creating => event is Created,
        StateView::Writing { .. } => event is SentinelWritten,
        StateView::TurningOff { .. } => event is TurnedOff,
        StateView::Checking { .. } => event is Counted,
        StateView::Ended => false,
    }
}

/// Whether each event of a run is one that was waited for.
pub open spec fn in_turn(epoch: u64, events: Seq<EventView>) -> bool {
    forall|i: int|
        0 <= i < events.len() ==> waits_for(
            acquire_run(epoch, events.take(i)).0,
            #[trigger] events[i],
        )
}

/// What a run keeps track of: the output that is being turned off is the one that was asked for,
/// and the outputs listed as off are those that were turned off.
proof fn lemma_run_tracks(epoch: u64, events: Seq<EventView>)
    ensures
        ({
            let (state, action) = acquire_run(epoch, events);
            match state {
                StateView::Start { .. }
                | StateView::AskedOutputs { .. }
                | StateView::Creating => turned_off(epoch, events).len() == 0 && !(action
                    is TurnOff),
                StateView::Writing { candidates, .. } => {
                    &&& turned_off(epoch, events).len() == 0
                    &&& !(action is TurnOff)
                    &&& candidates.len() > 0
                },
                StateView::TurningOff { candidates, next, disabled, .. } => {
                    &&& 0 <= next < candidates.len()
                    &&& action == ActionView::TurnOff { name: candidates[next] }
                    &&& disabled == turned_off(epoch, events)
                },
                StateView::Checking { disabled, .. } => {
                    &&& disabled == turned_off(epoch, events)
                    &&& !(action is TurnOff)
                },
                StateView::Ended => {
                    &&& !(action is TurnOff)
                    &&& (action matches ActionView::Engage { disabled } ==> disabled == turned_off(
                        epoch,
                        events,
                    ))
                    &&& (action matches ActionView::Restore { names } ==> names == turned_off(
                        epoch,
                        events,
                    ))
                },
            }
        }),
    decreases events.len(),
{
    if events.len() > 0 {
        lemma_run_tracks(epoch, events.drop_last());
    }
}

/// The state keeps the epoch that the run began with.
proof fn lemma_run_keeps_epoch(epoch: u64, events: Seq<EventView>)
    ensures
        match acquire_run(epoch, events).0 {
            StateView::Start { epoch: e } => e == epoch,
            StateView::AskedOutputs { epoch: e } => e == epoch,
            StateView::Writing { epoch: e, .. } => e == epoch,
            StateView::TurningOff { epoch: e, .. } => e == epoch,
            StateView::Checking { epoch: e, .. } => e == epoch,
            _ => true,
        },
    decreases events.len(),
{
    if events.len() > 0 {
        lemma_run_keeps_epoch(epoch, events.drop_last());
    }
}

/// The outputs that are turned off stand in a sentinel that was to be written before.
proof fn lemma_sentinel_names_candidates(epoch: u64, events: Seq<EventView>)
    ensures
        match acquire_run(epoch, events).0 {
            StateView::Writing { candidates, .. } | StateView::TurningOff {
                candidates,
                ..
            } => exists|j: int|
                0 <= j < events.len() && #[trigger] action_at(epoch, events, j)
                    == (ActionView::WriteSentinel { names: candidates }),
            _ => true,
        },
    decreases events.len(),
{
    if events.len() > 0 {
        let front = events.drop_last();
        lemma_sentinel_names_candidates(epoch, front);
        let n = events.len() - 1;
        assert(events.take(n + 1) =~= events);
        match acquire_run(epoch, events).0 {
            StateView::Writing { candidates, .. } => {
                assert(action_at(epoch, events, n) == (ActionView::WriteSentinel {
                    names: candidates,
                }));
            },
            StateView::TurningOff { candidates, .. } => {
                let j = choose|j: int|
                    0 <= j < front.len() && #[trigger] action_at(epoch, front, j)
                        == (ActionView::WriteSentinel { names: candidates });
                assert(front.take(j + 1) =~= events.take(j + 1));
                assert(action_at(epoch, events, j) == (ActionView::WriteSentinel {
                    names: candidates,
                }));
            },
            _ => {},
        }
    }
}

/// The sentinel comes first: before an output is turned off, a sentinel is asked for that names it.
pub proof fn law_sentinel_before_turn_off(
    epoch: u64,
    events: Seq<EventView>,
    i: int,
    name: Seq<char>,
) -> (j: int)
    requires
        0 <= i < events.len(),
        action_at(epoch, events, i) == (ActionView::TurnOff { name }),
    ensures
        0 <= j < i,
        action_at(epoch, events, j) matches ActionView::WriteSentinel { names } && names.contains(
            name,
        ),
{
    let seen = events.take(i + 1);
    lemma_run_tracks(epoch, seen);
    lemma_sentinel_names_candidates(epoch, seen);
    let candidates = acquire_run(epoch, seen).0->TurningOff_candidates;
    let next = acquire_run(epoch, seen).0->TurningOff_next;
    assert(candidates.contains(candidates[next]));
    let j = choose|j: int|
        0 <= j < seen.len() && #[trigger] action_at(epoch, seen, j)
            == (ActionView::WriteSentinel { names: candidates });
    assert(seen.take(j + 1) =~= events.take(j + 1));
    assert(j != i);
    j
}

/// What a takeover engages with, or restores, are the outputs that it turned off.
pub proof fn law_acts_on_what_was_turned_off(epoch: u64, events: Seq<EventView>, i: int)
    requires
        0 <= i < events.len(),
    ensures
        action_at(epoch, events, i) matches ActionView::Engage { disabled } ==> disabled
            == turned_off(epoch, events.take(i + 1)),
        action_at(epoch, events, i) matches ActionView::Restore { names } ==> names == turned_off(
            epoch,
            events.take(i + 1),
        ),
{
    lemma_run_tracks(epoch, events.take(i + 1));
}

/// No output is left off: a run that has turned outputs off and has come to its end has either
/// engaged the takeover, which remembers them, or restores them.
pub proof fn law_no_output_left_off(epoch: u64, events: Seq<EventView>)
    requires
        in_turn(epoch, events),
        acquire_run(epoch, events).0 is Ended,
        turned_off(epoch, events).len() > 0,
    ensures
        ({
            let off = turned_off(epoch, events);
            let last = acquire_run(epoch, events).1;
            last == (ActionView::Engage { disabled: off }) || last == (ActionView::Restore {
                names: off,
            })
        }),
{
    let n = events.len() - 1;
    let front = events.drop_last();
    assert(events.take(n) =~= front);
    assert(waits_for(acquire_run(epoch, front).0, events[n]));
    lemma_run_tracks(epoch, events);
    lemma_run_tracks(epoch, front);
}

/// A takeover is engaged only while no session has been released since it was asked for: the
/// releases are counted again once everything else has been done.
pub proof fn law_engages_only_for_its_session(epoch: u64, events: Seq<EventView>, i: int)
    requires
        0 <= i < events.len(),
        action_at(epoch, events, i) is Engage,
    ensures
        events[i] == (EventView::Counted { release_epoch: epoch }),
{
    let seen = events.take(i + 1);
    let front = seen.drop_last();
    assert(seen.last() == events[i]);
    lemma_run_keeps_epoch(epoch, front);
}

/// How many events there are at most until taking over has come to its end, given the number of
/// outputs that there are to be turned off where that is not known yet.
pub open spec fn events_left(state: StateView, outputs: int) -> int {
    match state {
        StateView::Start { .. } => outputs + 4,
        StateView::AskedOutputs { .. } => outputs + 3,
        StateView::Creating => 1,
        StateView::Writing { candidates, .. } => candidates.len() as int + 2,
        StateView::TurningOff { candidates, next, .. } => candidates.len() - next + 1,
        StateView::Checking { .. } => 1,
        StateView::Ended => 0,
    }
}

/// Taking over comes to an end: each event that is waited for brings it nearer.
pub proof fn law_acquire_ends(state: StateView, event: EventView, outputs: int)
    requires
        waits_for(state, event),
        state matches StateView::TurningOff { candidates, next, .. } ==> 0 <= next
            < candidates.len(),
        0 <= outputs,
        event matches EventView::Outputs(Some(list)) ==> candidates_of(list).len() <= outputs,
    ensures
        0 <= events_left(acquire_step(state, event).0, outputs) < events_left(state, outputs),
{
}

/// A run that has been told of the outputs was told of a virtual one that is on.
proof fn lemma_virtual_seen(epoch: u64, events: Seq<EventView>)
    ensures
        match acquire_run(epoch, events) {
            (StateView::Writing { .. }, _)
            | (StateView::TurningOff { .. }, _)
            | (StateView::Checking { .. }, _)
            | (_, ActionView::Engage { .. }) => exists|j: int|
                0 <= j < events.len() && (#[trigger] events[j] matches EventView::Outputs(
                    Some(outputs),
                ) && has_virtual(outputs)),
            _ => true,
        },
    decreases events.len(),
{
    if events.len() > 0 {
        let front = events.drop_last();
        lemma_virtual_seen(epoch, front);
        if exists|j: int|
            0 <= j < front.len() && (#[trigger] front[j] matches EventView::Outputs(Some(outputs))
                && has_virtual(outputs)) {
            let j = choose|j: int|
                0 <= j < front.len() && (#[trigger] front[j] matches EventView::Outputs(
                    Some(outputs),
                ) && has_virtual(outputs));
            assert(events[j] == front[j]);
        } else {
            assert(events[events.len() - 1] == events.last());
        }
    }
}

/// A takeover is engaged only if there is a virtual output that is on.
pub proof fn law_engages_only_with_virtual_output(epoch: u64, events: Seq<EventView>, i: int) -> (j:
    int)
    requires
        0 <= i < events.len(),
        action_at(epoch, events, i) is Engage,
    ensures
        0 <= j <= i,
        events[j] matches EventView::Outputs(Some(outputs)) && has_virtual(outputs),
{
    let seen = events.take(i + 1);
    lemma_virtual_seen(epoch, seen);
    let j = choose|j: int|
        0 <= j < seen.len() && (#[trigger] seen[j] matches EventView::Outputs(Some(outputs))
            && has_virtual(outputs));
    assert(seen[j] == events[j]);
    j
}

/// The names of the outputs of a list that are physical and on, in its order.
pub open spec fn physical_and_on(outputs: Seq<NiriOutputView>) -> Seq<Seq<char>> {
    outputs.filter(
        |o: NiriOutputView| !(o.make == "niri"@ && o.model == "virtual"@) && o.mode is Some,
    ).map_values(|o: NiriOutputView| o.name)
}

/// The names of the outputs that were asked to be turned off, in the order of asking.
pub open spec fn asked_off(epoch: u64, events: Seq<EventView>) -> Seq<Seq<char>>
    decreases events.len(),
{
    if events.len() == 0 {
        Seq::empty()
    } else {
        let before = asked_off(epoch, events.drop_last());
        match acquire_run(epoch, events).1 {
            ActionView::TurnOff { name } => before.push(name),
            _ => before,
        }
    }
}

/// Whether the event with index `j` reports outputs of which `names` are physical and on.
pub open spec fn reports(events: Seq<EventView>, j: int, names: Seq<Seq<char>>) -> bool {
    &&& 0 <= j < events.len()
    &&& events[j] matches EventView::Outputs(Some(list)) && physical_and_on(list) == names
}

proof fn lemma_candidates_are_physical_and_on(outputs: Seq<NiriOutputView>)
    ensures
        candidates_of(outputs) == physical_and_on(outputs),
{
    lemma_filter_map_is_filter(
        outputs,
        |o: NiriOutputView| candidate_of(o),
        |o: NiriOutputView| !(o.make == "niri"@ && o.model == "virtual"@) && o.mode is Some,
        |o: NiriOutputView| o.name,
    );
}

/// What a run has asked for so far: of the outputs that were reported as physical and on, those up
/// to the one that is being turned off, and in the end all of them.
#[verifier::rlimit(40)]
#[verifier::spinoff_prover]
proof fn lemma_run_asks(epoch: u64, events: Seq<EventView>) -> (j: int)
    ensures
        ({
            let (state, action) = acquire_run(epoch, events);
            let asked = asked_off(epoch, events);
            match state {
                StateView::Start { .. }
                | StateView::AskedOutputs { .. }
                | StateView::Creating => asked.len() == 0,
                StateView::Writing { candidates, .. } => asked.len() == 0 && reports(
                    events,
                    j,
                    candidates,
                ),
                StateView::TurningOff { candidates, next, .. } => {
                    &&& 0 <= next < candidates.len()
                    &&& asked == candidates.take(next + 1)
                    &&& reports(events, j, candidates)
                },
                StateView::Checking { .. } => reports(events, j, asked),
                StateView::Ended => action is Engage || action is Restore || action
                    is RemoveSentinel ==> reports(events, j, asked),
            }
        }),
    decreases events.len(),
{
    if events.len() == 0 {
        return 0;
    }
    let front = events.drop_last();
    let before = lemma_run_asks(epoch, front);
    let n = events.len() - 1;
    assert(0 <= before < n ==> front[before] == events[before]);
    match (acquire_run(epoch, front).0, events.last()) {
        (StateView::AskedOutputs { .. }, EventView::Outputs(Some(outputs))) => {
            lemma_candidates_are_physical_and_on(outputs);
            assert(events[n] == events.last());
            assert(asked_off(epoch, events) =~= Seq::empty());
            assert(candidates_of(outputs).len() == 0 ==> candidates_of(outputs) =~= Seq::empty());
            n
        },
        (StateView::Writing { candidates, .. }, EventView::SentinelWritten) => {
            if 0 < candidates.len() {
                assert(asked_off(epoch, front).push(candidates[0]) =~= candidates.take(1));
            }
            assert(asked_off(epoch, front) =~= candidates.take(0));
            assert(candidates.len() == 0 ==> candidates.take(0) =~= candidates);
            before
        },
        (StateView::TurningOff { candidates, next, .. }, EventView::TurnedOff { .. }) => {
            if next + 1 < candidates.len() {
                assert(candidates.take(next + 1).push(candidates[next + 1]) =~= candidates.take(
                    next + 2,
                ));
            } else {
                assert(candidates.take(next + 1) =~= candidates);
            }
            before
        },
        _ => before,
    }
}

/// No physical output is passed over: a run that engages, restores or removes its sentinel was told
/// of the outputs, and has asked each of those that are physical and on to be turned off, once, in
/// the order of the report, and no others.
pub proof fn law_every_physical_output_is_turned_off(epoch: u64, events: Seq<EventView>) -> (j: int)
    requires
        ({
            let last = acquire_run(epoch, events).1;
            last is Engage || last is Restore || last is RemoveSentinel
        }),
    ensures
        0 <= j < events.len(),
        events[j] matches EventView::Outputs(Some(list)) && asked_off(epoch, events)
            == list.filter(
            |o: NiriOutputView| !(o.make == "niri"@ && o.model == "virtual"@) && o.mode is Some,
        ).map_values(|o: NiriOutputView| o.name),
{
    let front = events.drop_last();
    lemma_run_tracks(epoch, front);
    lemma_run_asks(epoch, events)
}

/// Whether an output is a virtual one that is on: the compositor made it, and it has a mode and a
/// place.
pub open spec fn virtual_and_on(o: NiriOutputView) -> bool {
    o.make == "niri"@ && o.model == "virtual"@ && o.mode is Some && o.logical is Some
}

/// What each event that is waited for leads to, by what has happened: the outputs are asked for
/// unless a takeover is held or the session is gone; where no virtual output is on, one is created;
/// where one is, the physical outputs that are on are turned off after a sentinel that names just
/// them, and with none of those nothing is written. What was turned off is engaged with if the
/// session is still there, and else restored.
#[verifier::rlimit(40)]
#[verifier::spinoff_prover]
pub proof fn law_acquire_goes_by_what_happened(epoch: u64, events: Seq<EventView>)
    requires
        events.len() > 0,
        in_turn(epoch, events),
    ensures
        ({
            let action = acquire_run(epoch, events).1;
            let off = turned_off(epoch, events);
            match events.last() {
                EventView::Begin { held, release_epoch } => if !held && release_epoch == epoch {
                    action is AskOutputs
                } else {
                    action is Stop
                },
                EventView::Outputs(Some(list)) => if forall|i: int|
                    0 <= i < list.len() ==> !virtual_and_on(#[trigger] list[i]) {
                    action is CreateVirtualOutput
                } else if physical_and_on(list).len() == 0 {
                    action is CountReleases
                } else {
                    action == (ActionView::WriteSentinel { names: physical_and_on(list) })
                },
                EventView::Outputs(None) | EventView::Created => action is Stop,
                EventView::SentinelWritten => action is TurnOff,
                EventView::TurnedOff { .. } => if action is TurnOff {
                    true
                } else if off.len() > 0 {
                    action is CountReleases
                } else {
                    action is RemoveSentinel
                },
                EventView::Counted { release_epoch } => if release_epoch == epoch {
                    action == (ActionView::Engage { disabled: off })
                } else if off.len() > 0 {
                    action == (ActionView::Restore { names: off })
                } else {
                    action is Stop
                },
            }
        }),
{
    let front = events.drop_last();
    let n = events.len() - 1;
    assert(events.take(n) =~= front);
    assert(waits_for(acquire_run(epoch, front).0, events[n]));
    lemma_run_tracks(epoch, events);
    lemma_run_tracks(epoch, front);
    lemma_run_keeps_epoch(epoch, front);
    if let EventView::Outputs(Some(list)) = events.last() {
        lemma_candidates_are_physical_and_on(list);
        if has_virtual(list) {
            let i = choose|i: int| 0 <= i < list.len() && (#[trigger] list[i]).is_virtual_on();
            assert(virtual_and_on(list[i]));
        } else {
            assert forall|i: int| 0 <= i < list.len() implies !virtual_and_on(
                #[trigger] list[i],
            ) by {
                assert(!list[i].is_virtual_on());
            }
        }
    }
}

/// The file name of the sentinel.
pub open spec fn sentinel_name() -> Seq<char> {
    "rustdesk-niri-takeover.json"@
}

/// Where the sentinel is.
pub fn sentinel_path(runtime_dir: &Vec<u8>) -> (r: Vec<u8>)
    ensures
        r@ == joined(runtime_dir@, encode_utf8(sentinel_name())),
{
    join_path(runtime_dir, "rustdesk-niri-takeover.json")
}

/// The content of a sentinel: an object that lists the outputs.
pub open spec fn sentinel_document(names: Seq<Seq<char>>) -> JsonView {
    object1("outputs"@, JsonView::Array(names.map_values(|n: Seq<char>| JsonView::Text(n))))
}

/// The outputs that a sentinel lists: the strings of its list; none if it is not such a document.
pub open spec fn sentinel_outputs(document: Option<JsonView>) -> Seq<Seq<char>> {
    match document {
        Some(d) => match member_array(d, "outputs"@) {
            Some(items) => items.filter_map(|j: JsonView| j.as_text()),
            None => Seq::empty(),
        },
        None => Seq::empty(),
    }
}

/// The strings of a list of strings are all of it.
proof fn lemma_texts_of_texts(names: Seq<Seq<char>>)
    ensures
        names.map_values(|n: Seq<char>| JsonView::Text(n)).filter_map(|j: JsonView| j.as_text())
            == names,
    decreases names.len(),
{
    let items = names.map_values(|n: Seq<char>| JsonView::Text(n));
    if names.len() > 0 {
        lemma_texts_of_texts(names.drop_last());
        assert(items.drop_last() =~= names.drop_last().map_values(
            |n: Seq<char>| JsonView::Text(n),
        ));
        assert(names =~= names.drop_last() + seq![names.last()]);
    }
}

/// A sentinel's content lists the outputs that it was made for.
pub proof fn law_sentinel_lists_its_outputs(names: Seq<Seq<char>>)
    ensures
        sentinel_outputs(Some(sentinel_document(names))) == names,
{
    let members = seq![
        ("outputs"@, JsonView::Array(names.map_values(|n: Seq<char>| JsonView::Text(n)))),
    ];
    assert(members[0].0 == "outputs"@);
    lemma_texts_of_texts(names);
}

proof fn lemma_sentinel_is_plain(names: Seq<Seq<char>>)
    ensures
        sentinel_document(names).is_plain(max_depth()),
{
    reveal_with_fuel(JsonView::is_plain, 4);
}

/// The text of a sentinel. It is read back as the outputs that it was written for.
pub fn sentinel_text(names: &Vec<String>) -> (r: String)
    ensures
        r@ == json_text(sentinel_document(texts(names@))),
        sentinel_outputs(json_parse(r@)) == texts(names@),
{
    let mut items: Vec<Json> = Vec::new();
    let ghost all = texts(names@);
    let ghost as_item = |n: Seq<char>| JsonView::Text(n);
    let mut i: usize = 0;
    assert(item_views(items@) =~= all.take(0).map_values(as_item));
    while i < names.len()
        invariant
            i <= names@.len(),
            all == texts(names@),
            as_item == |n: Seq<char>| JsonView::Text(n),
            item_views(items@) == all.take(i as int).map_values(as_item),
        decreases names@.len() - i,
    {
        let ghost before = items@;
        let item = Json::text(names[i].as_str());
        items.push(item);
        assert(item_views(items@) =~= item_views(before).push(item@));
        assert(all.take(i + 1) =~= all.take(i as int).push(all[i as int]));
        assert(all.take(i + 1).map_values(as_item) =~= all.take(i as int).map_values(as_item).push(
            as_item(all[i as int]),
        ));
        i = i + 1;
    }
    assert(all.take(all.len() as int) =~= all);
    let document = Json::object_of_1("outputs", Json::array(items));
    proof {
        assert(document@ == sentinel_document(all));
        lemma_sentinel_is_plain(all);
        law_plain_document_is_sent(document@, max_depth());
        law_sentinel_lists_its_outputs(all);
    }
    encode_json(&document)
}

/// The outputs that the content of a sentinel lists.
pub fn listed_outputs(document: Option<Json>) -> (r: Vec<String>)
    ensures
        texts(r@) == sentinel_outputs(
            match document {
                Some(d) => Some(d@),
                None => None,
            },
        ),
{
    let mut r: Vec<String> = Vec::new();
    assert(texts(r@) =~= Seq::empty());
    let document = match document {
        Some(document) => document,
        None => {
            return r;
        },
    };
    let items = match document.get("outputs") {
        Some(list) => match list.as_array() {
            Some(items) => items,
            None => {
                return r;
            },
        },
        None => {
            return r;
        },
    };
    let ghost all = item_views(items@);
    let ghost read = |j: JsonView| j.as_text();
    let mut i: usize = 0;
    assert(texts(r@) =~= all.take(0).filter_map(read));
    while i < items.len()
        invariant
            i <= items@.len(),
            all == item_views(items@),
            read == |j: JsonView| j.as_text(),
            texts(r@) == all.take(i as int).filter_map(read),
        decreases items@.len() - i,
    {
        proof {
            all.lemma_filter_map_take_succ(read, i as int);
        }
        let ghost before = r@;
        if let Some(name) = items[i].as_text() {
            r.push(name.to_owned());
            assert(texts(r@) =~= texts(before) + seq![name@]);
        } else {
            assert(texts(before) =~= texts(before) + Seq::empty());
        }
        i = i + 1;
    }
    assert(all.take(all.len() as int) =~= all);
    r
}

/// What is done about the sentinel of a process that died during a takeover.
#[derive(Debug)]
pub enum OrphanAction {
    /// It names nothing.
    RemoveSentinel,
    /// Turn these outputs on again, and move workspaces back.
    Restore { names: Vec<String> },
}

/// Decides what is done about a sentinel that is found at the start, given its text.
pub fn restore_orphaned_takeover(data: &str) -> (r: OrphanAction)
    ensures
        match r {
            OrphanAction::RemoveSentinel => sentinel_outputs(json_parse(data@)).len() == 0,
            OrphanAction::Restore { names } => texts(names@) == sentinel_outputs(json_parse(data@))
                && names@.len() > 0,
        },
{
    let document = match parse_json(data) {
        Ok(document) => Some(document),
        Err(_) => None,
    };
    let names = listed_outputs(document);
    if names.len() == 0 {
        OrphanAction::RemoveSentinel
    } else {
        OrphanAction::Restore { names }
    }
}

/// Decides whether a takeover is asked for; the state that it then starts in.
pub fn session_takeover_acquire(enabled: bool, release_epoch: u64) -> (r: Option<AcquireState>)
    ensures
        match r {
            Some(state) => enabled && state@ == (StateView::Start { epoch: release_epoch }),
            None => !enabled,
        },
{
    if enabled {
        Some(AcquireState::Start { epoch: release_epoch })
    } else {
        None
    }
}

/// The count of releases after one more.
pub fn next_release_epoch(epoch: u64) -> (r: u64)
    ensures
        r == (epoch + 1) % 0x1_0000_0000_0000_0000,
        r != epoch,
{
    epoch.wrapping_add(1)
}

/// Gives a takeover up, if there is one: the outputs to be restored, workspaces included.
pub fn session_takeover_release(held: &mut Option<SessionTakeover>) -> (r: Option<Vec<String>>)
    ensures
        *final(held) is None,
        match *old(held) {
            Some(t) => r == Some(t.disabled),
            None => r is None,
        },
{
    match held.take() {
        Some(t) => Some(t.disabled),
        None => None,
    }
}

/// Whether a takeover is engaged.
pub fn takeover_active(held: &Option<SessionTakeover>) -> (r: bool)
    ensures
        r == (*held is Some),
{
    held.is_some()
}

/// The names whose output came on, in their order, given for each whether it did; of those that
/// nothing is said of yet none has.
pub open spec fn restored_names(names: Seq<Seq<char>>, came_on: Seq<bool>) -> Seq<Seq<char>>
    decreases names.len(),
{
    if names.len() == 0 {
        Seq::empty()
    } else {
        let before = restored_names(names.drop_last(), came_on);
        let last = names.len() - 1;
        if last < came_on.len() && came_on[last] {
            before.push(names[last])
        } else {
            before
        }
    }
}

/// The names whose output came on, in their order.
pub fn restored(names: &Vec<String>, came_on: &Vec<bool>) -> (r: Vec<String>)
    ensures
        texts(r@) == restored_names(texts(names@), came_on@),
{
    let ghost all = texts(names@);
    let mut r: Vec<String> = Vec::new();
    let mut i: usize = 0;
    assert(texts(r@) =~= restored_names(all.take(0), came_on@));
    while i < names.len()
        invariant
            i <= names@.len(),
            all == texts(names@),
            texts(r@) == restored_names(all.take(i as int), came_on@),
        decreases names@.len() - i,
    {
        let ghost before = r@;
        assert(all.take(i + 1).drop_last() =~= all.take(i as int));
        if i < came_on.len() && came_on[i] {
            r.push(names[i].clone());
            assert(texts(r@) =~= texts(before).push(all[i as int]));
        }
        i = i + 1;
    }
    assert(all.take(all.len() as int) =~= all);
    r
}

/// The first of the restored outputs came on, and none before it did.
proof fn lemma_first_restored(names: Seq<Seq<char>>, came_on: Seq<bool>) -> (i: int)
    requires
        restored_names(names, came_on).len() > 0,
    ensures
        0 <= i < names.len(),
        i < came_on.len(),
        came_on[i],
        restored_names(names, came_on)[0] == names[i],
        forall|j: int| 0 <= j < i ==> !(#[trigger] came_on[j]),
    decreases names.len(),
{
    let front = names.drop_last();
    if restored_names(front, came_on).len() > 0 {
        let i = lemma_first_restored(front, came_on);
        assert(front[i] == names[i]);
        i
    } else {
        lemma_none_restored(front, came_on);
        names.len() - 1
    }
}

proof fn lemma_none_restored(names: Seq<Seq<char>>, came_on: Seq<bool>)
    requires
        restored_names(names, came_on).len() == 0,
    ensures
        forall|j: int| 0 <= j < names.len() && j < came_on.len() ==> !(#[trigger] came_on[j]),
    decreases names.len(),
{
    if names.len() > 0 {
        lemma_none_restored(names.drop_last(), came_on);
    }
}

/// A step of turning outputs on again.
#[derive(Debug)]
pub enum RestoreAction {
    TurnOn { name: String },
    RemoveSentinel,
    /// Give the compositor time to move the workspaces that it displaced.
    Wait { millis: u64 },
    /// Move windowed workspaces off the virtual outputs, to the first of these outputs.
    Consolidate { physical: Vec<String> },
    /// Ask again whether the physical outputs can be captured.
    WarmAvailability,
}

/// The mathematical value of a [`RestoreAction`].
pub enum RestoreView {
    TurnOn { name: Seq<char> },
    RemoveSentinel,
    Wait { millis: u64 },
    Consolidate { physical: Seq<Seq<char>> },
    WarmAvailability,
}

impl View for RestoreAction {
    type V = RestoreView;

    open spec fn view(&self) -> RestoreView {
        match *self {
            RestoreAction::TurnOn { name } => RestoreView::TurnOn { name: name@ },
            RestoreAction::RemoveSentinel => RestoreView::RemoveSentinel,
            RestoreAction::Wait { millis } => RestoreView::Wait { millis },
            RestoreAction::Consolidate { physical } => RestoreView::Consolidate {
                physical: texts(physical@),
            },
            RestoreAction::WarmAvailability => RestoreView::WarmAvailability,
        }
    }
}

/// How long the compositor is given, in milliseconds.
pub const CONSOLIDATE_DELAY_MS: u64 = 1500;

/// The steps that turn each output on.
pub open spec fn turn_on_all(names: Seq<Seq<char>>) -> Seq<RestoreView> {
    names.map_values(|n: Seq<char>| RestoreView::TurnOn { name: n })
}

/// What follows after each output was asked to come on, of which those in `on` did.
pub open spec fn after_turning_on(
    any: bool,
    on: Seq<Seq<char>>,
    consolidate: bool,
) -> Seq<RestoreView> {
    if !any {
        seq![RestoreView::RemoveSentinel]
    } else if consolidate {
        seq![
            RestoreView::RemoveSentinel,
            RestoreView::Wait { millis: CONSOLIDATE_DELAY_MS },
            RestoreView::Consolidate { physical: on },
            RestoreView::WarmAvailability,
        ]
    } else {
        seq![RestoreView::RemoveSentinel, RestoreView::WarmAvailability]
    }
}

/// The steps that give outputs back, if they end with `outcomes`.
pub open spec fn restore_steps(
    names: Seq<Seq<char>>,
    outcomes: Seq<bool>,
    consolidate: bool,
) -> Seq<RestoreView> {
    turn_on_all(names) + after_turning_on(
        names.len() > 0,
        restored_names(names, outcomes),
        consolidate,
    )
}

/// The next step of giving outputs back, after as many steps as there are `outcomes`, each of
/// which says whether its step succeeded; `None` if all have been taken. A step that fails does not
/// keep the others from being taken, but workspaces are moved only to an output that came on.
pub fn restore_outputs(names: &Vec<String>, outcomes: &Vec<bool>, consolidate: bool) -> (r: Option<
    RestoreAction,
>)
    ensures
        ({
            let steps = restore_steps(texts(names@), outcomes@, consolidate);
            match r {
                Some(action) => outcomes@.len() < steps.len() && action@ == steps[outcomes@.len() as int],
                None => outcomes@.len() >= steps.len(),
            }
        }),
{
    let taken = outcomes.len();
    if taken < names.len() {
        return Some(RestoreAction::TurnOn { name: names[taken].clone() });
    }
    let after: usize = taken - names.len();
    if after == 0 {
        Some(RestoreAction::RemoveSentinel)
    } else if names.len() == 0 {
        None
    } else if consolidate {
        match after {
            1 => Some(RestoreAction::Wait { millis: CONSOLIDATE_DELAY_MS }),
            2 => Some(RestoreAction::Consolidate { physical: restored(names, outcomes) }),
            3 => Some(RestoreAction::WarmAvailability),
            _ => None,
        }
    } else if after == 1 {
        Some(RestoreAction::WarmAvailability)
    } else {
        None
    }
}

/// Giving outputs back turns every one of them on, and only then removes the sentinel.
pub proof fn law_restore_turns_all_on(
    names: Seq<Seq<char>>,
    outcomes: Seq<bool>,
    consolidate: bool,
    i: int,
)
    requires
        0 <= i < names.len(),
    ensures
        restore_steps(names, outcomes, consolidate)[i] == (RestoreView::TurnOn { name: names[i] }),
        forall|j: int|
            0 <= j < restore_steps(names, outcomes, consolidate).len() && #[trigger] restore_steps(
                names,
                outcomes,
                consolidate,
            )[j] is RemoveSentinel ==> i < j,
{
    let steps = restore_steps(names, outcomes, consolidate);
    assert forall|j: int| 0 <= j < steps.len() && #[trigger] steps[j] is RemoveSentinel implies i
        < j by {
        if j < names.len() {
            assert(steps[j] == turn_on_all(names)[j]);
        }
    }
}

/// The next step depends on what has happened only: later outcomes do not change it.
pub proof fn law_steps_go_by_the_past(
    names: Seq<Seq<char>>,
    outcomes: Seq<bool>,
    consolidate: bool,
    i: int,
)
    requires
        0 <= i <= outcomes.len(),
        i < restore_steps(names, outcomes, consolidate).len(),
    ensures
        restore_steps(names, outcomes, consolidate)[i] == restore_steps(
            names,
            outcomes.take(i),
            consolidate,
        )[i],
{
    if i >= names.len() {
        lemma_restored_by_prefix(names, outcomes, i);
    }
}

proof fn lemma_restored_by_prefix(names: Seq<Seq<char>>, outcomes: Seq<bool>, i: int)
    requires
        names.len() <= i <= outcomes.len(),
    ensures
        restored_names(names, outcomes) == restored_names(names, outcomes.take(i)),
    decreases names.len(),
{
    if names.len() > 0 {
        lemma_restored_by_prefix(names.drop_last(), outcomes, i);
    }
}

/// Workspaces go to the first restored output: where they are moved to one at all, it is one that
/// came on, and none that is named before it did.
pub proof fn law_workspaces_go_to_restored_output(
    names: Seq<Seq<char>>,
    outcomes: Seq<bool>,
    consolidate: bool,
    k: int,
) -> (i: int)
    requires
        0 <= k < restore_steps(names, outcomes, consolidate).len(),
        restore_steps(names, outcomes, consolidate)[k] matches RestoreView::Consolidate { physical }
            && physical.len() > 0,
    ensures
        0 <= i < names.len(),
        i < outcomes.len(),
        outcomes[i],
        forall|j: int| 0 <= j < i ==> !(#[trigger] outcomes[j]),
        restore_steps(names, outcomes, consolidate)[k]->physical[0] == names[i],
{
    if k < names.len() {
        assert(restore_steps(names, outcomes, consolidate)[k] == turn_on_all(names)[k]);
    }
    lemma_first_restored(names, outcomes)
}

/// An output that comes on is one to move workspaces to: with one there is a target.
pub proof fn law_restored_output_is_a_target(names: Seq<Seq<char>>, outcomes: Seq<bool>, i: int)
    requires
        0 <= i < names.len(),
        i < outcomes.len(),
        outcomes[i],
    ensures
        restored_names(names, outcomes).contains(names[i]),
        restore_steps(names, outcomes, true).contains(
            RestoreView::Consolidate { physical: restored_names(names, outcomes) },
        ),
{
    lemma_restored_contains(names, outcomes, i);
    let steps = restore_steps(names, outcomes, true);
    assert(steps[names.len() as int + 2] == RestoreView::Consolidate {
        physical: restored_names(names, outcomes),
    });
}

proof fn lemma_restored_contains(names: Seq<Seq<char>>, outcomes: Seq<bool>, i: int)
    requires
        0 <= i < names.len(),
        i < outcomes.len(),
        outcomes[i],
    ensures
        restored_names(names, outcomes).contains(names[i]),
    decreases names.len(),
{
    let r = restored_names(names, outcomes);
    let front = names.drop_last();
    let before = restored_names(front, outcomes);
    if i < front.len() {
        lemma_restored_contains(front, outcomes, i);
        let k = choose|k: int| 0 <= k < before.len() && before[k] == front[i];
        assert(r[k] == names[i]);
    } else {
        assert(r[before.len() as int] == names[i]);
    }
}

/// The restored outputs are those that came on, in their order: leaving out the last output, they
/// are what they were without it, with it at the end if it came on.
proof fn lemma_restored_len(names: Seq<Seq<char>>, came_on: Seq<bool>)
    ensures
        restored_names(names, came_on).len() <= names.len(),
        names.len() <= came_on.len() && (forall|i: int|
            0 <= i < names.len() ==> #[trigger] came_on[i]) ==> restored_names(names, came_on) == names,
    decreases names.len(),
{
    if names.len() > 0 {
        let front = names.drop_last();
        lemma_restored_len(front, came_on);
        if names.len() <= came_on.len() && (forall|i: int|
            0 <= i < names.len() ==> #[trigger] came_on[i]) {
            assert(came_on[names.len() - 1]);
            assert(restored_names(front, came_on) == front);
            assert(front.push(names[names.len() - 1]) =~= names);
        }
    } else {
        assert(restored_names(names, came_on) =~= names);
    }
}

/// Each restored output is one that came on, and they stand in the order of the names.
proof fn lemma_restored_places(names: Seq<Seq<char>>, came_on: Seq<bool>, a: int, b: int) -> (r: (
    int,
    int,
))
    requires
        0 <= a < b < restored_names(names, came_on).len(),
    ensures
        0 <= r.0 < r.1 < names.len(),
        r.1 < came_on.len(),
        came_on[r.0] && came_on[r.1],
        restored_names(names, came_on)[a] == names[r.0],
        restored_names(names, came_on)[b] == names[r.1],
    decreases names.len(),
{
    let front = names.drop_last();
    let before = restored_names(front, came_on);
    if b < before.len() {
        let (x, y) = lemma_restored_places(front, came_on, a, b);
        assert(front[x] == names[x] && front[y] == names[y]);
        (x, y)
    } else {
        let x = lemma_restored_place(front, came_on, a);
        assert(front[x] == names[x]);
        (x, names.len() - 1)
    }
}

proof fn lemma_restored_place(names: Seq<Seq<char>>, came_on: Seq<bool>, a: int) -> (i: int)
    requires
        0 <= a < restored_names(names, came_on).len(),
    ensures
        0 <= i < names.len(),
        i < came_on.len(),
        came_on[i],
        restored_names(names, came_on)[a] == names[i],
    decreases names.len(),
{
    let front = names.drop_last();
    if a < restored_names(front, came_on).len() {
        let i = lemma_restored_place(front, came_on, a);
        assert(front[i] == names[i]);
        i
    } else {
        names.len() - 1
    }
}

/// Workspaces are moved to outputs that came on and to no others: every output that came on is
/// listed, all that are listed came on, and they are listed in the order in which they were turned
/// on. If all came on, all are listed.
pub proof fn law_restored_are_those_that_came_on(
    names: Seq<Seq<char>>,
    came_on: Seq<bool>,
    a: int,
    b: int,
) -> (r: (int, int))
    ensures
        forall|i: int|
            0 <= i < names.len() && i < came_on.len() && #[trigger] came_on[i] ==> restored_names(
                names,
                came_on,
            ).contains(names[i]),
        names.len() <= came_on.len() && (forall|i: int|
            0 <= i < names.len() ==> #[trigger] came_on[i]) ==> restored_names(names, came_on) == names,
        0 <= a < b < restored_names(names, came_on).len() ==> {
            &&& 0 <= r.0 < r.1 < names.len()
            &&& r.1 < came_on.len()
            &&& came_on[r.0] && came_on[r.1]
            &&& restored_names(names, came_on)[a] == names[r.0]
            &&& restored_names(names, came_on)[b] == names[r.1]
        },
        0 <= a == b < restored_names(names, came_on).len() ==> {
            &&& 0 <= r.0 < names.len()
            &&& r.0 < came_on.len()
            &&& came_on[r.0]
            &&& restored_names(names, came_on)[a] == names[r.0]
        },
{
    lemma_restored_len(names, came_on);
    assert forall|i: int|
        0 <= i < names.len() && i < came_on.len() && #[trigger] came_on[i] implies restored_names(
        names,
        came_on,
    ).contains(names[i]) by {
        lemma_restored_contains(names, came_on, i);
    }
    if 0 <= a < b < restored_names(names, came_on).len() {
        lemma_restored_places(names, came_on, a, b)
    } else if 0 <= a == b < restored_names(names, came_on).len() {
        (lemma_restored_place(names, came_on, a), 0)
    } else {
        (0, 0)
    }
}

/// After the outputs have been turned on the sentinel is removed, once. Where there were outputs,
/// it is asked last whether they can be captured again; where workspaces are to be moved, that is
/// before, after the compositor was given a second and a half; and where they are not, nothing is
/// waited for.
pub proof fn law_restore_ends_in_order(
    names: Seq<Seq<char>>,
    outcomes: Seq<bool>,
    consolidate: bool,
    k: int,
)
    requires
        0 <= k < restore_steps(names, outcomes, consolidate).len(),
    ensures
        ({
            let steps = restore_steps(names, outcomes, consolidate);
            let n = names.len() as int;
            &&& steps[k] is TurnOn <==> k < n
            &&& steps[k] is RemoveSentinel <==> k == n
            &&& steps[k] is WarmAvailability <==> n > 0 && k == steps.len() - 1
            &&& steps[k] is Wait <==> n > 0 && consolidate && k == n + 1
            &&& steps[k] is Consolidate <==> n > 0 && consolidate && k == n + 2
            &&& (steps[k] matches RestoreView::Wait { millis } ==> millis == 1500)
            &&& (steps[k] matches RestoreView::Consolidate { physical } ==> physical
                == restored_names(names, outcomes))
            &&& steps.len() == n + (if n == 0 {
                1int
            } else if consolidate {
                4
            } else {
                2
            })
        }),
{
    let steps = restore_steps(names, outcomes, consolidate);
    if k < names.len() {
        assert(steps[k] == turn_on_all(names)[k]);
    }
}

/// The outputs that a document lists are the strings among the items of its list, in their order.
pub proof fn law_strings_of_a_sentinel_are_listed(items: Seq<JsonView>)
    ensures
        sentinel_outputs(Some(object1("outputs"@, JsonView::Array(items)))) == items.filter(
            |j: JsonView| j is Text,
        ).map_values(|j: JsonView| j->Text_0),
        sentinel_outputs(None).len() == 0,
{
    let members = seq![("outputs"@, JsonView::Array(items))];
    assert(members[0].0 == "outputs"@);
    lemma_filter_map_is_filter(
        items,
        |j: JsonView| j.as_text(),
        |j: JsonView| j is Text,
        |j: JsonView| j->Text_0,
    );
}

/// An output that was turned off was asked to be.
proof fn lemma_turned_off_was_asked(epoch: u64, events: Seq<EventView>, name: Seq<char>) -> (i: int)
    requires
        turned_off(epoch, events).contains(name),
    ensures
        0 <= i < events.len(),
        action_at(epoch, events, i) == (ActionView::TurnOff { name }),
    decreases events.len(),
{
    let front = events.drop_last();
    if turned_off(epoch, front).contains(name) {
        let i = lemma_turned_off_was_asked(epoch, front, name);
        assert(front.take(i + 1) =~= events.take(i + 1));
        i
    } else {
        let k = choose|k: int|
            0 <= k < turned_off(epoch, events).len() && turned_off(epoch, events)[k] == name;
        if k < turned_off(epoch, front).len() {
            assert(turned_off(epoch, front)[k] == name);
        }
        let n = events.len() - 2;
        if front.len() == 0 {
            assert(acquire_run(epoch, front).1 is Stop);
        }
        assert(events.take(n + 1) =~= front);
        n
    }
}

/// Once the sentinel is removed, no output has been turned off, nor will be.
proof fn lemma_removed_means_none_off(epoch: u64, events: Seq<EventView>, i: int)
    requires
        0 <= i < events.len(),
        action_at(epoch, events, i) is RemoveSentinel,
    ensures
        acquire_run(epoch, events).0 is Ended,
        turned_off(epoch, events).len() == 0,
    decreases events.len(),
{
    let front = events.drop_last();
    if i < front.len() {
        assert(front.take(i + 1) =~= events.take(i + 1));
        lemma_removed_means_none_off(epoch, front, i);
        lemma_run_tracks(epoch, front);
    } else {
        assert(events.take(i + 1) =~= events);
        lemma_run_tracks(epoch, front);
        lemma_run_tracks(epoch, events);
    }
}

/// A crash leaves enough behind: whenever a run has turned an output off, it has asked for a sentinel
/// before and has not asked for its removal, and what is done about that sentinel turns the output on,
/// whatever comes of the other steps.
pub proof fn law_crash_recovery(
    epoch: u64,
    events: Seq<EventView>,
    name: Seq<char>,
    outcomes: Seq<bool>,
) -> (j: int)
    requires
        turned_off(epoch, events).contains(name),
    ensures
        0 <= j < events.len(),
        action_at(epoch, events, j) matches ActionView::WriteSentinel { names } && restore_steps(
            sentinel_outputs(Some(sentinel_document(names))),
            outcomes,
            true,
        ).contains(RestoreView::TurnOn { name }),
        forall|i: int|
            0 <= i < events.len() ==> !(#[trigger] action_at(epoch, events, i) is RemoveSentinel),
{
    let i = lemma_turned_off_was_asked(epoch, events, name);
    let j = law_sentinel_before_turn_off(epoch, events, i, name);
    let names = action_at(epoch, events, j)->WriteSentinel_names;
    law_sentinel_lists_its_outputs(names);
    let k = choose|k: int| 0 <= k < names.len() && names[k] == name;
    law_restore_turns_all_on(names, outcomes, true, k);
    assert(restore_steps(names, outcomes, true)[k] == RestoreView::TurnOn { name });
    assert forall|i: int| 0 <= i < events.len() implies !(#[trigger] action_at(epoch, events, i)
        is RemoveSentinel) by {
        if action_at(epoch, events, i) is RemoveSentinel {
            lemma_removed_means_none_off(epoch, events, i);
        }
    }
    j
}

/// Releasing a takeover that a run engaged turns on every output that the run turned off.
pub proof fn law_release_undoes_acquire(
    epoch: u64,
    events: Seq<EventView>,
    name: Seq<char>,
    outcomes: Seq<bool>,
)
    requires
        acquire_run(epoch, events).1 is Engage,
        turned_off(epoch, events).contains(name),
    ensures
        restore_steps(acquire_run(epoch, events).1->disabled, outcomes, true).contains(
            RestoreView::TurnOn { name },
        ),
{
    let n = events.len() - 1;
    assert(events.take(n + 1) =~= events);
    law_acts_on_what_was_turned_off(epoch, events, n);
    let off = turned_off(epoch, events);
    let k = choose|k: int| 0 <= k < off.len() && off[k] == name;
    law_restore_turns_all_on(off, outcomes, true, k);
    assert(restore_steps(off, outcomes, true)[k] == RestoreView::TurnOn { name });
}

/// Whether a workspace has windows and lies on one of the virtual outputs.
pub open spec fn is_stranded(ws: NiriWorkspaceView, virtuals: Seq<NiriOutputView>) -> bool {
    ws.has_windows && ws.output is Some && exists|i: int|
        0 <= i < virtuals.len() && (#[trigger] virtuals[i]).name == ws.output->0
}

/// The workspaces to be moved: those that are stranded on a virtual output.
pub open spec fn stranded_ids(
    workspaces: Seq<NiriWorkspaceView>,
    virtuals: Seq<NiriOutputView>,
) -> Seq<u64> {
    workspaces.filter_map(
        |ws: NiriWorkspaceView|
            if is_stranded(ws, virtuals) {
                Some(ws.id)
            } else {
                None
            },
    )
}

/// No workspace stays behind: the workspaces to be moved are those that are stranded.
pub proof fn law_moves_what_is_stranded(
    workspaces: Seq<NiriWorkspaceView>,
    virtuals: Seq<NiriOutputView>,
    id: u64,
)
    ensures
        stranded_ids(workspaces, virtuals).contains(id) <==> exists|i: int|
            0 <= i < workspaces.len() && is_stranded(#[trigger] workspaces[i], virtuals)
                && workspaces[i].id == id,
    decreases workspaces.len(),
{
    let ids = stranded_ids(workspaces, virtuals);
    if workspaces.len() > 0 {
        let front = workspaces.drop_last();
        let last = workspaces.last();
        let n = workspaces.len() - 1;
        law_moves_what_is_stranded(front, virtuals, id);
        let pick = |ws: NiriWorkspaceView|
            if is_stranded(ws, virtuals) {
                Some(ws.id)
            } else {
                None
            };
        workspaces.lemma_filter_map_take_succ(pick, n);
        assert(workspaces.take(n) =~= front);
        assert(workspaces.take(n + 1) =~= workspaces);
        let before = stranded_ids(front, virtuals);
        if is_stranded(last, virtuals) {
            assert(ids == before + seq![last.id]);
            if before.contains(id) {
                let k = choose|k: int| 0 <= k < before.len() && before[k] == id;
                assert(ids[k] == id);
            }
            if last.id == id {
                assert(ids[before.len() as int] == id);
                assert(workspaces[n] == last);
            }
        } else {
            assert(ids =~= before);
        }
        if exists|i: int|
            0 <= i < front.len() && is_stranded(#[trigger] front[i], virtuals) && front[i].id == id {
            let i = choose|i: int|
                0 <= i < front.len() && is_stranded(#[trigger] front[i], virtuals) && front[i].id
                    == id;
            assert(workspaces[i] == front[i]);
        }
    }
}

/// The ids to be moved are those of the workspaces that have windows and whose output has the name
/// of one of the virtual outputs, whichever of them it is; each once, in the order of the
/// workspaces.
#[verifier::rlimit(40)]
#[verifier::spinoff_prover]
pub proof fn law_moves_windows_off_every_virtual_output(
    workspaces: Seq<NiriWorkspaceView>,
    virtuals: Seq<NiriOutputView>,
    k: int,
) -> (r: (int, int))
    ensures
        stranded_ids(workspaces, virtuals) == workspaces.filter(
            |ws: NiriWorkspaceView|
                ws.has_windows && exists|j: int|
                    0 <= j < virtuals.len() && ws.output == Some((#[trigger] virtuals[j]).name),
        ).map_values(|ws: NiriWorkspaceView| ws.id),
        forall|i: int, j: int|
            0 <= i < workspaces.len() && 0 <= j < virtuals.len() && (
            #[trigger] workspaces[i]).has_windows && workspaces[i].output == Some(
                (#[trigger] virtuals[j]).name,
            ) ==> stranded_ids(workspaces, virtuals).contains(workspaces[i].id),
        0 <= k < stranded_ids(workspaces, virtuals).len() ==> {
            &&& 0 <= r.0 < workspaces.len()
            &&& 0 <= r.1 < virtuals.len()
            &&& workspaces[r.0].id == stranded_ids(workspaces, virtuals)[k]
            &&& workspaces[r.0].has_windows
            &&& workspaces[r.0].output == Some(virtuals[r.1].name)
        },
{
    let ids = stranded_ids(workspaces, virtuals);
    let moved = |ws: NiriWorkspaceView|
        ws.has_windows && exists|j: int|
            0 <= j < virtuals.len() && ws.output == Some((#[trigger] virtuals[j]).name);
    let pick = |ws: NiriWorkspaceView|
        if is_stranded(ws, virtuals) {
            Some(ws.id)
        } else {
            None
        };
    let id_of = |ws: NiriWorkspaceView| ws.id;
    assert forall|i: int| 0 <= i < workspaces.len() implies pick(#[trigger] workspaces[i]) == (
    if moved(workspaces[i]) {
        Some(id_of(workspaces[i]))
    } else {
        None
    }) by {
        let ws = workspaces[i];
        if is_stranded(ws, virtuals) {
            let j = choose|j: int|
                0 <= j < virtuals.len() && (#[trigger] virtuals[j]).name == ws.output->0;
            assert(ws.output == Some(virtuals[j].name));
        }
        if moved(ws) {
            let j = choose|j: int|
                0 <= j < virtuals.len() && ws.output == Some((#[trigger] virtuals[j]).name);
            assert(virtuals[j].name == ws.output->0);
        }
    }
    lemma_filter_map_is_filter(workspaces, pick, moved, id_of);
    let kept = workspaces.filter(moved);
    assert forall|i: int, j: int|
        0 <= i < workspaces.len() && 0 <= j < virtuals.len() && (
        #[trigger] workspaces[i]).has_windows && workspaces[i].output == Some(
            (#[trigger] virtuals[j]).name,
        ) implies ids.contains(workspaces[i].id) by {
        lemma_filter_holds(workspaces, moved, workspaces[i]);
        let k = choose|k: int| 0 <= k < kept.len() && kept[k] == workspaces[i];
        assert(ids[k] == workspaces[i].id);
    }
    if 0 <= k < ids.len() {
        assert(kept.contains(kept[k]));
        lemma_filter_holds(workspaces, moved, kept[k]);
        let i = choose|i: int| 0 <= i < workspaces.len() && workspaces[i] == kept[k];
        let ws = workspaces[i];
        let j = choose|j: int|
            0 <= j < virtuals.len() && ws.output == Some((#[trigger] virtuals[j]).name);
        (i, j)
    } else {
        (0, 0)
    }
}

fn stranded(ws: &NiriWorkspace, virtuals: &Vec<NiriOutput>) -> (r: bool)
    ensures
        r == is_stranded(ws@, views(virtuals@)),
{
    if !ws.has_windows {
        return false;
    }
    let output = match &ws.output {
        Some(output) => output.as_str(),
        None => {
            return false;
        },
    };
    let mut i: usize = 0;
    while i < virtuals.len()
        invariant
            i <= virtuals@.len(),
            ws.has_windows,
            ws@.output == Some(output@),
            forall|j: int| 0 <= j < i ==> (#[trigger] views(virtuals@)[j]).name != output@,
        decreases virtuals@.len() - i,
    {
        assert(views(virtuals@)[i as int] == virtuals@[i as int]@);
        if same_text(virtuals[i].name.as_str(), output) {
            return true;
        }
        i = i + 1;
    }
    false
}

/// The moves that bring every windowed workspace that is still on a virtual output to the first of
/// the restored outputs, which are those in `physical`: that output, and the ids of the workspaces,
/// in their order. Nothing is moved where there is no such output, or where the workspaces are not
/// known.
pub fn consolidate_workspaces_to(
    physical: &Vec<String>,
    virtuals: &Vec<NiriOutput>,
    list: &Result<Vec<NiriWorkspace>, IpcError>,
) -> (r: Option<(String, Vec<u64>)>)
    ensures
        match (r, *list) {
            (Some((target, ids)), Ok(workspaces)) => {
                &&& physical@.len() > 0
                &&& target@ == physical@[0]@
                &&& ids@ == stranded_ids(views(workspaces@), views(virtuals@))
            },
            (Some(_), Err(_)) => false,
            (None, Ok(_)) => physical@.len() == 0,
            (None, Err(_)) => true,
        },
{
    if physical.len() == 0 {
        return None;
    }
    let workspaces = match list {
        Ok(workspaces) => workspaces,
        Err(_) => {
            return None;
        },
    };
    let ghost all = views(workspaces@);
    let ghost vs = views(virtuals@);
    let ghost pick = |ws: NiriWorkspaceView|
        if is_stranded(ws, vs) {
            Some(ws.id)
        } else {
            None
        };
    let mut ids: Vec<u64> = Vec::new();
    let mut i: usize = 0;
    assert(ids@ =~= all.take(0).filter_map(pick));
    while i < workspaces.len()
        invariant
            i <= workspaces@.len(),
            all == views(workspaces@),
            vs == views(virtuals@),
            pick == |ws: NiriWorkspaceView|
                if is_stranded(ws, vs) {
                    Some(ws.id)
                } else {
                    None
                },
            ids@ == all.take(i as int).filter_map(pick),
        decreases workspaces@.len() - i,
    {
        proof {
            all.lemma_filter_map_take_succ(pick, i as int);
        }
        let ghost before = ids@;
        if stranded(&workspaces[i], virtuals) {
            ids.push(workspaces[i].id);
            assert(ids@ =~= before + seq![workspaces@[i as int].id]);
        } else {
            assert(before =~= before + Seq::empty());
        }
        i = i + 1;
    }
    assert(all.take(all.len() as int) =~= all);
    assert(ids@ == stranded_ids(all, vs));
    Some((physical[0].clone(), ids))
}

/// The name of the virtual output that is created where there is none.
pub const VIRTUAL_OUTPUT_NAME: &'static str = "rustdesk-virtual-1";

/// Asks for the virtual output that the next session is to find.
pub fn missing_output_request() -> (r: Json)
    ensures
        r@ == object1(
            "CreateVirtualOutput"@,
            JsonView::Object(
                virtual_output_members(
                    VIRTUAL_OUTPUT_NAME@,
                    1920,
                    1080,
                    60,
                    JsonView::fraction("2.0"@),
                ),
            ),
        ),
        r@.is_shallow(max_depth()),
{
    create_virtual_output_request(VIRTUAL_OUTPUT_NAME, 1920, 1080, 60, Some("2.0"))
}

} // verus!
