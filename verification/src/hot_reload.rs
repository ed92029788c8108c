//! The decisions of run-time hot code reloading: what the host does with the
//! client library and its state on every update.

use vstd::prelude::*;

verus! {

/// A descriptive type to control the main application loop.
#[derive(Debug, Clone, Copy, PartialEq, Eq, Structural)]
pub enum Loop {
    /// The client application should continue running.
    Continue,
    /// The client application should be terminated.
    Stop,
}

/// The number a `Loop` crosses the library boundary as.
pub open spec fn loop_code(l: Loop) -> u32 {
    match l {
        Loop::Continue => 0,
        Loop::Stop => 1,
    }
}

/// The `Loop` a number from across the library boundary stands for: 0 means
/// continue, anything else stop.
pub open spec fn loop_of_code(n: u32) -> Loop {
    if n == 0 {
        Loop::Continue
    } else {
        Loop::Stop
    }
}

impl Loop {
    /// The `Loop` that a number returned by the client stands for.
    pub fn from_u32(n: u32) -> (r: Self)
        ensures
            r == loop_of_code(n),
    {
        if n == 0 {
            Loop::Continue
        } else {
            Loop::Stop
        }
    }

    /// The number this `Loop` is handed over as.
    pub fn to_u32(self) -> (r: u32)
        ensures
            r == loop_code(self),
    {
        if self == Loop::Continue {
            0
        } else {
            1
        }
    }
}

/// A `Loop` comes back unchanged from its number.
pub proof fn lemma_loop_round_trip(l: Loop)
    ensures
        loop_of_code(loop_code(l)) == l,
{
}

/// A step that the host performs on the client library or its state.
#[derive(Debug, Clone, Copy, PartialEq, Eq, Structural)]
pub enum HostAction {
    /// Allocate and create a new client state.
    NewState,
    /// Let the client initialize its state.
    Initialize,
    /// Tell the client that its code has been loaded.
    Reload,
    /// Tell the client that its code is about to be unloaded.
    Unload,
    /// Copy the library to the path of the given copy, load it and its
    /// symbol, and remove the previous copy.
    SwapLibrary(usize),
    /// Let the new code migrate the state of the old one.
    MigrateState,
    /// Run the client's update.
    Update,
    /// Let the client clean up its state.
    Terminate,
    /// Destroy the client state.
    DropState,
}

/// What the host knows between updates: whether the client has a state, and
/// how many times the library has been reloaded.
#[derive(Debug, Clone, Copy, PartialEq, Eq, Structural)]
pub struct HostState {
    pub has_state: bool,
    pub counter: usize,
}

/// The steps before an update: a client without state gets a new one,
/// initialized and reloaded; a changed library is unloaded, swapped for its
/// next copy, migrated to and reloaded; then the update runs.
pub open spec fn before_update_actions(state: HostState, library_changed: bool) -> Seq<HostAction> {
    (if state.has_state {
        Seq::empty()
    } else {
        seq![HostAction::NewState, HostAction::Initialize, HostAction::Reload]
    }) + (if library_changed {
        seq![
            HostAction::Unload,
            HostAction::SwapLibrary((state.counter + 1) as usize),
            HostAction::MigrateState,
            HostAction::Reload,
        ]
    } else {
        Seq::empty()
    }) + seq![HostAction::Update]
}

/// Decides the steps of an update, before the client's update runs, from the
/// host's state and whether the library file changed since it was loaded.
pub fn before_update(state: HostState, library_changed: bool) -> (r: (HostState, Vec<HostAction>))
    requires
        library_changed ==> state.counter < usize::MAX,
    ensures
        r.0.has_state,
        r.0.counter == if library_changed {
            state.counter + 1
        } else {
            state.counter as int
        },
        r.1@ == before_update_actions(state, library_changed),
{
    let mut actions: Vec<HostAction> = Vec::new();
    if !state.has_state {
        // Create new state, initialize, reload
        actions.push(HostAction::NewState);
        actions.push(HostAction::Initialize);
        actions.push(HostAction::Reload);
    }
    let mut counter = state.counter;
    if library_changed {
        // Reload the library
        actions.push(HostAction::Unload);
        counter = counter + 1;
        actions.push(HostAction::SwapLibrary(counter));
        actions.push(HostAction::MigrateState);
        actions.push(HostAction::Reload);
    }
    // Now perform the update
    actions.push(HostAction::Update);
    assert(actions@ =~= before_update_actions(state, library_changed));
    (HostState { has_state: true, counter }, actions)
}

/// A client that stopped starts over: the update after a stop first creates,
/// initializes and reloads a new state.
pub proof fn lemma_restart_after_stop(state: HostState, result: u32, library_changed: bool)
    requires
        loop_of_code(result) == Loop::Stop,
    ensures
        ({
            let after = HostState { has_state: false, counter: state.counter };
            let actions = before_update_actions(after, library_changed);
            &&& actions[0] == HostAction::NewState
            &&& actions[1] == HostAction::Initialize
            &&& actions[2] == HostAction::Reload
            &&& actions.last() == HostAction::Update
        }),
{
}

/// Decides the steps after the client's update returned `result`: a stopped
/// client is unloaded, terminated and loses its state.
pub fn after_update(state: HostState, result: u32) -> (r: (HostState, Loop, Vec<HostAction>))
    ensures
        r.1 == loop_of_code(result),
        r.0.counter == state.counter,
        r.1 == Loop::Stop ==> !r.0.has_state && r.2@ == seq![
            HostAction::Unload,
            HostAction::Terminate,
            HostAction::DropState,
        ],
        r.1 == Loop::Continue ==> r.0 == state && r.2@ == Seq::<HostAction>::empty(),
{
    let loop_res = Loop::from_u32(result);
    let mut actions: Vec<HostAction> = Vec::new();
    if loop_res == Loop::Stop {
        actions.push(HostAction::Unload);
        actions.push(HostAction::Terminate);
        actions.push(HostAction::DropState);
        assert(actions@ =~= seq![HostAction::Unload, HostAction::Terminate, HostAction::DropState]);
        return (HostState { has_state: false, counter: state.counter }, loop_res, actions);
    }
    assert(actions@ =~= Seq::<HostAction>::empty());
    (state, loop_res, actions)
}

} // verus!
