//! The client orchestrator: the work-lease loop as a state machine.
//!
//! The orchestrator registers with the master, loads the queries,
//! repeatedly leases a work item, streams it to exhaustion, drains the
//! scan engines, marks the item complete, and loops.  An empty queue
//! makes it release its session, cool down, and register afresh; fatal
//! failures stop the worker.  Every decision is here, as one step
//! function from state and event to the next state and the action to
//! perform; performing the action — the network call, the sleep, the
//! scan-engine poll — is the surrounding loop's unverified work.
use vstd::prelude::*;

use crate::codec::copy_range;

verus! {

/// How many depth polls the draining phase waits for idle engines before
/// forcing completion.
pub const MAX_DRAIN_WAIT: u64 = 300;

/// Where the orchestrator stands.
pub enum OrchestratorState {
    /// Exchanging the shared secret for an access session.
    Registering,
    /// Fetching and compiling the query set.
    LeasingQueries { access_key: Vec<u8> },
    /// Asking the master for the next work item.
    LeasingWork { access_key: Vec<u8> },
    /// Streaming the leased archive through the pipeline.
    Streaming { access_key: Vec<u8>, work_id: Vec<u8> },
    /// Waiting for the scan engines to finish the final batches.
    Draining { access_key: Vec<u8>, work_id: Vec<u8>, waited: u64 },
    /// Flushing final outputs and marking the work item done.
    Completing { access_key: Vec<u8> },
    /// Session released after an empty queue; sleeping before
    /// registering again.
    CoolingDown,
    /// A fatal failure stopped the worker.
    Stopped { code: i32 },
}

/// The model of an orchestrator state.
pub enum StateModel {
    Registering,
    LeasingQueries { access_key: Seq<u8> },
    LeasingWork { access_key: Seq<u8> },
    Streaming { access_key: Seq<u8>, work_id: Seq<u8> },
    Draining { access_key: Seq<u8>, work_id: Seq<u8>, waited: u64 },
    Completing { access_key: Seq<u8> },
    CoolingDown,
    Stopped { code: i32 },
}

impl View for OrchestratorState {
    type V = StateModel;

    open spec fn view(&self) -> StateModel {
        match self {
            OrchestratorState::Registering => StateModel::Registering,
            OrchestratorState::LeasingQueries { access_key } => StateModel::LeasingQueries {
                access_key: access_key@,
            },
            OrchestratorState::LeasingWork { access_key } => StateModel::LeasingWork {
                access_key: access_key@,
            },
            OrchestratorState::Streaming { access_key, work_id } => StateModel::Streaming {
                access_key: access_key@,
                work_id: work_id@,
            },
            OrchestratorState::Draining { access_key, work_id, waited } => StateModel::Draining {
                access_key: access_key@,
                work_id: work_id@,
                waited: *waited,
            },
            OrchestratorState::Completing { access_key } => StateModel::Completing {
                access_key: access_key@,
            },
            OrchestratorState::CoolingDown => StateModel::CoolingDown,
            OrchestratorState::Stopped { code } => StateModel::Stopped { code: *code },
        }
    }
}

/// What the outside world reported back to the orchestrator.
pub enum OrchestratorEvent {
    /// Registration succeeded with this access key.
    Registered { access_key: Vec<u8> },
    /// Registration or the initial handshake failed.
    RegisterFailed,
    /// The query set was fetched, parsed and compiled.
    QueriesLoaded,
    /// The query set could not be fetched, parsed or compiled.
    QueriesFailed,
    /// The master leased this work item.
    WorkLeased { locator: Vec<u8>, id: Vec<u8> },
    /// The master reported an empty queue.
    QueueEmpty,
    /// The leasing call itself failed.
    LeaseFailed,
    /// The archive stream ran dry and the final batch was dispatched.
    StreamExhausted,
    /// A poll of the scan engines' greatest pending-batch depth.
    DepthReport { depth: isize },
    /// The master acknowledged completion.
    Completed,
    /// The completion call failed; this is log-only.
    CompleteFailed,
    /// The cooldown sleep is over.
    CooldownOver,
}

/// The model of an event.
pub enum EventModel {
    Registered { access_key: Seq<u8> },
    RegisterFailed,
    QueriesLoaded,
    QueriesFailed,
    WorkLeased { locator: Seq<u8>, id: Seq<u8> },
    QueueEmpty,
    LeaseFailed,
    StreamExhausted,
    DepthReport { depth: isize },
    Completed,
    CompleteFailed,
    CooldownOver,
}

impl View for OrchestratorEvent {
    type V = EventModel;

    open spec fn view(&self) -> EventModel {
        match self {
            OrchestratorEvent::Registered { access_key } => EventModel::Registered {
                access_key: access_key@,
            },
            OrchestratorEvent::RegisterFailed => EventModel::RegisterFailed,
            OrchestratorEvent::QueriesLoaded => EventModel::QueriesLoaded,
            OrchestratorEvent::QueriesFailed => EventModel::QueriesFailed,
            OrchestratorEvent::WorkLeased { locator, id } => EventModel::WorkLeased {
                locator: locator@,
                id: id@,
            },
            OrchestratorEvent::QueueEmpty => EventModel::QueueEmpty,
            OrchestratorEvent::LeaseFailed => EventModel::LeaseFailed,
            OrchestratorEvent::StreamExhausted => EventModel::StreamExhausted,
            OrchestratorEvent::DepthReport { depth } => EventModel::DepthReport { depth: *depth },
            OrchestratorEvent::Completed => EventModel::Completed,
            OrchestratorEvent::CompleteFailed => EventModel::CompleteFailed,
            OrchestratorEvent::CooldownOver => EventModel::CooldownOver,
        }
    }
}

/// What the surrounding loop must do next.
pub enum OrchestratorAction {
    /// Exchange the shared secret for a session.
    Register,
    /// Fetch the query set with this session.
    FetchQueries { access_key: Vec<u8> },
    /// Ask for the next work item with this session.
    LeaseWork { access_key: Vec<u8> },
    /// Stream this archive through the pipeline.
    StreamArchive { locator: Vec<u8> },
    /// Sleep briefly, then report the engines' pending depth.
    PollEngines,
    /// Release the session, then sleep the cooldown.
    Unregister { access_key: Vec<u8> },
    /// Flush final outputs and mark this work item done.
    CompleteWork { access_key: Vec<u8>, work_id: Vec<u8> },
    /// Stop the worker with this exit code.
    Exit { code: i32 },
}

/// The model of an action.
pub enum ActionModel {
    Register,
    FetchQueries { access_key: Seq<u8> },
    LeaseWork { access_key: Seq<u8> },
    StreamArchive { locator: Seq<u8> },
    PollEngines,
    Unregister { access_key: Seq<u8> },
    CompleteWork { access_key: Seq<u8>, work_id: Seq<u8> },
    Exit { code: i32 },
}

impl View for OrchestratorAction {
    type V = ActionModel;

    open spec fn view(&self) -> ActionModel {
        match self {
            OrchestratorAction::Register => ActionModel::Register,
            OrchestratorAction::FetchQueries { access_key } => ActionModel::FetchQueries {
                access_key: access_key@,
            },
            OrchestratorAction::LeaseWork { access_key } => ActionModel::LeaseWork {
                access_key: access_key@,
            },
            OrchestratorAction::StreamArchive { locator } => ActionModel::StreamArchive {
                locator: locator@,
            },
            OrchestratorAction::PollEngines => ActionModel::PollEngines,
            OrchestratorAction::Unregister { access_key } => ActionModel::Unregister {
                access_key: access_key@,
            },
            OrchestratorAction::CompleteWork { access_key, work_id } => ActionModel::CompleteWork {
                access_key: access_key@,
                work_id: work_id@,
            },
            OrchestratorAction::Exit { code } => ActionModel::Exit { code: *code },
        }
    }
}

/// Which events can arrive in which states.
pub open spec fn admissible(s: StateModel, e: EventModel) -> bool {
    match (s, e) {
        (StateModel::Registering, EventModel::Registered { .. }) => true,
        (StateModel::Registering, EventModel::RegisterFailed) => true,
        (StateModel::LeasingQueries { .. }, EventModel::QueriesLoaded) => true,
        (StateModel::LeasingQueries { .. }, EventModel::QueriesFailed) => true,
        (StateModel::LeasingWork { .. }, EventModel::WorkLeased { .. }) => true,
        (StateModel::LeasingWork { .. }, EventModel::QueueEmpty) => true,
        (StateModel::LeasingWork { .. }, EventModel::LeaseFailed) => true,
        (StateModel::Streaming { .. }, EventModel::StreamExhausted) => true,
        (StateModel::Draining { .. }, EventModel::DepthReport { .. }) => true,
        (StateModel::Completing { .. }, EventModel::Completed) => true,
        (StateModel::Completing { .. }, EventModel::CompleteFailed) => true,
        (StateModel::CoolingDown, EventModel::CooldownOver) => true,
        _ => false,
    }
}

/// The transition relation: from state and event to the next state and
/// the action to perform.
pub open spec fn spec_step(s: StateModel, e: EventModel) -> (StateModel, ActionModel) {
    match (s, e) {
        (StateModel::Registering, EventModel::Registered { access_key }) => (
            StateModel::LeasingQueries { access_key },
            ActionModel::FetchQueries { access_key },
        ),
        (StateModel::Registering, EventModel::RegisterFailed) => (
            StateModel::Stopped { code: 101 },
            ActionModel::Exit { code: 101 },
        ),
        (StateModel::LeasingQueries { access_key }, EventModel::QueriesLoaded) => (
            StateModel::LeasingWork { access_key },
            ActionModel::LeaseWork { access_key },
        ),
        (StateModel::LeasingQueries { .. }, EventModel::QueriesFailed) => (
            StateModel::Stopped { code: 101 },
            ActionModel::Exit { code: 101 },
        ),
        (StateModel::LeasingWork { access_key }, EventModel::WorkLeased { locator, id }) => (
            StateModel::Streaming { access_key, work_id: id },
            ActionModel::StreamArchive { locator },
        ),
        (StateModel::LeasingWork { access_key }, EventModel::QueueEmpty) => (
            StateModel::CoolingDown,
            ActionModel::Unregister { access_key },
        ),
        (StateModel::LeasingWork { .. }, EventModel::LeaseFailed) => (
            StateModel::Stopped { code: 101 },
            ActionModel::Exit { code: 101 },
        ),
        (StateModel::Streaming { access_key, work_id }, EventModel::StreamExhausted) => (
            StateModel::Draining { access_key, work_id, waited: 0 },
            ActionModel::PollEngines,
        ),
        (StateModel::Draining { access_key, work_id, waited }, EventModel::DepthReport { depth }) => {
            if depth <= 0 {
                (
                    StateModel::Completing { access_key },
                    ActionModel::CompleteWork { access_key, work_id },
                )
            } else if waited >= MAX_DRAIN_WAIT {
                (
                    StateModel::Completing { access_key },
                    ActionModel::CompleteWork { access_key, work_id },
                )
            } else {
                (
                    StateModel::Draining { access_key, work_id, waited: (waited + 1) as u64 },
                    ActionModel::PollEngines,
                )
            }
        },
        (StateModel::Completing { access_key }, EventModel::Completed) => (
            StateModel::LeasingWork { access_key },
            ActionModel::LeaseWork { access_key },
        ),
        (StateModel::Completing { access_key }, EventModel::CompleteFailed) => (
            StateModel::LeasingWork { access_key },
            ActionModel::LeaseWork { access_key },
        ),
        (StateModel::CoolingDown, EventModel::CooldownOver) => (
            StateModel::Registering,
            ActionModel::Register,
        ),
        _ => (s, ActionModel::PollEngines),
    }
}

/// Copy a byte vector.
fn copy_bytes(v: &Vec<u8>) -> (r: Vec<u8>)
    ensures
        r@ == v@,
{
    let r = copy_range(v, 0, v.len());
    proof {
        assert(r@ =~= v@);
    }
    r
}

/// Take one step of the orchestrator: from the current state and the
/// event the last action produced, to the next state and the next action
/// to perform.  Only the events the protocol can produce in the given
/// state are admissible.
pub fn orchestrator_step(state: OrchestratorState, event: OrchestratorEvent) -> (r: (
    OrchestratorState,
    OrchestratorAction,
))
    requires
        admissible(state@, event@),
    ensures
        (r.0@, r.1@) == spec_step(state@, event@),
{
    match (state, event) {
        (OrchestratorState::Registering, OrchestratorEvent::Registered { access_key }) => {
            let key_copy = copy_bytes(&access_key);
            (
                OrchestratorState::LeasingQueries { access_key },
                OrchestratorAction::FetchQueries { access_key: key_copy },
            )
        },
        (OrchestratorState::Registering, OrchestratorEvent::RegisterFailed) => (
            OrchestratorState::Stopped { code: 101 },
            OrchestratorAction::Exit { code: 101 },
        ),
        (
            OrchestratorState::LeasingQueries { access_key },
            OrchestratorEvent::QueriesLoaded,
        ) => {
            let key_copy = copy_bytes(&access_key);
            (
                OrchestratorState::LeasingWork { access_key },
                OrchestratorAction::LeaseWork { access_key: key_copy },
            )
        },
        (OrchestratorState::LeasingQueries { .. }, OrchestratorEvent::QueriesFailed) => (
            OrchestratorState::Stopped { code: 101 },
            OrchestratorAction::Exit { code: 101 },
        ),
        (
            OrchestratorState::LeasingWork { access_key },
            OrchestratorEvent::WorkLeased { locator, id },
        ) => (
            OrchestratorState::Streaming { access_key, work_id: id },
            OrchestratorAction::StreamArchive { locator },
        ),
        (OrchestratorState::LeasingWork { access_key }, OrchestratorEvent::QueueEmpty) => (
            OrchestratorState::CoolingDown,
            OrchestratorAction::Unregister { access_key },
        ),
        (OrchestratorState::LeasingWork { .. }, OrchestratorEvent::LeaseFailed) => (
            OrchestratorState::Stopped { code: 101 },
            OrchestratorAction::Exit { code: 101 },
        ),
        (
            OrchestratorState::Streaming { access_key, work_id },
            OrchestratorEvent::StreamExhausted,
        ) => (
            OrchestratorState::Draining { access_key, work_id, waited: 0 },
            OrchestratorAction::PollEngines,
        ),
        (
            OrchestratorState::Draining { access_key, work_id, waited },
            OrchestratorEvent::DepthReport { depth },
        ) => {
            if depth <= 0 || waited >= MAX_DRAIN_WAIT {
                let key_copy = copy_bytes(&access_key);
                (
                    OrchestratorState::Completing { access_key },
                    OrchestratorAction::CompleteWork { access_key: key_copy, work_id },
                )
            } else {
                (
                    OrchestratorState::Draining { access_key, work_id, waited: waited + 1 },
                    OrchestratorAction::PollEngines,
                )
            }
        },
        (OrchestratorState::Completing { access_key }, OrchestratorEvent::Completed) => {
            let key_copy = copy_bytes(&access_key);
            (
                OrchestratorState::LeasingWork { access_key },
                OrchestratorAction::LeaseWork { access_key: key_copy },
            )
        },
        (OrchestratorState::Completing { access_key }, OrchestratorEvent::CompleteFailed) => {
            let key_copy = copy_bytes(&access_key);
            (
                OrchestratorState::LeasingWork { access_key },
                OrchestratorAction::LeaseWork { access_key: key_copy },
            )
        },
        (OrchestratorState::CoolingDown, OrchestratorEvent::CooldownOver) => (
            OrchestratorState::Registering,
            OrchestratorAction::Register,
        ),
        _ => {
            proof {
                assert(false);
            }
            (OrchestratorState::Registering, OrchestratorAction::Register)
        },
    }
}

/// A work lease always carries the session the current state holds: the
/// step function never issues a lease with a released key, for after an
/// empty queue the key is discarded with the unregister action and a
/// fresh one must be obtained by registering again.
pub proof fn lemma_lease_uses_held_key(s: StateModel, e: EventModel)
    requires
        admissible(s, e),
    ensures
        spec_step(s, e).1 matches ActionModel::LeaseWork { access_key } ==> ((s
            matches StateModel::LeasingQueries { access_key: k } && k == access_key) || (s
            matches StateModel::Completing { access_key: k } && k == access_key)),
{
}

} // verus!
