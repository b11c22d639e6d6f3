use rust_quepaxa::network::{NetworkConsensusHandler, SubmissionStep};
use rust_quepaxa::runtime::{export_unsupported, import_unsupported};
use rust_quepaxa::{
    ClientNotifier, Decision, EpochSchedule, LaneId, MembershipChange, Priority, PrioritySource,
    ProposerCore, QuePaxaError, RecordReply, RecordRequest, RecorderClient, RecorderHandle,
    ReplicaConfig, ReplicaId, ReplicaRuntime, ReplicaRuntimeConfig, Result, RuntimeSnapshot,
    RuntimeStateStore, SlotIndex, Span, StateMachine, Step,
};
use std::cell::RefCell;
use std::rc::Rc;

#[derive(Default)]
struct World {
    events: Vec<String>,
    refuse: Option<String>,
}

#[derive(Clone, Default)]
struct Shared(Rc<RefCell<World>>);

impl Shared {
    fn note(&self, event: String) -> Result<()> {
        let mut world = self.0.borrow_mut();
        if world.refuse.as_ref() == Some(&event) {
            world.events.push(format!("{event} refused"));
            return Err(QuePaxaError::StorageError(event));
        }
        world.events.push(event);
        Ok(())
    }

    fn refuse(&self, event: Option<&str>) {
        self.0.borrow_mut().refuse = event.map(|event| event.to_string());
    }

    fn take(&self) -> Vec<String> {
        std::mem::take(&mut self.0.borrow_mut().events)
    }
}

struct Store(Shared);

impl RuntimeStateStore<u64> for Store {
    fn load(&mut self) -> Result<Option<RuntimeSnapshot<u64>>> {
        Ok(None)
    }

    fn save(&mut self, _snapshot: &RuntimeSnapshot<u64>) -> Result<()> {
        self.0.note("save".to_string())
    }
}

struct Machine(Shared);

impl StateMachine<u64> for Machine {
    fn execute(&mut self, decision: &Decision<u64>) -> Result<()> {
        self.0.note(format!("execute {}", decision.slot.get()))
    }

    fn export_checkpoint(&mut self, _through: SlotIndex) -> Result<Vec<u8>> {
        Err(export_unsupported())
    }

    fn import_checkpoint(&mut self, _through: SlotIndex, _checkpoint: &[u8]) -> Result<()> {
        Err(import_unsupported())
    }
}

struct Listener(Shared);

impl ClientNotifier<u64> for Listener {
    fn committed(&mut self, decision: &Decision<u64>) -> Result<()> {
        self.0.note(format!("tell {}", decision.slot.get()))
    }
}

struct Endpoint(u64, Shared);

impl RecorderClient<u64> for Endpoint {
    fn record(&mut self, _request: RecordRequest<u64>) -> Result<RecordReply<u64>> {
        Err(QuePaxaError::TransportError("unreachable".to_string()))
    }

    fn inform_decisions(&mut self, decisions: &[Decision<u64>]) -> Result<()> {
        self.1.note(format!(
            "inform {} of {}",
            self.0,
            decisions[0].slot.get()
        ))
    }

    fn status(&mut self, _slot: SlotIndex) -> Result<Option<Step>> {
        Ok(None)
    }

    fn install_membership(&mut self, _change: MembershipChange<u64>) -> Result<()> {
        self.1.note(format!("install at {}", self.0))
    }
}

#[derive(Clone)]
struct NoPriorities;

impl PrioritySource for NoPriorities {
    fn next_below(&mut self, _exclusive_upper_bound: Priority) -> Result<Priority> {
        Ok(Priority::new(1))
    }
}

fn members() -> Vec<ReplicaId> {
    (1..=3).map(ReplicaId::new).collect()
}

fn config() -> ReplicaRuntimeConfig {
    ReplicaRuntimeConfig::new(
        ReplicaId::new(1),
        LaneId::new(1),
        members(),
        1,
        ReplicaConfig {
            batch_size: 1,
            pipeline_len: 2,
            ..ReplicaConfig::default()
        },
        16,
        Span::zero(),
    )
    .unwrap()
}

type Runtime = ReplicaRuntime<u64, Endpoint, NoPriorities, Store, Machine, Listener>;

fn runtime(world: &Shared) -> Runtime {
    ReplicaRuntime::new(
        config(),
        ProposerCore::with_rng(ReplicaId::new(1), LaneId::new(1), NoPriorities),
        (1..=3)
            .map(|id| RecorderHandle::new(ReplicaId::new(id), Endpoint(id, world.clone())))
            .collect(),
        Store(world.clone()),
        Machine(world.clone()),
        Listener(world.clone()),
    )
    .unwrap()
}

fn decision(slot: u64) -> Decision<u64> {
    Decision::new(
        SlotIndex::new(slot),
        vec![slot * 10],
        ReplicaId::new(1),
        Step::new(4),
    )
    .unwrap()
}

fn refused(event: &str) -> QuePaxaError {
    QuePaxaError::StorageError(event.to_string())
}

#[test]
fn decisions_are_kept_executed_told_and_spread_in_that_order() {
    let world = Shared::default();
    let mut runtime = runtime(&world);
    let delivered = runtime.receive_decision(decision(1)).unwrap();
    assert_eq!(delivered, vec![decision(1)]);
    assert_eq!(
        world.take(),
        vec![
            "save",
            "execute 1",
            "save",
            "tell 1",
            "save",
            "inform 1 of 1",
            "inform 2 of 1",
            "inform 3 of 1",
            "save",
        ]
    );
    assert_eq!(runtime.receive_decision(decision(1)).unwrap(), vec![]);
    assert_eq!(world.take(), Vec::<String>::new());
}

#[test]
fn a_failed_execution_is_tried_again() {
    let world = Shared::default();
    let mut runtime = runtime(&world);
    world.refuse(Some("execute 1"));
    assert_eq!(
        runtime.receive_decision(decision(1)).unwrap_err(),
        refused("execute 1")
    );
    assert_eq!(world.take(), vec!["save", "execute 1 refused"]);
    world.refuse(None);
    assert_eq!(runtime.recover().unwrap(), vec![decision(1)]);
    assert_eq!(
        world.take()[..4],
        ["execute 1", "save", "tell 1", "save"].map(|event| event.to_string())
    );
}

#[test]
fn nothing_is_executed_before_it_is_durable() {
    let world = Shared::default();
    let mut runtime = runtime(&world);
    world.refuse(Some("save"));
    assert_eq!(
        runtime.receive_decision(decision(1)).unwrap_err(),
        refused("save")
    );
    assert_eq!(world.take(), vec!["save refused"]);
}

#[test]
fn only_those_who_did_not_acknowledge_are_told_again() {
    let world = Shared::default();
    let mut runtime = runtime(&world);
    world.refuse(Some("inform 2 of 1"));
    runtime.receive_decision(decision(1)).unwrap();
    world.take();
    assert!(matches!(
        runtime.checkpoint_through(SlotIndex::new(1)),
        Err(QuePaxaError::QuorumNotReached {
            needed: 3,
            received: 2
        })
    ));
    assert_eq!(world.take(), vec!["inform 2 of 1 refused"]);
    world.refuse(None);
    runtime.checkpoint_through(SlotIndex::new(1)).unwrap();
    assert_eq!(world.take(), vec!["inform 2 of 1", "save", "save"]);
    assert!(runtime.decision(SlotIndex::new(1)).is_none());
}

#[test]
fn machines_without_checkpoints_refuse_transfers() {
    let world = Shared::default();
    let mut runtime = runtime(&world);
    runtime.receive_decision(decision(1)).unwrap();
    assert_eq!(
        runtime.create_state_transfer(SlotIndex::new(1)).unwrap_err(),
        refused("the state machine does not implement checkpoint export")
    );
    assert!(runtime.decision(SlotIndex::new(1)).is_some());
}

fn change(runtime: &Runtime) -> MembershipChange<u64> {
    let next = runtime
        .config()
        .cluster_identity()
        .begin_joint(members(), 1)
        .unwrap();
    MembershipChange::new(decision(1), next, 10).unwrap()
}

#[test]
fn a_membership_that_an_endpoint_refuses_is_not_activated() {
    let world = Shared::default();
    let mut runtime = runtime(&world);
    runtime.receive_decision(decision(1)).unwrap();
    world.take();
    let change = change(&runtime);
    let before = runtime.snapshot();
    let handles = |world: &Shared| -> Vec<RecorderHandle<Endpoint>> {
        (1..=3)
            .map(|id| RecorderHandle::new(ReplicaId::new(id), Endpoint(id, world.clone())))
            .collect()
    };
    world.refuse(Some("install at 2"));
    assert_eq!(
        runtime
            .install_membership(change.clone(), handles(&world))
            .unwrap_err(),
        refused("install at 2")
    );
    assert_eq!(world.take(), vec!["install at 1", "install at 2 refused"]);
    assert_eq!(runtime.snapshot(), before);

    world.refuse(Some("save"));
    assert_eq!(
        runtime
            .install_membership(change.clone(), handles(&world))
            .unwrap_err(),
        refused("save")
    );
    assert_eq!(runtime.snapshot(), before);
    world.take();

    world.refuse(None);
    runtime
        .install_membership(change.clone(), handles(&world))
        .unwrap();
    assert_eq!(
        world.take(),
        vec!["install at 1", "install at 2", "install at 3", "save"]
    );
    assert_eq!(runtime.config().cluster_identity(), &change.next);
}

fn node(world: &Shared) -> NetworkConsensusHandler<u64, Store, Machine> {
    NetworkConsensusHandler::new(
        config(),
        &members(),
        Store(world.clone()),
        Machine(world.clone()),
    )
    .unwrap()
}

#[test]
fn nodes_keep_decisions_before_they_execute_them() {
    let world = Shared::default();
    let mut node = node(&world);
    node.accept_decision(&decision(2), Span::zero()).unwrap();
    assert_eq!(world.take(), vec!["save"]);
    node.accept_decision(&decision(1), Span::zero()).unwrap();
    assert_eq!(
        world.take(),
        vec!["save", "execute 1", "save", "execute 2", "save"]
    );
}

#[test]
fn nodes_take_back_what_was_not_kept() {
    let world = Shared::default();
    let mut node = node(&world);
    world.refuse(Some("save"));
    let before = node.snapshot();
    assert_eq!(node.enqueue(vec![7]).unwrap_err(), refused("save"));
    assert_eq!(
        node.accept_decision(&decision(1), Span::zero()).unwrap_err(),
        refused("save")
    );
    assert_eq!(
        node.install_epoch_schedule(EpochSchedule::new(0, members()).unwrap())
            .unwrap_err(),
        refused("save")
    );
    assert_eq!(node.snapshot(), before);
    assert_eq!(
        world.take(),
        vec!["save refused", "save refused", "save refused"]
    );
    world.refuse(None);
    node.enqueue(vec![7]).unwrap();
    assert!(matches!(
        node.advance(&[7]).unwrap(),
        SubmissionStep::Drive { .. }
    ));
}

#[test]
fn nodes_execute_again_what_failed() {
    let world = Shared::default();
    let mut node = node(&world);
    world.refuse(Some("execute 1"));
    assert_eq!(
        node.accept_decision(&decision(1), Span::zero()).unwrap_err(),
        refused("execute 1")
    );
    world.take();
    world.refuse(None);
    node.begin_recovery(Span::zero()).unwrap();
    assert_eq!(world.take(), vec!["execute 1", "save"]);
}
