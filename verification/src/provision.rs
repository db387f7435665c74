use vstd::prelude::*;
use crate::ansible::{AnsibleService, PlaybookFunction, PlaybookOutcome, has_playbook, play_result, spec_play_result};
use crate::error::ServiceError;
use crate::ip::{ClientRegistration, Ip, IpService, spec_alloc};

verus! {

/// A provisioning request's payload: the node to configure.
pub struct Client {
    pub hostname: String,
    pub current_ip: String,
}

/// Where a job stands in the pipeline.  `Aborted` and `Done` are absorbing:
/// a job never leaves them and never acts again once there.
#[derive(Clone, Copy, PartialEq, Eq, Structural, Debug)]
pub enum JobState {
    Allocating { retried: bool },
    Registering { ip: Ip, retried: bool },
    Configuring { ip: Ip, step_index: usize },
    Done,
    Aborted,
}

/// What the driver reports back after performing the last action: the
/// registry's rows or a read failure, the fate of a registration, or the
/// fate of one playbook run.
pub enum JobEvent {
    AssignedRows { rows: Vec<ClientRegistration> },
    FetchFailed,
    Registered,
    RegisterDuplicate,
    RegisterFailed,
    PlaybookFinished { outcome: PlaybookOutcome },
}

/// What the driver must perform next.  `Report` asks for exactly one
/// failure notification; `Finished` ends a successful job silently.
#[derive(Clone, Copy, PartialEq, Eq, Structural, Debug)]
pub enum JobAction {
    FetchAssigned,
    DoRegister { ip: Ip },
    RunPlaybook { function: PlaybookFunction, target: Ip },
    Report { error: ServiceError },
    Finished,
}

/// One in-flight provisioning job, owned by its driver for its lifetime.
pub struct ProvisioningJob {
    pub hostname: String,
    pub state: JobState,
}

/// The fixed order in which each job runs its playbooks: base address
/// configuration first, then the metrics agent.
pub open spec fn order_fn(k: int) -> PlaybookFunction {
    if k == 0 {
        PlaybookFunction::Ip
    } else {
        PlaybookFunction::NodeExporter
    }
}

/// True when `st` has ended, successfully or not.
pub open spec fn is_terminal(st: JobState) -> bool {
    st is Done || st is Aborted
}

/// The events each state can answer; terminal states answer none.
pub open spec fn accepts(st: JobState, ev: JobEvent) -> bool {
    match st {
        JobState::Allocating { .. } => ev is AssignedRows || ev is FetchFailed,
        JobState::Registering { .. } => ev is Registered || ev is RegisterDuplicate
            || ev is RegisterFailed,
        JobState::Configuring { .. } => ev is PlaybookFinished,
        JobState::Done => false,
        JobState::Aborted => false,
    }
}

/// Entering the configuration phase at playbook `k`: run it if the catalog
/// has it, otherwise abort with `MissingPlaybook`.
pub open spec fn spec_begin_configuring(svc: AnsibleService, ip: Ip, k: usize) -> (
    JobState,
    JobAction,
) {
    if has_playbook(svc.playbooks@, order_fn(k as int)) {
        (
            JobState::Configuring { ip, step_index: k },
            JobAction::RunPlaybook { function: order_fn(k as int), target: ip },
        )
    } else {
        (
            JobState::Aborted,
            JobAction::Report { error: ServiceError::MissingPlaybook(order_fn(k as int)) },
        )
    }
}

/// The orchestrator's whole decision table: from a state and the event
/// answering its last action, the next state and the next action.  Any
/// failure moves to `Aborted` and asks for exactly one report; a duplicate
/// address is retried once by re-running allocation.
pub open spec fn spec_step(svc: AnsibleService, base: Ip, st: JobState, ev: JobEvent) -> (
    JobState,
    JobAction,
) {
    match st {
        JobState::Allocating { retried } => match ev {
            JobEvent::AssignedRows { rows } => match spec_alloc(rows@, base) {
                Ok(ip) => (JobState::Registering { ip, retried }, JobAction::DoRegister { ip }),
                Err(e) => (JobState::Aborted, JobAction::Report { error: e }),
            },
            _ => (JobState::Aborted, JobAction::Report { error: ServiceError::PersistenceError }),
        },
        JobState::Registering { ip, retried } => match ev {
            JobEvent::Registered => spec_begin_configuring(svc, ip, 0),
            JobEvent::RegisterDuplicate => if !retried {
                (JobState::Allocating { retried: true }, JobAction::FetchAssigned)
            } else {
                (JobState::Aborted, JobAction::Report { error: ServiceError::DuplicateAddress })
            },
            _ => (JobState::Aborted, JobAction::Report { error: ServiceError::PersistenceError }),
        },
        JobState::Configuring { ip, step_index } => match ev {
            JobEvent::PlaybookFinished { outcome } => match spec_play_result(outcome) {
                Ok(()) => if step_index >= 1 {
                    (JobState::Done, JobAction::Finished)
                } else {
                    spec_begin_configuring(svc, ip, 1)
                },
                Err(e) => (JobState::Aborted, JobAction::Report { error: e }),
            },
            _ => (JobState::Aborted, JobAction::Report { error: ServiceError::PersistenceError }),
        },
        JobState::Done => (JobState::Done, JobAction::Finished),
        JobState::Aborted => (
            JobState::Aborted,
            JobAction::Report { error: ServiceError::PersistenceError },
        ),
    }
}

/// Opens a job for `client`.  The caller gets the job and its first action
/// back at once; everything else happens through `step`, detached from the
/// request that triggered it.
pub fn provision(client: &Client) -> (r: (ProvisioningJob, JobAction))
    ensures
        r.0.state == (JobState::Allocating { retried: false }),
        r.0.hostname@ == client.hostname@,
        r.1 == JobAction::FetchAssigned,
{
    (
        ProvisioningJob {
            hostname: client.hostname.clone(),
            state: JobState::Allocating { retried: false },
        },
        JobAction::FetchAssigned,
    )
}

impl ProvisioningJob {
    /// Advances the job by one decision.  The driver performs the returned
    /// action and feeds the resulting event back in; the job's behaviour is
    /// exactly the decision table `spec_step`.
    pub fn step(&mut self, svc: &AnsibleService, base: &Ip, event: JobEvent) -> (act: JobAction)
        requires
            accepts(old(self).state, event),
        ensures
            (final(self).state, act) == spec_step(*svc, *base, old(self).state, event),
            final(self).hostname == old(self).hostname,
    {
        let (st2, act) = step_state(&self.state, svc, base, event);
        self.state = st2;
        act
    }
}

fn step_state(st: &JobState, svc: &AnsibleService, base: &Ip, event: JobEvent) -> (r: (
    JobState,
    JobAction,
))
    ensures
        r == spec_step(*svc, *base, *st, event),
{
    match st {
        JobState::Allocating { retried } => match event {
            JobEvent::AssignedRows { rows } => {
                let registry = IpService { rows };
                match registry.get_next_available_ip(base) {
                    Ok(ip) => (
                        JobState::Registering { ip, retried: *retried },
                        JobAction::DoRegister { ip },
                    ),
                    Err(e) => (JobState::Aborted, JobAction::Report { error: e }),
                }
            },
            _ => (JobState::Aborted, JobAction::Report { error: ServiceError::PersistenceError }),
        },
        JobState::Registering { ip, retried } => match event {
            JobEvent::Registered => begin_configuring(svc, ip, 0),
            JobEvent::RegisterDuplicate => {
                if !*retried {
                    (JobState::Allocating { retried: true }, JobAction::FetchAssigned)
                } else {
                    (
                        JobState::Aborted,
                        JobAction::Report { error: ServiceError::DuplicateAddress },
                    )
                }
            },
            _ => (JobState::Aborted, JobAction::Report { error: ServiceError::PersistenceError }),
        },
        JobState::Configuring { ip, step_index } => match event {
            JobEvent::PlaybookFinished { outcome } => match play_result(&outcome) {
                Ok(()) => {
                    if *step_index >= 1 {
                        (JobState::Done, JobAction::Finished)
                    } else {
                        begin_configuring(svc, ip, 1)
                    }
                },
                Err(e) => (JobState::Aborted, JobAction::Report { error: e }),
            },
            _ => (JobState::Aborted, JobAction::Report { error: ServiceError::PersistenceError }),
        },
        JobState::Done => (JobState::Done, JobAction::Finished),
        JobState::Aborted => (
            JobState::Aborted,
            JobAction::Report { error: ServiceError::PersistenceError },
        ),
    }
}

fn begin_configuring(svc: &AnsibleService, ip: &Ip, k: usize) -> (r: (JobState, JobAction))
    requires
        k == 0 || k == 1,
    ensures
        r == spec_begin_configuring(*svc, *ip, k),
{
    let function = if k == 0 {
        PlaybookFunction::Ip
    } else {
        PlaybookFunction::NodeExporter
    };
    match svc.get_playbook(function) {
        Ok(_) => (
            JobState::Configuring { ip: *ip, step_index: k },
            JobAction::RunPlaybook { function, target: *ip },
        ),
        Err(_) => (
            JobState::Aborted,
            JobAction::Report { error: ServiceError::MissingPlaybook(function) },
        ),
    }
}

/// The actions a run emits: starting from `st`, apply each event in turn
/// until the job ends or an event arrives that the state cannot answer.
pub open spec fn run_actions(
    svc: AnsibleService,
    base: Ip,
    st: JobState,
    evs: Seq<JobEvent>,
) -> Seq<JobAction>
    decreases evs.len(),
{
    if evs.len() == 0 || !accepts(st, evs[0]) {
        Seq::empty()
    } else {
        seq![spec_step(svc, base, st, evs[0]).1] + run_actions(
            svc,
            base,
            spec_step(svc, base, st, evs[0]).0,
            evs.drop_first(),
        )
    }
}

/// The state a run ends in.
pub open spec fn run_state(svc: AnsibleService, base: Ip, st: JobState, evs: Seq<JobEvent>) -> JobState
    decreases evs.len(),
{
    if evs.len() == 0 || !accepts(st, evs[0]) {
        st
    } else {
        run_state(svc, base, spec_step(svc, base, st, evs[0]).0, evs.drop_first())
    }
}

/// How many failure reports a run asks for.
pub open spec fn count_reports(acts: Seq<JobAction>) -> int
    decreases acts.len(),
{
    if acts.len() == 0 {
        0
    } else {
        (if acts[0] is Report {
            1int
        } else {
            0int
        }) + count_reports(acts.drop_first())
    }
}

proof fn lemma_step_shape(svc: AnsibleService, base: Ip, st: JobState, ev: JobEvent)
    ensures
        (spec_step(svc, base, st, ev).1 is Report) <==> (spec_step(svc, base, st, ev).0
            is Aborted),
        (spec_step(svc, base, st, ev).1 is Finished) <==> (spec_step(svc, base, st, ev).0
            is Done),
{
}

/// A job reports failure exactly once, and only on failure: over any run
/// from a live state, exactly one `Report` action is emitted when the run
/// ends aborted, and none at all when it succeeds or is still under way.
pub proof fn lemma_report_exactly_once(
    svc: AnsibleService,
    base: Ip,
    st: JobState,
    evs: Seq<JobEvent>,
)
    requires
        !is_terminal(st),
    ensures
        count_reports(run_actions(svc, base, st, evs)) == if run_state(svc, base, st, evs)
            is Aborted {
            1int
        } else {
            0int
        },
    decreases evs.len(),
{
    if evs.len() == 0 || !accepts(st, evs[0]) {
    } else {
        let st2 = spec_step(svc, base, st, evs[0]).0;
        let a = spec_step(svc, base, st, evs[0]).1;
        let rest = run_actions(svc, base, st2, evs.drop_first());
        lemma_step_shape(svc, base, st, evs[0]);
        assert(run_actions(svc, base, st, evs) == seq![a] + rest);
        assert((seq![a] + rest)[0] == a);
        assert((seq![a] + rest).drop_first() =~= rest);
        assert(count_reports(seq![a] + rest) == (if a is Report {
            1int
        } else {
            0int
        }) + count_reports(rest));
        assert(run_state(svc, base, st, evs) == run_state(svc, base, st2, evs.drop_first()));
        if is_terminal(st2) {
            assert(rest =~= Seq::<JobAction>::empty());
            assert(count_reports(rest) == 0);
            assert(run_state(svc, base, st2, evs.drop_first()) == st2);
        } else {
            lemma_report_exactly_once(svc, base, st2, evs.drop_first());
        }
    }
}

} // verus!
