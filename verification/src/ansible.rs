use vstd::prelude::*;
use crate::error::ServiceError;
use crate::ip::Ip;

verus! {

/// The closed set of provisioning roles a playbook can fill.
#[derive(Clone, Copy, PartialEq, Eq, Structural, Debug)]
pub enum PlaybookFunction {
    Ip,
    NodeExporter,
}

/// One catalog entry: the function it fills and the path of the automation
/// file that implements it.
pub struct Playbook {
    pub function: PlaybookFunction,
    pub path: String,
}

/// Everything one external automation run is invoked with: the automation
/// file, the target address, and the private-key credential path.
pub struct PlaybookInvocation {
    pub playbook_path: String,
    pub target: Ip,
    pub private_key: String,
}

/// The fate of one external automation run, as the process edge reports it
/// back: the unit could not be launched, or it exited with a status code.
#[derive(Clone, Copy, PartialEq, Eq, Structural, Debug)]
pub enum PlaybookOutcome {
    LaunchFailed,
    Exited(i32),
}

/// The runner's verdict on a run: failure to launch and a non-zero exit
/// status are the only errors, and each maps to its own error.
pub open spec fn spec_play_result(o: PlaybookOutcome) -> Result<(), ServiceError> {
    match o {
        PlaybookOutcome::LaunchFailed => Err(ServiceError::ProcessSpawnError),
        PlaybookOutcome::Exited(code) => if code == 0 {
            Ok(())
        } else {
            Err(ServiceError::PlaybookFailed)
        },
    }
}

/// Judges one run: `PlaybookFailed` exactly when the unit exited non-zero,
/// `ProcessSpawnError` exactly when it could not be launched at all.
pub fn play_result(outcome: &PlaybookOutcome) -> (r: Result<(), ServiceError>)
    ensures
        r == spec_play_result(*outcome),
        (r == Err::<(), ServiceError>(ServiceError::PlaybookFailed) <==> (outcome matches
        PlaybookOutcome::Exited(code) && code != 0)),
        (r == Err::<(), ServiceError>(ServiceError::ProcessSpawnError) <==> outcome
            is LaunchFailed),
{
    match outcome {
        PlaybookOutcome::LaunchFailed => Err(ServiceError::ProcessSpawnError),
        PlaybookOutcome::Exited(code) => {
            if *code == 0 {
                Ok(())
            } else {
                Err(ServiceError::PlaybookFailed)
            }
        },
    }
}

/// True when the catalog holds an entry for `f`.
pub open spec fn has_playbook(pbs: Seq<Playbook>, f: PlaybookFunction) -> bool {
    exists|i: int| 0 <= i < pbs.len() && pbs[i].function == f
}

/// The index of the first catalog entry for `f`; meaningful only when
/// `has_playbook(pbs, f)` holds.
pub open spec fn first_playbook(pbs: Seq<Playbook>, f: PlaybookFunction) -> int
    decreases pbs.len(),
{
    if pbs.len() == 0 {
        0
    } else if pbs[0].function == f {
        0
    } else {
        1 + first_playbook(pbs.drop_first(), f)
    }
}

proof fn lemma_first_playbook(pbs: Seq<Playbook>, f: PlaybookFunction, i: int)
    requires
        0 <= i < pbs.len(),
        pbs[i].function == f,
        forall|j: int| 0 <= j < i ==> pbs[j].function != f,
    ensures
        first_playbook(pbs, f) == i,
    decreases i,
{
    if i > 0 {
        assert(forall|j: int| 0 <= j < i - 1 ==> pbs.drop_first()[j].function != f);
        lemma_first_playbook(pbs.drop_first(), f, i - 1);
    }
}

/// The catalog of playbooks together with the provisioning credential,
/// loaded once at startup and read-only afterwards.
pub struct AnsibleService {
    pub playbooks: Vec<Playbook>,
    pub private_key: String,
}

impl AnsibleService {
    pub fn new(playbooks: Vec<Playbook>, private_key: String) -> (r: AnsibleService)
        ensures
            r.playbooks == playbooks,
            r.private_key == private_key,
    {
        AnsibleService { playbooks, private_key }
    }

    /// Looks the function up in the catalog; a missing entry is a hard
    /// error naming the function.
    pub fn get_playbook(&self, function: PlaybookFunction) -> (r: Result<&Playbook, ServiceError>)
        ensures
            match r {
                Ok(pb) => has_playbook(self.playbooks@, function) && 0 <= first_playbook(
                    self.playbooks@,
                    function,
                ) < self.playbooks@.len() && *pb == self.playbooks@[first_playbook(
                    self.playbooks@,
                    function,
                )],
                Err(e) => e == ServiceError::MissingPlaybook(function) && !has_playbook(
                    self.playbooks@,
                    function,
                ),
            },
    {
        let mut i: usize = 0;
        while i < self.playbooks.len()
            invariant
                i <= self.playbooks@.len(),
                forall|j: int| 0 <= j < i ==> self.playbooks@[j].function != function,
            decreases self.playbooks@.len() - i,
        {
            if self.playbooks[i].function == function {
                proof {
                    lemma_first_playbook(self.playbooks@, function, i as int);
                }
                return Ok(&self.playbooks[i]);
            }
            i = i + 1;
        }
        Err(ServiceError::MissingPlaybook(function))
    }

    /// Assembles the invocation of the address-provisioning playbook for
    /// `ip`; the process edge performs the actual run.
    pub fn provision_ip(&self, ip: &Ip) -> (r: Result<PlaybookInvocation, ServiceError>)
        ensures
            match r {
                Ok(inv) => has_playbook(self.playbooks@, PlaybookFunction::Ip)
                    && self.invocation_matches(PlaybookFunction::Ip, *ip, inv),
                Err(e) => e == ServiceError::MissingPlaybook(PlaybookFunction::Ip)
                    && !has_playbook(self.playbooks@, PlaybookFunction::Ip),
            },
    {
        self.invoke(PlaybookFunction::Ip, ip)
    }

    /// Assembles the invocation of the metrics-agent playbook for `ip`.
    pub fn node_exporter(&self, ip: &Ip) -> (r: Result<PlaybookInvocation, ServiceError>)
        ensures
            match r {
                Ok(inv) => has_playbook(self.playbooks@, PlaybookFunction::NodeExporter)
                    && self.invocation_matches(PlaybookFunction::NodeExporter, *ip, inv),
                Err(e) => e == ServiceError::MissingPlaybook(PlaybookFunction::NodeExporter)
                    && !has_playbook(self.playbooks@, PlaybookFunction::NodeExporter),
            },
    {
        self.invoke(PlaybookFunction::NodeExporter, ip)
    }

    /// What the service invokes for `f` against `ip`: the first catalog
    /// entry's file, the target address itself, and the credential.
    pub open spec fn invocation_matches(&self, f: PlaybookFunction, ip: Ip, inv: PlaybookInvocation) -> bool {
        &&& inv.playbook_path@ == self.playbooks@[first_playbook(self.playbooks@, f)].path@
        &&& inv.target == ip
        &&& inv.private_key@ == self.private_key@
    }

    fn invoke(&self, function: PlaybookFunction, ip: &Ip) -> (r: Result<
        PlaybookInvocation,
        ServiceError,
    >)
        ensures
            match r {
                Ok(inv) => has_playbook(self.playbooks@, function) && self.invocation_matches(
                    function,
                    *ip,
                    inv,
                ),
                Err(e) => e == ServiceError::MissingPlaybook(function) && !has_playbook(
                    self.playbooks@,
                    function,
                ),
            },
    {
        match self.get_playbook(function) {
            Ok(pb) => Ok(
                PlaybookInvocation {
                    playbook_path: pb.path.clone(),
                    target: *ip,
                    private_key: self.private_key.clone(),
                },
            ),
            Err(e) => Err(e),
        }
    }
}

} // verus!
