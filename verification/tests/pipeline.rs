use cloud_init_ext::ansible::{AnsibleService, Playbook, PlaybookFunction, PlaybookInvocation, PlaybookOutcome, play_result};
use cloud_init_ext::endpoints::registered_clients;
use cloud_init_ext::error::{HttpError, ServiceError};
use cloud_init_ext::ip::{ClientRegistration, Ip};
use cloud_init_ext::provision::{provision, Client, JobAction, JobEvent, JobState};

fn catalog() -> AnsibleService {
    AnsibleService::new(
        vec![
            Playbook { function: PlaybookFunction::Ip, path: "provision.yml".to_string() },
            Playbook { function: PlaybookFunction::NodeExporter, path: "node_exporter.yml".to_string() },
        ],
        "/etc/keys/ansible".to_string(),
    )
}

fn row(text: &[u8], host: &str) -> ClientRegistration {
    ClientRegistration { ip: text.to_vec(), hostname: host.to_string() }
}

fn client(hostname: &str) -> Client {
    Client { hostname: hostname.to_string(), current_ip: "10.10.0.200".to_string() }
}

fn sparse_rows() -> Vec<ClientRegistration> {
    vec![
        row(b"10.10.0.1", "node-1"),
        row(b"10.10.0.2", "node-2"),
        row(b"10.10.0.4", "node-4"),
        row(b"10.10.0.5", "node-5"),
    ]
}

#[test]
fn play_result_judges_exit_status() {
    assert_eq!(play_result(&PlaybookOutcome::Exited(0)), Ok(()));
    assert_eq!(play_result(&PlaybookOutcome::Exited(2)), Err(ServiceError::PlaybookFailed));
    assert_eq!(play_result(&PlaybookOutcome::LaunchFailed), Err(ServiceError::ProcessSpawnError));
}

#[test]
fn catalog_lookup_finds_each_function() {
    let svc = catalog();
    assert_eq!(svc.get_playbook(PlaybookFunction::Ip).unwrap().path, "provision.yml");
    assert_eq!(
        svc.get_playbook(PlaybookFunction::NodeExporter).unwrap().path,
        "node_exporter.yml"
    );
}

#[test]
fn catalog_lookup_reports_a_missing_function() {
    let svc = AnsibleService::new(Vec::new(), "/etc/keys/ansible".to_string());
    let missing = svc.get_playbook(PlaybookFunction::NodeExporter);
    assert!(matches!(
        missing,
        Err(ServiceError::MissingPlaybook(PlaybookFunction::NodeExporter))
    ));
}

#[test]
fn invocations_carry_path_target_and_credential() {
    let svc = catalog();
    let target = Ip::new(10, 10, 0, 3);
    let inv: PlaybookInvocation = svc.provision_ip(&target).unwrap();
    assert_eq!(inv.playbook_path, "provision.yml");
    assert_eq!(inv.target, target);
    assert_eq!(inv.private_key, "/etc/keys/ansible");
    let inv = svc.node_exporter(&target).unwrap();
    assert_eq!(inv.playbook_path, "node_exporter.yml");
}

#[test]
fn successful_job_runs_playbooks_in_order_and_never_reports() {
    let svc = catalog();
    let base = Ip::new(10, 10, 0, 0);
    let (mut job, act) = provision(&client("node-7"));
    assert_eq!(act, JobAction::FetchAssigned);

    let act = job.step(&svc, &base, JobEvent::AssignedRows { rows: sparse_rows() });
    assert_eq!(act, JobAction::DoRegister { ip: Ip::new(10, 10, 0, 3) });

    let mut registry = cloud_init_ext::ip::IpService { rows: sparse_rows() };
    registry.register(&Ip::new(10, 10, 0, 3), "node-7").unwrap();
    assert_eq!(registry.rows.len(), 5);
    assert_eq!(registry.rows[4].ip, b"10.10.0.3".to_vec());
    assert_eq!(registry.rows[4].hostname, "node-7".to_string());

    let act = job.step(&svc, &base, JobEvent::Registered);
    assert_eq!(
        act,
        JobAction::RunPlaybook { function: PlaybookFunction::Ip, target: Ip::new(10, 10, 0, 3) }
    );

    let act = job.step(&svc, &base, JobEvent::PlaybookFinished { outcome: PlaybookOutcome::Exited(0) });
    assert_eq!(
        act,
        JobAction::RunPlaybook {
            function: PlaybookFunction::NodeExporter,
            target: Ip::new(10, 10, 0, 3),
        }
    );

    let act = job.step(&svc, &base, JobEvent::PlaybookFinished { outcome: PlaybookOutcome::Exited(0) });
    assert_eq!(act, JobAction::Finished);
    assert_eq!(job.state, JobState::Done);
}

#[test]
fn failed_playbook_aborts_and_reports_once() {
    let svc = catalog();
    let base = Ip::new(10, 10, 0, 0);
    let (mut job, _) = provision(&client("node-7"));
    let _ = job.step(&svc, &base, JobEvent::AssignedRows { rows: sparse_rows() });
    let _ = job.step(&svc, &base, JobEvent::Registered);
    let act = job.step(&svc, &base, JobEvent::PlaybookFinished { outcome: PlaybookOutcome::Exited(1) });
    assert_eq!(act, JobAction::Report { error: ServiceError::PlaybookFailed });
    assert_eq!(job.state, JobState::Aborted);
}

#[test]
fn fetch_failure_aborts_with_persistence_error() {
    let svc = catalog();
    let base = Ip::new(10, 10, 0, 0);
    let (mut job, _) = provision(&client("node-7"));
    let act = job.step(&svc, &base, JobEvent::FetchFailed);
    assert_eq!(act, JobAction::Report { error: ServiceError::PersistenceError });
    assert_eq!(job.state, JobState::Aborted);
}

#[test]
fn duplicate_address_is_retried_once_then_fatal() {
    let svc = catalog();
    let base = Ip::new(10, 10, 0, 0);
    let (mut job, _) = provision(&client("node-7"));
    let _ = job.step(&svc, &base, JobEvent::AssignedRows { rows: sparse_rows() });
    let act = job.step(&svc, &base, JobEvent::RegisterDuplicate);
    assert_eq!(act, JobAction::FetchAssigned);
    let act = job.step(&svc, &base, JobEvent::AssignedRows { rows: sparse_rows() });
    assert_eq!(act, JobAction::DoRegister { ip: Ip::new(10, 10, 0, 3) });
    let act = job.step(&svc, &base, JobEvent::RegisterDuplicate);
    assert_eq!(act, JobAction::Report { error: ServiceError::DuplicateAddress });
    assert_eq!(job.state, JobState::Aborted);
}

#[test]
fn exhausted_pool_aborts_the_job() {
    let svc = catalog();
    let base = Ip::new(10, 10, 0, 0);
    let (mut job, _) = provision(&client("node-7"));
    let mut rows = Vec::new();
    for d in 1..=254u8 {
        rows.push(ClientRegistration {
            ip: cloud_init_ext::ip::format_ip(&Ip::new(10, 10, 0, d)),
            hostname: format!("node-{}", d),
        });
    }
    let act = job.step(&svc, &base, JobEvent::AssignedRows { rows });
    assert_eq!(act, JobAction::Report { error: ServiceError::PoolExhausted });
    assert_eq!(job.state, JobState::Aborted);
}

#[test]
fn missing_playbook_aborts_after_registration() {
    let svc = AnsibleService::new(Vec::new(), "/etc/keys/ansible".to_string());
    let base = Ip::new(10, 10, 0, 0);
    let (mut job, _) = provision(&client("node-7"));
    let _ = job.step(&svc, &base, JobEvent::AssignedRows { rows: sparse_rows() });
    let act = job.step(&svc, &base, JobEvent::Registered);
    assert_eq!(
        act,
        JobAction::Report { error: ServiceError::MissingPlaybook(PlaybookFunction::Ip) }
    );
    assert_eq!(job.state, JobState::Aborted);
}

#[test]
fn inspection_answer_keeps_rows_in_order() {
    let rows = vec![
        cloud_init_ext::endpoints::Client {
            id: 1,
            ip: "10.10.0.1".to_string(),
            hostname: "node-1".to_string(),
        },
        cloud_init_ext::endpoints::Client {
            id: 2,
            ip: "10.10.0.2".to_string(),
            hostname: "node-2".to_string(),
        },
    ];
    let resp = registered_clients(rows);
    assert_eq!(resp.clients.len(), 2);
    assert_eq!(resp.clients[0].id, 1);
    assert_eq!(resp.clients[1].hostname, "node-2");
}

#[test]
fn http_errors_map_to_status_codes() {
    assert_eq!(HttpError::Mysql.status_code(), 500);
    assert_eq!(HttpError::Unauthorized.status_code(), 401);
}
