use ssher::forward::{list_forwards, start_forward, stop_forward, ForwardConfig, ForwardState, ForwardStatus};
use ssher::supervisor::{grace_elapsed, ssh_forward_args, Phase, Supervisor, SupervisorAction};

fn config(id: &str, direction: &str) -> ForwardConfig {
    ForwardConfig {
        id: id.to_string(),
        alias: "box".to_string(),
        direction: direction.to_string(),
        local_port: 8080,
        remote_host: "127.0.0.1".to_string(),
        remote_port: 80,
    }
}

#[test]
fn start_lists_a_connecting_forward_with_a_uuid() {
    let mut state = ForwardState::new();
    let info = start_forward(&mut state, "box".into(), "local".into(), 8080, "127.0.0.1".into(), 9090);
    assert_eq!(info.status, ForwardStatus::Connecting);
    assert_eq!(info.retry_count, 0);
    assert!(info.last_error.is_none());
    let id = info.config.id.clone();
    assert_eq!(id.len(), 36);
    assert_eq!(id.as_bytes()[14], b'4');
    assert_eq!(id.as_bytes()[8], b'-');
    let listed = list_forwards(&state);
    assert_eq!(listed.len(), 1);
    assert_eq!(listed[0].config.id, id);
    assert_eq!(listed[0].config.remote_port, 9090);
    let other = start_forward(&mut state, "box".into(), "remote".into(), 1, "h".into(), 2);
    assert_ne!(other.config.id, id);
    assert_eq!(list_forwards(&state).len(), 2);
}

#[test]
fn stop_removes_the_forward_and_unknown_ids_are_reported() {
    let mut state = ForwardState::new();
    let info = start_forward(&mut state, "box".into(), "local".into(), 8080, "127.0.0.1".into(), 80);
    assert_eq!(stop_forward(&mut state, &"nope".to_string()), Err("Forward not found".to_string()));
    assert_eq!(list_forwards(&state).len(), 1);
    assert_eq!(stop_forward(&mut state, &info.config.id), Ok(()));
    assert!(list_forwards(&state).is_empty());
    assert!(state.persisted_configs().is_empty());
    assert_eq!(stop_forward(&mut state, &info.config.id), Err("Forward not found".to_string()));
}

#[test]
fn restoring_a_saved_id_replaces_it() {
    let mut state = ForwardState::new();
    state.insert_forward(config("x", "local"));
    state.insert_forward(config("y", "local"));
    let mut again = config("x", "remote");
    again.local_port = 1;
    state.insert_forward(again);
    let saved = state.persisted_configs();
    assert_eq!(saved.len(), 2);
    assert_eq!(saved[0].id, "x");
    assert_eq!(saved[0].local_port, 1);
    assert_eq!(saved[1].id, "y");
}

#[test]
fn ssh_arguments_for_local_and_remote_forwards() {
    assert_eq!(
        ssh_forward_args(&config("i", "local")),
        vec![
            "-N", "-o", "ServerAliveInterval=10", "-o", "ServerAliveCountMax=3", "-o",
            "ControlMaster=no", "-o", "ControlPath=none", "-L", "8080:127.0.0.1:80", "box"
        ]
    );
    let mut c = config("i", "remote");
    c.local_port = 0;
    c.remote_port = 65535;
    let args = ssh_forward_args(&c);
    assert_eq!(args[9], "-R");
    assert_eq!(args[10], "0:127.0.0.1:65535");
}

fn step_spawn(sup: &mut Supervisor, state: &mut ForwardState) {
    let s = sup.on_begin(state, false);
    assert!(matches!(s.action, SupervisorAction::Spawn { .. }));
    assert!(s.emit);
    let s = sup.on_spawned(state);
    assert!(matches!(s.action, SupervisorAction::Poll { delay_secs: 0 }));
}

#[test]
fn supervisor_reports_active_then_retries_with_backoff() {
    let mut state = ForwardState::new();
    state.insert_forward(config("f", "local"));
    let mut sup = Supervisor::new("f".to_string());
    step_spawn(&mut sup, &mut state);
    assert_eq!(state.info_of(&"f".to_string()).unwrap().status, ForwardStatus::Connecting);
    // port not answering yet, within the grace period
    let s = sup.on_polled(&mut state, false, true, None, false, false);
    assert!(matches!(s.action, SupervisorAction::Poll { delay_secs: 3 }));
    assert!(!s.emit);
    // healthy: active
    let s = sup.on_polled(&mut state, false, true, None, true, false);
    assert!(s.emit);
    assert_eq!(state.info_of(&"f".to_string()).unwrap().status, ForwardStatus::Active);
    assert_eq!(sup.backoff, 1);
    // the port stops answering after having answered: failure
    let s = sup.on_polled(&mut state, false, true, None, false, false);
    assert!(matches!(s.action, SupervisorAction::KillChild));
    let s = sup.on_child_killed(&mut state, false);
    assert!(matches!(s.action, SupervisorAction::Sleep { secs: 1 }));
    let info = state.info_of(&"f".to_string()).unwrap();
    assert_eq!(info.status, ForwardStatus::Retrying);
    assert_eq!(info.retry_count, 1);
    assert_eq!(info.last_error.as_deref(), Some("local port 8080 is not accepting connections"));
    assert_eq!(sup.backoff, 2);
    // the process exits: failure, backoff keeps doubling
    step_spawn(&mut sup, &mut state);
    let s = sup.on_polled(&mut state, false, true, Some("exit status: 255".to_string()), false, false);
    assert!(matches!(s.action, SupervisorAction::KillChild));
    let s = sup.on_child_killed(&mut state, false);
    assert!(matches!(s.action, SupervisorAction::Sleep { secs: 2 }));
    let info = state.info_of(&"f".to_string()).unwrap();
    assert_eq!(info.retry_count, 2);
    assert_eq!(info.last_error.as_deref(), Some("ssh exited unexpectedly (exit status: 255)"));
    assert_eq!(sup.backoff, 4);
}

#[test]
fn backoff_doubles_up_to_thirty_seconds() {
    let mut state = ForwardState::new();
    state.insert_forward(config("f", "remote"));
    let mut sup = Supervisor::new("f".to_string());
    let mut sleeps = vec![];
    for _ in 0..7 {
        let s = sup.on_begin(&mut state, false);
        assert!(matches!(s.action, SupervisorAction::Spawn { .. }));
        let s = sup.on_spawn_failed(&mut state, false, "No such file".to_string());
        match s.action {
            SupervisorAction::Sleep { secs } => sleeps.push(secs),
            _ => panic!("expected a sleep"),
        }
    }
    assert_eq!(sleeps, vec![1, 2, 4, 8, 16, 30, 30]);
    let info = state.info_of(&"f".to_string()).unwrap();
    assert_eq!(info.retry_count, 7);
    assert_eq!(info.last_error.as_deref(), Some("Failed to spawn ssh: No such file"));
}

#[test]
fn remote_forward_is_healthy_while_the_process_lives() {
    let mut state = ForwardState::new();
    state.insert_forward(config("r", "remote"));
    let mut sup = Supervisor::new("r".to_string());
    step_spawn(&mut sup, &mut state);
    assert!(!sup.probe_port);
    sup.on_polled(&mut state, false, true, None, false, false);
    assert_eq!(state.info_of(&"r".to_string()).unwrap().status, ForwardStatus::Active);
}

#[test]
fn stopped_forward_is_not_restarted() {
    let mut state = ForwardState::new();
    state.insert_forward(config("s", "local"));
    let mut sup = Supervisor::new("s".to_string());
    step_spawn(&mut sup, &mut state);
    let s = sup.on_polled(&mut state, true, true, None, true, false);
    assert!(matches!(s.action, SupervisorAction::KillChild));
    let s = sup.on_child_killed(&mut state, true);
    assert!(matches!(s.action, SupervisorAction::Exit));
    assert!(s.emit);
    assert_eq!(state.info_of(&"s".to_string()).unwrap().status, ForwardStatus::Stopped);
    assert!(matches!(sup.phase, Phase::Finished));

    // a forward removed by stop_forward ends its supervisor at the next start
    let mut sup2 = Supervisor::new("s".to_string());
    stop_forward(&mut state, &"s".to_string()).unwrap();
    let s = sup2.on_begin(&mut state, false);
    assert!(matches!(s.action, SupervisorAction::Exit));
    assert!(!s.emit);
}

#[test]
fn grace_period_ends_after_ten_seconds() {
    assert!(!grace_elapsed(0));
    assert!(!grace_elapsed(10_000_000_000));
    assert!(grace_elapsed(10_000_000_001));
    assert!(grace_elapsed(60_000_000_000));
}
