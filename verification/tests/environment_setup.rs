use fleur_lib::environment::{
    self, EnvSetup, SetupAction, SetupEvent, SetupPhase, SetupRunResult,
};

#[test]
fn test_environment_setup() {
    let mut st = EnvSetup::new();
    environment::set_test_mode(&mut st, true);
    let result = environment::ensure_environment_sync(&mut st, None);
    assert!(result.is_ok());
    environment::set_test_mode(&mut st, false);
}

#[test]
fn test_blocking_trigger_needs_a_run() {
    let mut st = EnvSetup::new();
    let result = environment::ensure_environment_sync(&mut st, None);
    assert!(result.is_err());
    assert!(!st.setup_completed);
}

#[test]
fn test_blocking_trigger_completion_and_fast_path() {
    let mut st = EnvSetup::new();
    let first = environment::ensure_environment_sync(&mut st, Some(&SetupRunResult::Completed));
    assert_eq!(first.unwrap(), "Environment setup completed");
    assert!(st.setup_completed);
    // A second call takes the fast path and changes nothing.
    let second = environment::ensure_environment_sync(&mut st, None);
    assert_eq!(second.unwrap(), "Environment setup already completed");
}

#[test]
fn test_blocking_trigger_failure_is_retryable() {
    let mut st = EnvSetup::new();
    let failed = environment::ensure_environment_sync(
        &mut st,
        Some(&SetupRunResult::Failed("installer exited with status 1".to_string())),
    );
    assert_eq!(failed.unwrap_err(), "installer exited with status 1");
    assert!(!st.setup_completed);
    // The next call may retry and succeed.
    let retried = environment::ensure_environment_sync(&mut st, Some(&SetupRunResult::Completed));
    assert!(retried.is_ok());
    assert!(st.setup_completed);
}

#[test]
fn test_machine_single_run_all_present() {
    let mut st = EnvSetup::new();
    assert!(matches!(
        environment::setup_step(&mut st, SetupEvent::Start),
        SetupAction::FindUvx
    ));
    assert!(matches!(
        environment::setup_step(&mut st, SetupEvent::Found(true)),
        SetupAction::CheckNvm
    ));
    assert!(matches!(
        environment::setup_step(&mut st, SetupEvent::Found(true)),
        SetupAction::CheckNode
    ));
    assert!(matches!(
        environment::setup_step(
            &mut st,
            SetupEvent::VersionIs(Some(environment::node_version().to_string()))
        ),
        SetupAction::EnsureShim
    ));
    assert!(matches!(
        environment::setup_step(&mut st, SetupEvent::Succeeded),
        SetupAction::Finish
    ));
    assert!(st.setup_completed);
    assert!(st.uv_confirmed && st.nvm_confirmed && st.node_confirmed);
    // A later trigger finds the machine done and is given no further work.
    assert!(matches!(
        environment::setup_step(&mut st, SetupEvent::Start),
        SetupAction::Finish
    ));
    assert!(st.setup_completed);
}

#[test]
fn test_machine_installs_when_absent() {
    let mut st = EnvSetup::new();
    assert!(matches!(
        environment::setup_step(&mut st, SetupEvent::Start),
        SetupAction::FindUvx
    ));
    assert!(matches!(
        environment::setup_step(&mut st, SetupEvent::Found(false)),
        SetupAction::CheckUv
    ));
    assert!(matches!(
        environment::setup_step(&mut st, SetupEvent::Found(false)),
        SetupAction::InstallUv
    ));
    assert!(matches!(
        environment::setup_step(&mut st, SetupEvent::Succeeded),
        SetupAction::CheckNvm
    ));
    assert!(matches!(
        environment::setup_step(&mut st, SetupEvent::Found(false)),
        SetupAction::InstallNvm
    ));
    assert!(matches!(
        environment::setup_step(&mut st, SetupEvent::Succeeded),
        SetupAction::CheckNode
    ));
    assert!(matches!(
        environment::setup_step(&mut st, SetupEvent::VersionIs(Some("v18.0.0".to_string()))),
        SetupAction::InstallNode
    ));
    assert!(matches!(
        environment::setup_step(&mut st, SetupEvent::Succeeded),
        SetupAction::EnsureShim
    ));
    assert!(matches!(
        environment::setup_step(&mut st, SetupEvent::Succeeded),
        SetupAction::Finish
    ));
    assert!(st.setup_completed);
}

#[test]
fn test_machine_failed_install_never_completes() {
    let mut st = EnvSetup::new();
    environment::setup_step(&mut st, SetupEvent::Start);
    environment::setup_step(&mut st, SetupEvent::Found(false));
    environment::setup_step(&mut st, SetupEvent::Found(false));
    let action = environment::setup_step(
        &mut st,
        SetupEvent::Failed("curl: could not resolve host".to_string()),
    );
    match action {
        SetupAction::Abort(m) => assert_eq!(m, "curl: could not resolve host"),
        _ => panic!("a failed installer must abort the run"),
    }
    assert!(!st.setup_completed);
    assert_eq!(st.phase, SetupPhase::Failed);
}

#[test]
fn test_fire_and_forget_trigger() {
    let mut st = EnvSetup::new();
    let (first, spawn_first) = environment::ensure_environment(&mut st);
    assert_eq!(first.unwrap(), "Environment setup started");
    assert!(spawn_first);
    let (second, spawn_second) = environment::ensure_environment(&mut st);
    assert_eq!(second.unwrap(), "Environment setup already in progress");
    assert!(!spawn_second);
    environment::end_background_setup(&mut st);
    let (third, spawn_third) = environment::ensure_environment(&mut st);
    assert!(third.is_ok());
    assert!(spawn_third);
}

#[test]
fn test_npx_shim_path_in_test_mode() {
    let mut st = EnvSetup::new();
    environment::set_test_mode(&mut st, true);
    let path = environment::get_npx_shim_path(&st, "/home/someone");
    assert_eq!(path, "/test/.local/share/fleur/bin/npx-fleur");
    environment::set_test_mode(&mut st, false);
    let path = environment::get_npx_shim_path(&st, "/home/someone");
    assert_eq!(path, "/home/someone/.local/share/fleur/bin/npx-fleur");
}

#[test]
fn test_shim_script_embeds_paths() {
    let shim = environment::shim_script_content("/n/bin/node", "/n/bin/npx");
    assert!(shim.contains("NODE=\"/n/bin/node\""));
    assert!(shim.contains("NPX=\"/n/bin/npx\""));
    assert!(shim.starts_with("#!/bin/sh\n"));
}
