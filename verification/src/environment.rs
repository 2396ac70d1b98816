//! The dependency probe state machine and the setup coordinator: detecting
//! and installing the runtime toolchain at most once per process, with every
//! decision made here and every host action performed by the caller.

use vstd::prelude::*;

verus! {

/// The pinned runtime version the toolchain must provide.
pub open spec fn node_version_chars() -> Seq<char> {
    "v20.9.0"@
}

/// The pinned runtime version as a string.
pub fn node_version() -> (r: &'static str)
    ensures
        r@ == node_version_chars(),
{
    "v20.9.0"
}

/// Where a driven provisioning run stands.
#[derive(Clone, Copy, Debug, PartialEq, Eq, Structural)]
pub enum SetupPhase {
    Idle,
    ProbingUvx,
    ProbingUv,
    InstallingUv,
    ProbingNvm,
    InstallingNvm,
    ProbingNode,
    InstallingNode,
    WritingShim,
    Done,
    Failed,
}

/// What the host must do next for a provisioning run.
#[derive(Debug)]
pub enum SetupAction {
    /// Look for an existing package-launcher binary; answer with `Found`.
    FindUvx,
    /// Probe the package manager; answer with `Found`.
    CheckUv,
    /// Run the package manager's installer; answer `Succeeded` or `Failed`.
    InstallUv,
    /// Probe the version manager; answer with `Found`.
    CheckNvm,
    /// Run the version manager's installer; answer `Succeeded` or `Failed`.
    InstallNvm,
    /// Probe the runtime's version; answer with `VersionIs`.
    CheckNode,
    /// Install the pinned runtime version; answer `Succeeded` or `Failed`.
    InstallNode,
    /// Make sure the launcher shim file exists; answer `Succeeded` or
    /// `Failed`.
    EnsureShim,
    /// The run is over and provisioning is complete.
    Finish,
    /// The run is over and failed with this message.
    Abort(String),
    /// The event did not belong to the current stage; the run is over and
    /// no flag was changed.
    Reject,
}

/// What the host reports back after performing an action.
#[derive(Debug)]
pub enum SetupEvent {
    /// Begin a run, from `Idle`.
    Start,
    /// A probe's outcome.
    Found(bool),
    /// The runtime version a probe saw, if any runtime was found.
    VersionIs(Option<String>),
    /// An installer or the shim write succeeded.
    Succeeded,
    /// An installer or the shim write failed, with its captured output.
    Failed(String),
}

/// The provisioning flags and the state of the current run. Flags only move
/// from `false` to `true` within a process lifetime.
#[derive(Debug)]
pub struct EnvSetup {
    /// Replaces probing and installing with canned outcomes, for tests.
    pub test_mode: bool,
    /// The package manager (or its launcher) is known present.
    pub uv_confirmed: bool,
    /// The version manager is known present.
    pub nvm_confirmed: bool,
    /// The pinned runtime version is known present.
    pub node_confirmed: bool,
    /// A background provisioning trigger is outstanding.
    pub setup_started: bool,
    /// The full provisioning sequence has run to completion.
    pub setup_completed: bool,
    /// Where the current driven run stands.
    pub phase: SetupPhase,
    /// The resolved launcher shim path, once known.
    pub npx_shim: Option<String>,
    /// The resolved package-launcher path, once known.
    pub uvx_path: Option<String>,
}

impl EnvSetup {
    /// The state at process start: nothing probed, nothing running.
    pub fn new() -> (r: EnvSetup)
        ensures
            !r.test_mode,
            !r.uv_confirmed,
            !r.nvm_confirmed,
            !r.node_confirmed,
            !r.setup_started,
            !r.setup_completed,
            r.phase == SetupPhase::Idle,
            r.npx_shim is None,
            r.uvx_path is None,
    {
        EnvSetup {
            test_mode: false,
            uv_confirmed: false,
            nvm_confirmed: false,
            node_confirmed: false,
            setup_started: false,
            setup_completed: false,
            phase: SetupPhase::Idle,
            npx_shim: None,
            uvx_path: None,
        }
    }
}

/// Switch canned test outcomes on or off.
pub fn set_test_mode(st: &mut EnvSetup, enabled: bool)
    ensures
        *final(st) == (EnvSetup { test_mode: enabled, ..*old(st) }),
{
    st.test_mode = enabled;
}

/// Whether canned test outcomes are on.
pub fn is_test_mode(st: &EnvSetup) -> (r: bool)
    ensures
        r == st.test_mode,
{
    st.test_mode
}

/// After the version-manager stage, the next stage: probe the version
/// manager unless it is already confirmed, else probe the runtime.
pub open spec fn spec_after_uv(st: EnvSetup) -> (EnvSetup, SetupAction) {
    if st.nvm_confirmed {
        (EnvSetup { phase: SetupPhase::ProbingNode, ..st }, SetupAction::CheckNode)
    } else {
        (EnvSetup { phase: SetupPhase::ProbingNvm, ..st }, SetupAction::CheckNvm)
    }
}

/// One transition of the provisioning machine: from a state and a host
/// event to the next state and the next host action. Probes that succeed
/// confirm their dependency and skip its installer; installers that fail
/// end the run without setting the completion flag.
pub open spec fn spec_step(st: EnvSetup, ev: SetupEvent) -> (EnvSetup, SetupAction) {
    match (st.phase, ev) {
        (SetupPhase::Idle, SetupEvent::Start) => {
            if st.setup_completed {
                (EnvSetup { phase: SetupPhase::Done, ..st }, SetupAction::Finish)
            } else if st.uv_confirmed {
                spec_after_uv(EnvSetup { phase: SetupPhase::ProbingUvx, ..st })
            } else {
                (EnvSetup { phase: SetupPhase::ProbingUvx, ..st }, SetupAction::FindUvx)
            }
        },
        (SetupPhase::ProbingUvx, SetupEvent::Found(found)) => {
            if found {
                spec_after_uv(EnvSetup { uv_confirmed: true, ..st })
            } else {
                (EnvSetup { phase: SetupPhase::ProbingUv, ..st }, SetupAction::CheckUv)
            }
        },
        (SetupPhase::ProbingUv, SetupEvent::Found(found)) => {
            if found {
                spec_after_uv(EnvSetup { uv_confirmed: true, ..st })
            } else {
                (EnvSetup { phase: SetupPhase::InstallingUv, ..st }, SetupAction::InstallUv)
            }
        },
        (SetupPhase::InstallingUv, SetupEvent::Succeeded) => spec_after_uv(
            EnvSetup { uv_confirmed: true, ..st },
        ),
        (SetupPhase::ProbingNvm, SetupEvent::Found(found)) => {
            if found {
                (
                    EnvSetup { nvm_confirmed: true, phase: SetupPhase::ProbingNode, ..st },
                    SetupAction::CheckNode,
                )
            } else {
                (EnvSetup { phase: SetupPhase::InstallingNvm, ..st }, SetupAction::InstallNvm)
            }
        },
        (SetupPhase::InstallingNvm, SetupEvent::Succeeded) => (
            EnvSetup { nvm_confirmed: true, phase: SetupPhase::ProbingNode, ..st },
            SetupAction::CheckNode,
        ),
        (SetupPhase::ProbingNode, SetupEvent::VersionIs(v)) => {
            match v {
                Some(ver) => {
                    if ver@ == node_version_chars() {
                        (
                            EnvSetup { node_confirmed: true, phase: SetupPhase::WritingShim, ..st },
                            SetupAction::EnsureShim,
                        )
                    } else {
                        (
                            EnvSetup { phase: SetupPhase::InstallingNode, ..st },
                            SetupAction::InstallNode,
                        )
                    }
                },
                None => (
                    EnvSetup { phase: SetupPhase::InstallingNode, ..st },
                    SetupAction::InstallNode,
                ),
            }
        },
        (SetupPhase::InstallingNode, SetupEvent::Succeeded) => (
            EnvSetup { node_confirmed: true, phase: SetupPhase::WritingShim, ..st },
            SetupAction::EnsureShim,
        ),
        (SetupPhase::WritingShim, SetupEvent::Succeeded) => (
            EnvSetup { setup_completed: true, phase: SetupPhase::Done, ..st },
            SetupAction::Finish,
        ),
        (SetupPhase::InstallingUv, SetupEvent::Failed(e)) => (
            EnvSetup { phase: SetupPhase::Failed, ..st },
            SetupAction::Abort(e),
        ),
        (SetupPhase::InstallingNvm, SetupEvent::Failed(e)) => (
            EnvSetup { phase: SetupPhase::Failed, ..st },
            SetupAction::Abort(e),
        ),
        (SetupPhase::InstallingNode, SetupEvent::Failed(e)) => (
            EnvSetup { phase: SetupPhase::Failed, ..st },
            SetupAction::Abort(e),
        ),
        (SetupPhase::WritingShim, SetupEvent::Failed(e)) => (
            EnvSetup { phase: SetupPhase::Failed, ..st },
            SetupAction::Abort(e),
        ),
        (SetupPhase::Done, _) => (st, SetupAction::Finish),
        _ => (EnvSetup { phase: SetupPhase::Failed, ..st }, SetupAction::Reject),
    }
}


/// Perform one transition of the provisioning machine.
pub fn setup_step(st: &mut EnvSetup, ev: SetupEvent) -> (r: SetupAction)
    ensures
        (*final(st), r) == spec_step(*old(st), ev),
{
    match (st.phase, ev) {
        (SetupPhase::Idle, SetupEvent::Start) => {
            if st.setup_completed {
                st.phase = SetupPhase::Done;
                SetupAction::Finish
            } else if st.uv_confirmed {
                st.phase = SetupPhase::ProbingUvx;
                after_uv(st)
            } else {
                st.phase = SetupPhase::ProbingUvx;
                SetupAction::FindUvx
            }
        },
        (SetupPhase::ProbingUvx, SetupEvent::Found(found)) => {
            if found {
                st.uv_confirmed = true;
                after_uv(st)
            } else {
                st.phase = SetupPhase::ProbingUv;
                SetupAction::CheckUv
            }
        },
        (SetupPhase::ProbingUv, SetupEvent::Found(found)) => {
            if found {
                st.uv_confirmed = true;
                after_uv(st)
            } else {
                st.phase = SetupPhase::InstallingUv;
                SetupAction::InstallUv
            }
        },
        (SetupPhase::InstallingUv, SetupEvent::Succeeded) => {
            st.uv_confirmed = true;
            after_uv(st)
        },
        (SetupPhase::ProbingNvm, SetupEvent::Found(found)) => {
            if found {
                st.nvm_confirmed = true;
                st.phase = SetupPhase::ProbingNode;
                SetupAction::CheckNode
            } else {
                st.phase = SetupPhase::InstallingNvm;
                SetupAction::InstallNvm
            }
        },
        (SetupPhase::InstallingNvm, SetupEvent::Succeeded) => {
            st.nvm_confirmed = true;
            st.phase = SetupPhase::ProbingNode;
            SetupAction::CheckNode
        },
        (SetupPhase::ProbingNode, SetupEvent::VersionIs(v)) => {
            match v {
                Some(ver) => {
                    if crate::json::str_eq(ver.as_str(), node_version()) {
                        st.node_confirmed = true;
                        st.phase = SetupPhase::WritingShim;
                        SetupAction::EnsureShim
                    } else {
                        st.phase = SetupPhase::InstallingNode;
                        SetupAction::InstallNode
                    }
                },
                None => {
                    st.phase = SetupPhase::InstallingNode;
                    SetupAction::InstallNode
                },
            }
        },
        (SetupPhase::InstallingNode, SetupEvent::Succeeded) => {
            st.node_confirmed = true;
            st.phase = SetupPhase::WritingShim;
            SetupAction::EnsureShim
        },
        (SetupPhase::WritingShim, SetupEvent::Succeeded) => {
            st.setup_completed = true;
            st.phase = SetupPhase::Done;
            SetupAction::Finish
        },
        (SetupPhase::InstallingUv, SetupEvent::Failed(e)) => {
            st.phase = SetupPhase::Failed;
            SetupAction::Abort(e)
        },
        (SetupPhase::InstallingNvm, SetupEvent::Failed(e)) => {
            st.phase = SetupPhase::Failed;
            SetupAction::Abort(e)
        },
        (SetupPhase::InstallingNode, SetupEvent::Failed(e)) => {
            st.phase = SetupPhase::Failed;
            SetupAction::Abort(e)
        },
        (SetupPhase::WritingShim, SetupEvent::Failed(e)) => {
            st.phase = SetupPhase::Failed;
            SetupAction::Abort(e)
        },
        (SetupPhase::Done, _) => SetupAction::Finish,
        _ => {
            st.phase = SetupPhase::Failed;
            SetupAction::Reject
        },
    }
}

/// After the package-manager stage: move to the version-manager probe, or
/// straight to the runtime probe when the version manager is confirmed.
fn after_uv(st: &mut EnvSetup) -> (r: SetupAction)
    ensures
        (*final(st), r) == spec_after_uv(*old(st)),
{
    if st.nvm_confirmed {
        st.phase = SetupPhase::ProbingNode;
        SetupAction::CheckNode
    } else {
        st.phase = SetupPhase::ProbingNvm;
        SetupAction::CheckNvm
    }
}

/// The outcome of one driven provisioning run.
#[derive(Debug)]
pub enum SetupRunResult {
    /// The run reached the end: every dependency confirmed, the shim in
    /// place.
    Completed,
    /// The run failed with this message.
    Failed(String),
}

/// The blocking provisioning entry point. In test mode, and when a run has
/// already completed, it reports success at once and changes nothing.
/// Otherwise it needs the outcome of a provisioning run driven through
/// `setup_step`: success sets the completion flag; failure leaves every
/// flag as it was, so the next call retries the sequence; a missing run is
/// an error and changes nothing.
pub fn ensure_environment_sync(st: &mut EnvSetup, run: Option<&SetupRunResult>) -> (r: Result<
    String,
    String,
>)
    ensures
        old(st).test_mode ==> *final(st) == *old(st) && (r matches Ok(m) && m@
            == "Environment setup completed"@),
        !old(st).test_mode && old(st).setup_completed ==> *final(st) == *old(st) && (
        r matches Ok(m) && m@ == "Environment setup already completed"@),
        !old(st).test_mode && !old(st).setup_completed ==> match run {
            Some(o) => match o {
                SetupRunResult::Completed => *final(st) == (EnvSetup {
                    setup_completed: true,
                    phase: SetupPhase::Done,
                    ..*old(st)
                }) && (r matches Ok(m) && m@ == "Environment setup completed"@),
                SetupRunResult::Failed(e) => *final(st) == *old(st) && (r matches Err(m) && m@
                    == e@),
            },
            None => *final(st) == *old(st) && (r matches Err(m) && m@
                == "Environment setup has not been performed"@),
        },
        final(st).setup_completed == (old(st).setup_completed || (!old(st).test_mode && (
        run matches Some(o) && (*o matches SetupRunResult::Completed)))),
{
    if st.test_mode {
        return Ok("Environment setup completed".to_owned());
    }
    if st.setup_completed {
        return Ok("Environment setup already completed".to_owned());
    }
    match run {
        Some(o) => match o {
            SetupRunResult::Completed => {
                st.setup_completed = true;
                st.phase = SetupPhase::Done;
                Ok("Environment setup completed".to_owned())
            },
            SetupRunResult::Failed(e) => Err(e.clone()),
        },
        None => Err("Environment setup has not been performed".to_owned()),
    }
}

/// The fire-and-forget provisioning trigger's decision: whether this caller
/// should spawn a background run. At most one trigger is outstanding at a
/// time; in test mode none is ever spawned.
pub fn ensure_environment(st: &mut EnvSetup) -> (r: (Result<String, String>, bool))
    ensures
        old(st).test_mode ==> *final(st) == *old(st) && !r.1 && (r.0 matches Ok(m) && m@
            == "Environment setup started"@),
        !old(st).test_mode && old(st).setup_started ==> *final(st) == *old(st) && !r.1 && (
        r.0 matches Ok(m) && m@ == "Environment setup already in progress"@),
        !old(st).test_mode && !old(st).setup_started ==> *final(st) == (EnvSetup {
            setup_started: true,
            ..*old(st)
        }) && r.1 && (r.0 matches Ok(m) && m@ == "Environment setup started"@),
{
    if st.test_mode {
        return (Ok("Environment setup started".to_owned()), false);
    }
    if st.setup_started {
        return (Ok("Environment setup already in progress".to_owned()), false);
    }
    st.setup_started = true;
    (Ok("Environment setup started".to_owned()), true)
}

/// Mark a background provisioning trigger as finished, so that a later
/// trigger may run again.
pub fn end_background_setup(st: &mut EnvSetup)
    ensures
        *final(st) == (EnvSetup { setup_started: false, ..*old(st) }),
{
    st.setup_started = false;
}

/// Record the resolved launcher paths, once the host has probed or
/// installed them.
pub fn set_tool_paths(st: &mut EnvSetup, npx_shim: String, uvx_path: String)
    ensures
        *final(st) == (EnvSetup {
            npx_shim: Some(npx_shim),
            uvx_path: Some(uvx_path),
            ..*old(st)
        }),
{
    st.npx_shim = Some(npx_shim);
    st.uvx_path = Some(uvx_path);
}

/// The launcher shim path: a fixed canned path in test mode, else the
/// fixed location under the given home directory.
pub fn get_npx_shim_path(st: &EnvSetup, home: &str) -> (r: String)
    ensures
        st.test_mode ==> r@ == "/test/.local/share/fleur/bin/npx-fleur"@,
        !st.test_mode ==> r@ == home@ + "/.local/share/fleur/bin/npx-fleur"@,
{
    if st.test_mode {
        "/test/.local/share/fleur/bin/npx-fleur".to_owned()
    } else {
        home.to_owned().concat("/.local/share/fleur/bin/npx-fleur")
    }
}

/// The usual locations of the package launcher under the given home
/// directory, in the order they are probed.
pub fn uvx_candidate_paths(home: &str) -> (r: Vec<String>)
    ensures
        r@.len() == 5,
        r@[0]@ == home@ + "/.local/bin/uvx"@,
        r@[1]@ == home@ + "/.cargo/bin/uvx"@,
        r@[2]@ == "/usr/local/bin/uvx"@,
        r@[3]@ == "/opt/homebrew/bin/uvx"@,
        r@[4]@ == "/usr/bin/uvx"@,
{
    let mut r: Vec<String> = Vec::new();
    r.push(home.to_owned().concat("/.local/bin/uvx"));
    r.push(home.to_owned().concat("/.cargo/bin/uvx"));
    r.push("/usr/local/bin/uvx".to_owned());
    r.push("/opt/homebrew/bin/uvx".to_owned());
    r.push("/usr/bin/uvx".to_owned());
    r
}

/// The text of the launcher shim: a shell script that embeds the two
/// resolved absolute paths literally, pins the runtime's directory onto
/// the search path, and hands over to the real launcher.
pub fn shim_script_content(node_path: &str, npx_path: &str) -> (r: String)
    ensures
        r@ == "#!/bin/sh\n# Launcher shim: pins the resolved runtime, then delegates\n\nNODE=\""@
            + node_path@ + "\"\nNPX=\""@ + npx_path@
            + "\"\n\nexport PATH=\"$(dirname \"$NODE\"):$PATH\"\n\nexec \"$NPX\" \"$@\"\n"@,
{
    "#!/bin/sh\n# Launcher shim: pins the resolved runtime, then delegates\n\nNODE=\"".to_owned()
        .concat(node_path)
        .concat("\"\nNPX=\"")
        .concat(npx_path)
        .concat("\"\n\nexport PATH=\"$(dirname \"$NODE\"):$PATH\"\n\nexec \"$NPX\" \"$@\"\n")
}

/// No flag of the provisioning state, the completion flag included, ever
/// moves back from `true` to `false` across a machine transition.
pub proof fn law_flags_monotone(st: EnvSetup, ev: SetupEvent)
    ensures
        ({
            let s2 = spec_step(st, ev).0;
            &&& (st.uv_confirmed ==> s2.uv_confirmed)
            &&& (st.nvm_confirmed ==> s2.nvm_confirmed)
            &&& (st.node_confirmed ==> s2.node_confirmed)
            &&& (st.setup_completed ==> s2.setup_completed)
            &&& s2.test_mode == st.test_mode
        }),
{
}

/// The completion flag is set by a machine transition only when the final
/// stage, the shim write, reports success: a partial run never completes.
pub proof fn law_completion_only_on_success(st: EnvSetup, ev: SetupEvent)
    ensures
        spec_step(st, ev).0.setup_completed ==> st.setup_completed || (st.phase
            == SetupPhase::WritingShim && ev is Succeeded),
{
}

/// One provisioning run on a host with every dependency in place: from a
/// fresh state, the machine probes the launcher, the version manager and
/// the runtime, writes the shim, and completes — and a second trigger
/// after that finds the machine done and is given no further work.
pub proof fn law_single_run(st: EnvSetup, ver: String)
    requires
        !st.setup_completed,
        !st.uv_confirmed,
        !st.nvm_confirmed,
        st.phase == SetupPhase::Idle,
        ver@ == node_version_chars(),
    ensures
        ({
            let (s1, a1) = spec_step(st, SetupEvent::Start);
            let (s2, a2) = spec_step(s1, SetupEvent::Found(true));
            let (s3, a3) = spec_step(s2, SetupEvent::Found(true));
            let (s4, a4) = spec_step(s3, SetupEvent::VersionIs(Some(ver)));
            let (s5, a5) = spec_step(s4, SetupEvent::Succeeded);
            let (s6, a6) = spec_step(s5, SetupEvent::Start);
            &&& a1 is FindUvx
            &&& a2 is CheckNvm
            &&& a3 is CheckNode
            &&& a4 is EnsureShim
            &&& a5 is Finish
            &&& s5.setup_completed
            &&& s5.uv_confirmed && s5.nvm_confirmed && s5.node_confirmed
            &&& a6 is Finish
            &&& s6 == s5
        }),
{
}

} // verus!
