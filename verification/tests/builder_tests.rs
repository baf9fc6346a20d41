//! Tests for the build coordinator's state machine and the platform-tag
//! probe.

use rattler_installs_packages::tags::{FromPythonError, PythonProbe, WheelTags};
use rattler_installs_packages::wheel_builder::{
    BuildPhase, CommandVerdict, OnWheelBuildFailure, PythonInterpreterVersion, SetupAction,
    WheelBuildError, WheelBuilder, WheelCacheKey,
};

fn new_builder(on_failure: OnWheelBuildFailure) -> WheelBuilder {
    WheelBuilder::new(PythonInterpreterVersion::new(3, 11, 4), on_failure, Vec::new())
}

#[test]
fn setup_single_flight() {
    let mut b = new_builder(OnWheelBuildFailure::DeleteBuildEnv);
    let name = "rich-13.6.0.tar.gz".to_owned();

    // The first request becomes the provisioner.
    let first = b.begin_setup(&name, true, 1);
    assert_eq!(first, SetupAction::Provision(1));

    // While the provisioner's channel lives, later requests wait on it —
    // the constructor runs exactly once.
    assert_eq!(b.begin_setup(&name, true, 2), SetupAction::Wait(1));
    assert_eq!(b.begin_setup(&name, true, 3), SetupAction::Wait(1));

    // A different source is provisioned independently.
    let other = "frob-1.0.tar.gz".to_owned();
    assert_eq!(b.begin_setup(&other, true, 4), SetupAction::Provision(4));

    // Once the provisioner finishes, everyone shares the same sandbox.
    b.finish_setup(&name, 7);
    assert_eq!(b.begin_setup(&name, true, 5), SetupAction::UseCached(7));
    assert_eq!(b.begin_setup(&name, false, 6), SetupAction::UseCached(7));
}

#[test]
fn setup_panic_recovery() {
    let mut b = new_builder(OnWheelBuildFailure::DeleteBuildEnv);
    let name = "rich-13.6.0.tar.gz".to_owned();
    assert_eq!(b.begin_setup(&name, true, 1), SetupAction::Provision(1));

    // The provisioner panicked: its channel is dead, and the next request
    // starts a fresh attempt instead of waiting forever.
    assert_eq!(b.begin_setup(&name, false, 2), SetupAction::Provision(2));
    // The fresh channel took over the registration.
    assert_eq!(b.begin_setup(&name, true, 3), SetupAction::Wait(2));
}

#[test]
fn waiter_outcomes() {
    assert!(matches!(WheelBuilder::waiter_outcome(Some(Some(9))), Ok(9)));
    match WheelBuilder::waiter_outcome(Some(None)) {
        Err(WheelBuildError::Error(m)) => {
            assert_eq!(m, "error during setup of original build environment")
        }
        other => panic!("unexpected: {:?}", other),
    }
    match WheelBuilder::waiter_outcome(None) {
        Err(WheelBuildError::Error(m)) => {
            assert_eq!(m, "panic during setup of original build environment")
        }
        other => panic!("unexpected: {:?}", other),
    }
}

#[test]
fn preserves_failed_sandbox_path() {
    let mut b = new_builder(OnWheelBuildFailure::SaveBuildEnv);
    let dir = "/tmp/build-env-1".to_owned();
    let failed: Result<(), WheelBuildError> =
        Err(WheelBuildError::Error("boom".to_owned()));
    let (result, persist) = b.handle_build_failure(failed, &dir);
    assert!(result.is_err());
    assert!(persist);
    assert_eq!(b.saved_build_envs().len(), 1);
    assert_eq!(b.saved_build_envs()[0], dir);

    // A second failure of the same sandbox does not duplicate the path.
    let failed: Result<(), WheelBuildError> =
        Err(WheelBuildError::Error("boom again".to_owned()));
    let (_, persist) = b.handle_build_failure(failed, &dir);
    assert!(persist);
    assert_eq!(b.saved_build_envs().len(), 1);

    // A successful build preserves nothing.
    let ok: Result<(), WheelBuildError> = Ok(());
    let (_, persist) = b.handle_build_failure(ok, &"/tmp/build-env-2".to_owned());
    assert!(!persist);
    assert_eq!(b.saved_build_envs().len(), 1);
}

#[test]
fn discard_policy_preserves_nothing() {
    let mut b = new_builder(OnWheelBuildFailure::DeleteBuildEnv);
    let failed: Result<(), WheelBuildError> =
        Err(WheelBuildError::Error("boom".to_owned()));
    let (result, persist) = b.handle_build_failure(failed, &"/tmp/build-env-1".to_owned());
    assert!(result.is_err());
    assert!(!persist);
    assert!(b.saved_build_envs().is_empty());
}

#[test]
fn command_exit_codes() {
    assert!(matches!(
        rattler_installs_packages::wheel_builder::evaluate_command(
            BuildPhase::WheelMetadata,
            Some(0),
            String::new()
        ),
        CommandVerdict::Succeeded
    ));
    // Exit code 50 in the metadata phase triggers the full-build fallback.
    assert!(matches!(
        rattler_installs_packages::wheel_builder::evaluate_command(
            BuildPhase::WheelMetadata,
            Some(50),
            String::new()
        ),
        CommandVerdict::MetadataUnsupported
    ));
    // In the wheel phase, 50 is an ordinary failure.
    match rattler_installs_packages::wheel_builder::evaluate_command(
        BuildPhase::Wheel,
        Some(50),
        "stderr text".to_owned(),
    ) {
        CommandVerdict::Failed(e) => assert_eq!(e, "stderr text"),
        other => panic!("unexpected: {:?}", other),
    }
    assert!(matches!(
        rattler_installs_packages::wheel_builder::evaluate_command(
            BuildPhase::Wheel,
            None,
            String::new()
        ),
        CommandVerdict::Failed(_)
    ));
    assert_eq!(BuildPhase::WheelMetadata.argument(), "WheelMetadata");
    assert_eq!(BuildPhase::Wheel.argument(), "Wheel");
}

#[test]
fn cache_keys_include_interpreter_version() {
    let v1 = PythonInterpreterVersion::new(3, 11, 4);
    let v2 = PythonInterpreterVersion::new(1, 0, 0);
    let a = WheelCacheKey::from_sdist(
        "rich".to_owned(),
        "13.6.0".to_owned(),
        "sha256=abc".to_owned(),
        &v1,
    );
    let b = WheelCacheKey::from_sdist(
        "rich".to_owned(),
        "13.6.0".to_owned(),
        "sha256=abc".to_owned(),
        &v1,
    );
    let c = WheelCacheKey::from_sdist(
        "rich".to_owned(),
        "13.6.0".to_owned(),
        "sha256=abc".to_owned(),
        &v2,
    );
    assert!(a.matches(&b));
    assert!(!a.matches(&c));
    let d = WheelCacheKey::from_sdist(
        "rich".to_owned(),
        "13.6.0".to_owned(),
        "sha256=other".to_owned(),
        &v1,
    );
    assert!(!a.matches(&d));
}

#[test]
fn python_probe_outcomes() {
    assert!(matches!(
        WheelTags::from_python_probe(PythonProbe::NotFound),
        Err(FromPythonError::CouldNotFindPythonExecutable)
    ));
    assert!(matches!(
        WheelTags::from_python_probe(PythonProbe::ExecFailed("denied".to_owned())),
        Err(FromPythonError::FailedToExecute(_))
    ));
    assert!(matches!(
        WheelTags::from_python_probe(PythonProbe::Exited(Some(3), Vec::new())),
        Err(FromPythonError::FailedToRun(Some(3)))
    ));
    assert!(matches!(
        WheelTags::from_python_probe(PythonProbe::Exited(Some(0), b"not json".to_vec())),
        Err(FromPythonError::FailedToParse(_))
    ));

    let stdout = b" [[\"cp311\", \"abi3\", \"linux_x86_64\"], [\"py3\", \"none\", \"any\"]] \n"
        .to_vec();
    let tags = WheelTags::from_python_probe(PythonProbe::Exited(Some(0), stdout)).unwrap();
    assert_eq!(tags.tags.len(), 2);
    assert_eq!(tags.tags[0].interpreter, "cp311");
    assert_eq!(tags.tags[0].abi, "abi3");
    assert_eq!(tags.tags[0].platform, "linux_x86_64");
    assert_eq!(tags.tags[1].interpreter, "py3");
}
