use task_maker::remote::{validate_welcome, RemoteEntityMessageResponse};
use task_maker::sandbox::{
    sandbox_result, ErrorSandboxRunner, ExitStatus, RawSandboxResult, SandboxExecutionResult, SandboxResult,
    SandboxRunner, SuccessSandboxRunner, UnsafeSandboxRunner,
};

#[test]
fn fake_runners() {
    match ErrorSandboxRunner::default().run() {
        RawSandboxResult::Error(m) => assert_eq!(m, "Nope"),
        _ => panic!("expected an error"),
    }
    match SuccessSandboxRunner::default().run() {
        RawSandboxResult::Success(r) => {
            assert!(matches!(r.status, ExitStatus::ExitCode(0)));
            assert_eq!(r.memory_usage, 0);
        }
        _ => panic!("expected a success"),
    }
    match UnsafeSandboxRunner::default().outcome(3) {
        RawSandboxResult::Success(r) => assert!(matches!(r.status, ExitStatus::ExitCode(3))),
        _ => panic!("expected a success"),
    }
}

#[test]
fn sandbox_error_is_an_error() {
    let res = sandbox_result(ErrorSandboxRunner.run(), None);
    assert_eq!(res.err(), Some("Sandbox failed: Nope".to_string()));
}

#[test]
fn exit_codes_signals_and_kills() {
    let ok = |status| RawSandboxResult::Success(SandboxExecutionResult { status, memory_usage: 10240 });
    match sandbox_result(ok(ExitStatus::ExitCode(-1)), None) {
        Ok(SandboxResult::Success { exit_status, signal, memory, was_killed }) => {
            assert_eq!(exit_status, u32::MAX);
            assert!(signal.is_none());
            assert_eq!(memory, 10);
            assert!(!was_killed);
        }
        _ => panic!("expected a success"),
    }
    match sandbox_result(ok(ExitStatus::Signal(11)), Some("Segmentation fault".to_string())) {
        Ok(SandboxResult::Success { exit_status, signal, was_killed, .. }) => {
            assert_eq!(exit_status, 0);
            assert_eq!(signal, Some((11, "Segmentation fault".to_string())));
            assert!(!was_killed);
        }
        _ => panic!("expected a success"),
    }
    match sandbox_result(ok(ExitStatus::Signal(64)), None) {
        Ok(SandboxResult::Success { signal, .. }) => assert_eq!(signal, Some((64, "unknown".to_string()))),
        _ => panic!("expected a success"),
    }
    match sandbox_result(ok(ExitStatus::Killed), None) {
        Ok(SandboxResult::Success { exit_status, signal, was_killed, .. }) => {
            assert_eq!(exit_status, 1);
            assert_eq!(signal, Some((9, "Killed by sandbox".to_string())));
            assert!(was_killed);
        }
        _ => panic!("expected a success"),
    }
}

#[test]
fn welcome_versions() {
    assert!(matches!(validate_welcome("1.2.3", "1.2.3"), RemoteEntityMessageResponse::Accepted));
    match validate_welcome("0.5.0", "1.2.3") {
        RemoteEntityMessageResponse::Rejected(m) => {
            assert_eq!(m, "Wrong task-maker version, you have 0.5.0, server has 1.2.3")
        }
        _ => panic!("expected a rejection"),
    }
}
