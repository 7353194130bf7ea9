//! What a sandbox reports about the process it ran, the fake sandbox runners, and how a report
//! becomes the result of an execution.

use vstd::prelude::*;

use crate::text::push_str;

verus! {

/// How a sandboxed process ended.
pub enum ExitStatus {
    /// It exited with this code.
    ExitCode(i32),
    /// It was terminated by this signal.
    Signal(i32),
    /// The sandbox killed it for exceeding a limit.
    Killed,
}

/// The report of a sandbox on the process it ran: how it ended and the memory it used, in bytes.
/// The times it used are fractional seconds and are kept by the caller.
pub struct SandboxExecutionResult {
    pub status: ExitStatus,
    pub memory_usage: u64,
}

/// The outcome of running a sandbox.
pub enum RawSandboxResult {
    /// The sandbox has been executed successfully.
    Success(SandboxExecutionResult),
    /// There was an error executing the sandbox.
    Error(String),
}

/// Something able to run a sandbox, wait for it to exit and return the results.
pub trait SandboxRunner {
    /// Run the sandbox and return its outcome.
    fn run(&self) -> RawSandboxResult;
}

/// A fake sandbox that doesn't actually spawn anything and always returns an error.
#[derive(Default, Debug)]
pub struct ErrorSandboxRunner;

impl SandboxRunner for ErrorSandboxRunner {
    fn run(&self) -> (res: RawSandboxResult)
        ensures
            res matches RawSandboxResult::Error(m) && m@ == "Nope"@,
    {
        RawSandboxResult::Error("Nope".to_owned())
    }
}

/// A fake sandbox that doesn't actually spawn anything and always returns successfully with exit
/// code 0, having used no resources.
#[derive(Default, Debug)]
pub struct SuccessSandboxRunner;

impl SandboxRunner for SuccessSandboxRunner {
    fn run(&self) -> (res: RawSandboxResult)
        ensures
            res == RawSandboxResult::Success(
                SandboxExecutionResult { status: ExitStatus::ExitCode(0), memory_usage: 0 },
            ),
    {
        RawSandboxResult::Success(
            SandboxExecutionResult { status: ExitStatus::ExitCode(0), memory_usage: 0 },
        )
    }
}

/// A fake sandbox that simply spawns the process and does not measure anything. No actual
/// sandboxing is performed, so the process may do bad things.
#[derive(Default, Debug)]
pub struct UnsafeSandboxRunner;

impl UnsafeSandboxRunner {
    /// The outcome it reports for a process that exited with `exit_code`.
    pub fn outcome(&self, exit_code: i32) -> (res: RawSandboxResult)
        ensures
            res == RawSandboxResult::Success(
                SandboxExecutionResult { status: ExitStatus::ExitCode(exit_code), memory_usage: 0 },
            ),
    {
        RawSandboxResult::Success(
            SandboxExecutionResult { status: ExitStatus::ExitCode(exit_code), memory_usage: 0 },
        )
    }
}

/// The result of a sandboxed execution.
pub enum SandboxResult {
    /// The sandbox exited successfully, the statistics about the sandboxed process are reported.
    Success {
        /// The exit status of the process.
        exit_status: u32,
        /// The signal that caused the process to exit, and its name.
        signal: Option<(u32, String)>,
        /// The memory used by the process, in KiB.
        memory: u64,
        /// Whether the sandbox killed the process.
        was_killed: bool,
    },
    /// The sandbox failed to execute the process, an error message is reported. Note that this
    /// represents a sandbox error, not the process failure.
    Failed {
        /// The error reported by the sandbox.
        error: String,
    },
}

/// The result of an execution from the report of its sandbox. A process ended by a signal has
/// exit status 0 and the signal, named `signal_name` (or `unknown` when the name is not known); one
/// killed by the sandbox has exit status 1 and signal 9. A sandbox error is an error.
pub fn sandbox_result(raw: RawSandboxResult, signal_name: Option<String>) -> (res: Result<SandboxResult, String>)
    ensures
        raw matches RawSandboxResult::Error(e) ==> (res matches Err(m) && m@ == "Sandbox failed: "@ + e@),
        raw matches RawSandboxResult::Success(r) ==> (res matches Ok(SandboxResult::Success {
            exit_status, signal, memory, was_killed }) && memory == r.memory_usage / 1024 && match r.status {
                ExitStatus::ExitCode(code) => exit_status == code as u32 && signal is None && !was_killed,
                ExitStatus::Signal(s) => exit_status == 0 && !was_killed && (signal matches Some((n, name))
                    && n == s as u32 && name@ == match signal_name {
                        Some(given) => given@,
                        None => "unknown"@,
                    }),
                ExitStatus::Killed => exit_status == 1 && was_killed && (signal matches Some((n, name))
                    && n == 9 && name@ == "Killed by sandbox"@),
            }),
{
    match raw {
        RawSandboxResult::Error(e) => {
            let mut m = "Sandbox failed: ".to_owned();
            push_str(&mut m, e.as_str());
            Err(m)
        },
        RawSandboxResult::Success(r) => {
            let memory = r.memory_usage / 1024;
            match r.status {
                ExitStatus::ExitCode(code) => Ok(SandboxResult::Success {
                    exit_status: code as u32,
                    signal: None,
                    memory,
                    was_killed: false,
                }),
                ExitStatus::Signal(s) => {
                    let name = match signal_name {
                        Some(given) => given,
                        None => "unknown".to_owned(),
                    };
                    Ok(SandboxResult::Success {
                        exit_status: 0,
                        signal: Some((s as u32, name)),
                        memory,
                        was_killed: false,
                    })
                },
                ExitStatus::Killed => Ok(SandboxResult::Success {
                    exit_status: 1,
                    signal: Some((9, "Killed by sandbox".to_owned())),
                    memory,
                    was_killed: true,
                }),
            }
        },
    }
}

} // verus!
