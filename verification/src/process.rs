//! Starting and stopping service processes: what to run and how to read the
//! outcome. The running itself is the caller's part.

use vstd::prelude::*;
use vstd::string::StringExecFns;

verus! {

/// A failure of input or output.
#[derive(Clone, Debug, PartialEq, Eq)]
pub struct IoFailure {
    /// Whether a connection was refused.
    pub connection_refused: bool,
    /// The text that says what failed.
    pub message: String,
}

/// What can go wrong with a service process.
#[derive(Clone, Debug)]
pub enum Error {
    /// The operating system refused.
    Io(IoFailure),
    /// The shell that was to start the process ended with a failure.
    CloudNotDaemonize,
    /// Sending the signal failed with this error number.
    Nix(i32),
    /// Starting processes in the background is not supported on this system.
    DaemonizingNotSupported,
    /// Starting processes in the background is not supported on Windows.
    DaemonizingNotSupportedOnWindows,
}

/// The operating systems that are told apart.
#[derive(Clone, Copy, PartialEq, Eq, Structural, Debug)]
pub enum Platform {
    Linux,
    MacOs,
    Windows,
    Other,
}

/// A command to run: a program and its arguments.
#[derive(Clone, Debug)]
pub struct ShellCommand {
    pub program: String,
    pub args: Vec<String>,
}

/// The signals that are sent.
#[derive(Clone, Copy, PartialEq, Eq, Structural, Debug)]
pub enum Signal {
    Interrupt,
}

/// A signal to send to a process.
#[derive(Clone, Copy, PartialEq, Eq, Structural, Debug)]
pub struct KillRequest {
    pub pid: i32,
    pub signal: Signal,
}

/// The shell line that starts `bin_path` in the background, immune to
/// hangups, with everything it prints going to `log_path`.
pub open spec fn nohup_line(bin_path: Seq<char>, log_path: Seq<char>) -> Seq<char> {
    "nohup "@ + bin_path + " > "@ + log_path + " 2>&1 &"@
}

/// The process identifier as the operating system takes it: the same bits
/// read as a signed number.
pub open spec fn raw_pid(pid: u32) -> i32 {
    if pid <= i32::MAX {
        pid as i32
    } else {
        (pid - 0x1_0000_0000) as i32
    }
}

/// The command that starts the program at `bin_path` as a background
/// process that logs to `log_path`.
pub fn daemonize(bin_path: &str, log_path: &str) -> (r: Result<ShellCommand, Error>)
    ensures
        r matches Ok(c) && c.program@ == "bash"@ && c.args@.len() == 2 && c.args@[0]@ == "-c"@
            && c.args@[1]@ == nohup_line(bin_path@, log_path@),
{
    daemonize_process(Platform::Linux, bin_path, log_path)
}

/// The command that starts the program at `bin_path` as a background
/// process on `platform`. Only Linux and macOS can do it.
pub fn daemonize_process(platform: Platform, bin_path: &str, log_path: &str) -> (r: Result<
    ShellCommand,
    Error,
>)
    ensures
        match platform {
            Platform::Linux | Platform::MacOs => r matches Ok(c) && c.program@ == "bash"@
                && c.args@.len() == 2 && c.args@[0]@ == "-c"@ && c.args@[1]@ == nohup_line(
                bin_path@,
                log_path@,
            ),
            Platform::Windows => r matches Err(Error::DaemonizingNotSupportedOnWindows),
            Platform::Other => r matches Err(Error::DaemonizingNotSupported),
        },
{
    match platform {
        Platform::Windows => Err(Error::DaemonizingNotSupportedOnWindows),
        Platform::Other => Err(Error::DaemonizingNotSupported),
        _ => {
            let mut line = String::from_str("nohup ");
            line.append(bin_path);
            line.append(" > ");
            line.append(log_path);
            line.append(" 2>&1 &");
            let mut args: Vec<String> = Vec::new();
            args.push(String::from_str("-c"));
            args.push(line);
            Ok(ShellCommand { program: String::from_str("bash"), args })
        },
    }
}

/// Reads the outcome of the command that [`daemonize`] gave: `spawned`
/// says whether the shell ended with success, or how running it failed.
pub fn daemonize_result(spawned: Result<bool, IoFailure>) -> (r: Result<(), Error>)
    ensures
        spawned matches Ok(true) ==> r is Ok,
        spawned matches Ok(false) ==> r matches Err(Error::CloudNotDaemonize),
        spawned matches Err(e) ==> r matches Err(Error::Io(m)) && m == e,
{
    match spawned {
        Ok(true) => Ok(()),
        Ok(false) => Err(Error::CloudNotDaemonize),
        Err(e) => Err(Error::Io(e)),
    }
}

/// The signal that stops the process `pid`: an interrupt.
pub fn stop(pid: u32) -> (r: Result<KillRequest, Error>)
    ensures
        r == Ok::<KillRequest, Error>(KillRequest { pid: raw_pid(pid), signal: Signal::Interrupt }),
{
    stop_process(Platform::Linux, pid)
}

/// The signal that stops the process `pid` on `platform`. Only Linux and
/// macOS can do it.
pub fn stop_process(platform: Platform, pid: u32) -> (r: Result<KillRequest, Error>)
    ensures
        match platform {
            Platform::Linux | Platform::MacOs => r == Ok::<KillRequest, Error>(
                KillRequest { pid: raw_pid(pid), signal: Signal::Interrupt },
            ),
            Platform::Windows => r matches Err(Error::DaemonizingNotSupportedOnWindows),
            Platform::Other => r matches Err(Error::DaemonizingNotSupported),
        },
{
    match platform {
        Platform::Windows => Err(Error::DaemonizingNotSupportedOnWindows),
        Platform::Other => Err(Error::DaemonizingNotSupported),
        _ => {
            let raw: i32 = if pid <= 0x7fff_ffff {
                pid as i32
            } else {
                ((pid as i64) - 0x1_0000_0000) as i32
            };
            Ok(KillRequest { pid: raw, signal: Signal::Interrupt })
        },
    }
}

/// Reads the outcome of sending the signal: `errno` is the error number,
/// if sending failed.
pub fn stop_result(errno: Option<i32>) -> (r: Result<(), Error>)
    ensures
        errno is None ==> r is Ok,
        errno matches Some(e) ==> r matches Err(Error::Nix(n)) && n == e,
{
    match errno {
        None => Ok(()),
        Some(e) => Err(Error::Nix(e)),
    }
}

} // verus!
