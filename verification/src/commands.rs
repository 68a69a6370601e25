//! The commands that the application starts: task processes, terminal
//! sessions and the system's own password prompt.
use vstd::prelude::*;

use crate::tasks::{message, AppError};
use crate::text::{blank, is_blank, opt_chars, owned, same_text};

verus! {

/// The operating system the application runs on.
#[derive(PartialEq, Eq, Structural, Clone, Copy)]
pub enum Platform {
    Windows,
    Macos,
    Linux,
    Other,
}

/// A program to start, its arguments and the directory to start it in.
#[derive(Debug, Clone)]
pub struct CommandSpec {
    pub program: String,
    pub args: Vec<String>,
    pub cwd: Option<String>,
}

/// The characters of each string.
pub open spec fn texts(v: Seq<String>) -> Seq<Seq<char>> {
    v.map_values(|s: String| s@)
}

/// A command with these parts.
pub open spec fn is_command(
    c: CommandSpec,
    program: Seq<char>,
    args: Seq<Seq<char>>,
    cwd: Option<Seq<char>>,
) -> bool {
    &&& c.program@ == program
    &&& texts(c.args@) == args
    &&& opt_chars(c.cwd) == cwd
}

/// An optional text, kept only where it is not blank (untrimmed).
pub open spec fn present(o: Option<String>) -> Option<Seq<char>> {
    match o {
        Some(s) => if is_blank(s@) {
            None
        } else {
            Some(s@)
        },
        None => None,
    }
}

fn clone_present(o: &Option<String>) -> (r: Option<String>)
    ensures
        opt_chars(r) == present(*o),
{
    match o {
        Some(s) => if blank(s.as_str()) {
            None
        } else {
            Some(s.clone())
        },
        None => None,
    }
}

fn args2(a: String, b: String) -> (v: Vec<String>)
    ensures
        texts(v@) == seq![a@, b@],
{
    let mut v = Vec::new();
    v.push(a);
    v.push(b);
    assert(texts(v@) =~= seq![a@, b@]);
    v
}

/// The shell command line that runs `command_text`: `cmd /C` on Windows,
/// `sh -lc` elsewhere.
pub open spec fn shell_parts(command_text: Seq<char>, platform: Platform) -> (Seq<char>, Seq<Seq<char>>) {
    if platform == Platform::Windows {
        ("cmd"@, seq!["/C"@, command_text])
    } else {
        ("sh"@, seq!["-lc"@, command_text])
    }
}

/// The command that runs `command_text` in the shell of `platform`.
pub fn shell_command(command_text: &str, platform: Platform) -> (c: CommandSpec)
    ensures
        is_command(c, shell_parts(command_text@, platform).0, shell_parts(command_text@, platform).1, None),
{
    if platform == Platform::Windows {
        CommandSpec { program: owned("cmd"), args: args2(owned("/C"), owned(command_text)), cwd: None }
    } else {
        CommandSpec { program: owned("sh"), args: args2(owned("-lc"), owned(command_text)), cwd: None }
    }
}

/// A request to start the process of a task.
#[derive(Debug, Clone)]
pub struct StartProcessInput {
    pub id: String,
    pub command: String,
    pub cwd: Option<String>,
    pub target: String,
    pub ssh_host: Option<String>,
}

/// The command that runs a task: for target `ssh`, `ssh <host> <command>`
/// (an error without a host that is not blank); else the command in the
/// shell, in its directory unless that is blank.
pub fn process_command(input: &StartProcessInput, platform: Platform) -> (r: Result<CommandSpec, AppError>)
    ensures
        input.target@ == "ssh"@ ==> match r {
            Ok(c) => present(input.ssh_host) matches Some(host) && is_command(
                c,
                "ssh"@,
                seq![host, input.command@],
                None,
            ),
            Err(e) => present(input.ssh_host) is None && message(e) == "ssh host is required"@,
        },
        input.target@ != "ssh"@ ==> (r matches Ok(c) && is_command(
            c,
            shell_parts(input.command@, platform).0,
            shell_parts(input.command@, platform).1,
            present(input.cwd),
        )),
{
    if same_text(input.target.as_str(), "ssh") {
        match clone_present(&input.ssh_host) {
            Some(host) => {
                let c = CommandSpec {
                    program: owned("ssh"),
                    args: args2(host, input.command.clone()),
                    cwd: None,
                };
                Ok(c)
            },
            None => Err(AppError::Message(owned("ssh host is required"))),
        }
    } else {
        let mut c = shell_command(input.command.as_str(), platform);
        c.cwd = clone_present(&input.cwd);
        Ok(c)
    }
}

/// A request to open a terminal session.
#[derive(Debug, Clone)]
pub struct PtyStartInput {
    pub shell: Option<String>,
    pub ssh_host: Option<String>,
    pub cwd: Option<String>,
    pub cols: Option<u16>,
    pub rows: Option<u16>,
}

/// Rows and columns of a terminal.
#[derive(Debug, Clone)]
pub struct PtyDimensions {
    pub rows: u16,
    pub cols: u16,
}

/// The size of a new terminal: as asked, else 28 rows of 100 columns.
pub fn pty_dimensions(input: &PtyStartInput) -> (d: PtyDimensions)
    ensures
        d.rows == (match input.rows {
            Some(r) => r,
            None => 28u16,
        }),
        d.cols == (match input.cols {
            Some(c) => c,
            None => 100u16,
        }),
{
    let rows = match input.rows {
        Some(r) => r,
        None => 28,
    };
    let cols = match input.cols {
        Some(c) => c,
        None => 100,
    };
    PtyDimensions { rows, cols }
}

/// The command of a terminal session: `ssh <host>` for a host that is not
/// blank, else the shell asked for or `default_shell`; in the directory
/// asked for unless that is blank.
pub fn pty_command(input: &PtyStartInput, default_shell: String) -> (c: CommandSpec)
    ensures
        opt_chars(c.cwd) == present(input.cwd),
        present(input.ssh_host) matches Some(host) ==> c.program@ == "ssh"@ && texts(c.args@)
            == seq![host],
        present(input.ssh_host) is None ==> c.program@ == (match input.shell {
            Some(s) => s@,
            None => default_shell@,
        }) && c.args@.len() == 0,
{
    let cwd = clone_present(&input.cwd);
    match clone_present(&input.ssh_host) {
        Some(host) => {
            let mut args = Vec::new();
            args.push(host);
            assert(texts(args@) =~= seq![args@[0]@]);
            CommandSpec { program: owned("ssh"), args, cwd }
        },
        None => {
            let program = match &input.shell {
                Some(s) => s.clone(),
                None => default_shell,
            };
            CommandSpec { program, args: Vec::new(), cwd }
        },
    }
}

/// The command that asks the user to confirm with the system password,
/// where `platform` has one.
pub fn system_auth_command(platform: Platform) -> (r: Option<CommandSpec>)
    ensures
        platform == Platform::Macos ==> (r matches Some(c) && is_command(
            c,
            "osascript"@,
            seq![
                "-e"@,
                "do shell script \"true\" with administrator privileges with prompt \"TeRmalM needs system verification to reveal the full command.\""@,
            ],
            None,
        )),
        platform == Platform::Windows ==> (r matches Some(c) && is_command(
            c,
            "powershell"@,
            seq!["-NoProfile"@, "-Command"@, "Start-Process cmd -ArgumentList '/c exit 0' -Verb RunAs -Wait"@],
            None,
        )),
        platform == Platform::Linux ==> (r matches Some(c) && is_command(c, "pkexec"@, seq!["true"@], None)),
        platform == Platform::Other ==> r is None,
{
    match platform {
        Platform::Macos => Some(
            CommandSpec {
                program: owned("osascript"),
                args: args2(
                    owned("-e"),
                    owned(
                        "do shell script \"true\" with administrator privileges with prompt \"TeRmalM needs system verification to reveal the full command.\"",
                    ),
                ),
                cwd: None,
            },
        ),
        Platform::Windows => {
            let mut args = Vec::new();
            args.push(owned("-NoProfile"));
            args.push(owned("-Command"));
            args.push(owned("Start-Process cmd -ArgumentList '/c exit 0' -Verb RunAs -Wait"));
            assert(texts(args@) =~= seq![
                "-NoProfile"@,
                "-Command"@,
                "Start-Process cmd -ArgumentList '/c exit 0' -Verb RunAs -Wait"@,
            ]);
            Some(CommandSpec { program: owned("powershell"), args, cwd: None })
        },
        Platform::Linux => {
            let mut args = Vec::new();
            args.push(owned("true"));
            assert(texts(args@) =~= seq!["true"@]);
            Some(CommandSpec { program: owned("pkexec"), args, cwd: None })
        },
        Platform::Other => None,
    }
}

/// The answer to the system password prompt: accepted when it succeeded.
pub fn auth_outcome(success: bool) -> (r: Result<(), AppError>)
    ensures
        success ==> r is Ok,
        !success ==> (r matches Err(e) && message(e) == "system verification was cancelled"@),
{
    if success {
        Ok(())
    } else {
        Err(AppError::Message(owned("system verification was cancelled")))
    }
}

} // verus!
