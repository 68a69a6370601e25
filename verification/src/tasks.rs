//! Tasks and the user action log: checking what the user entered, and the
//! records that are stored for it.
use vstd::prelude::*;

use crate::clock::{is_v4_uuid_text, new_id, now_ms};
use crate::text::{blank, is_blank, opt_chars, same_text, trim, trimmed};

verus! {

/// An error that the library reports, with its message.
#[derive(Debug, Clone)]
pub enum AppError {
    Message(String),
}

/// The message of an error.
pub open spec fn message(e: AppError) -> Seq<char> {
    match e {
        AppError::Message(m) => m@,
    }
}

/// A stored task: a command to run on this machine or over SSH.
#[derive(Debug, Clone)]
pub struct Task {
    pub id: String,
    pub name: String,
    pub command: String,
    pub cwd: Option<String>,
    pub target: String,
    pub ssh_host: Option<String>,
    pub env_json: String,
    pub auto_restart: bool,
    pub system_autostart: bool,
    pub created_at: i64,
    pub updated_at: i64,
}

/// A task as the user entered it.
#[derive(Debug, Clone)]
pub struct TaskInput {
    pub name: String,
    pub command: String,
    pub cwd: Option<String>,
    pub target: String,
    pub ssh_host: Option<String>,
    pub env_json: Option<String>,
    pub auto_restart: bool,
    pub system_autostart: bool,
}

/// An entry of the user action log.
#[derive(Debug, Clone)]
pub struct ActionLog {
    pub id: String,
    pub action: String,
    pub entity_id: Option<String>,
    pub summary: String,
    pub created_at: i64,
}

/// An action log entry as the user interface reports it.
#[derive(Debug, Clone)]
pub struct ActionLogInput {
    pub action: String,
    pub entity_id: Option<String>,
    pub summary: String,
}

/// An optional text trimmed, with a blank one taken as absent.
pub open spec fn cleaned(o: Option<Seq<char>>) -> Option<Seq<char>> {
    match o {
        Some(t) => if trim(t).len() == 0 {
            None
        } else {
            Some(trim(t))
        },
        None => None,
    }
}

/// `value` trimmed, or `None` where it is absent or blank.
pub fn clean_optional(value: Option<String>) -> (r: Option<String>)
    ensures
        opt_chars(r) == cleaned(opt_chars(value)),
{
    match value {
        Some(text) => {
            let t = trimmed(text.as_str());
            if t.as_str().is_empty() {
                None
            } else {
                Some(t)
            }
        },
        None => None,
    }
}

/// How a flag is stored in the database: 1 for true, 0 for false.
pub open spec fn stored_flag(value: bool) -> i64 {
    if value {
        1
    } else {
        0
    }
}

/// How a stored flag reads back: true exactly when it is 1.
pub open spec fn read_flag(value: i64) -> bool {
    value == 1
}

/// A flag as stored in the database.
pub fn bool_to_i64(value: bool) -> (r: i64)
    ensures
        r == stored_flag(value),
{
    if value {
        1
    } else {
        0
    }
}

/// A stored flag read back.
pub fn flag_from_i64(value: i64) -> (r: bool)
    ensures
        r == read_flag(value),
{
    value == 1
}

/// A flag stored with `bool_to_i64` reads back as itself with
/// `flag_from_i64`.
pub proof fn lemma_flag_roundtrip(b: bool)
    ensures
        read_flag(stored_flag(b)) == b,
{
}

/// Why a task as entered is refused, if it is: the first of these that
/// holds gives the message.
pub open spec fn task_problem(input: TaskInput) -> Option<Seq<char>> {
    if is_blank(input.name@) {
        Some("task name is required"@)
    } else if is_blank(input.command@) {
        Some("command is required"@)
    } else if input.target@ != "local"@ && input.target@ != "ssh"@ {
        Some("target must be local or ssh"@)
    } else if input.target@ == "ssh"@ && match input.ssh_host {
        Some(h) => is_blank(h@),
        None => true,
    } {
        Some("ssh host is required for remote tasks"@)
    } else {
        None
    }
}

fn error(text: &str) -> (e: AppError)
    ensures
        message(e) == text@,
{
    AppError::Message(String::from_str(text))
}

/// Checks a task as entered: a name and a command that are not blank, a
/// target `local` or `ssh`, and for `ssh` a host that is not blank.
pub fn validate_task(input: &TaskInput) -> (r: Result<(), AppError>)
    ensures
        match r {
            Ok(()) => task_problem(*input) is None,
            Err(e) => task_problem(*input) == Some(message(e)),
        },
{
    if blank(input.name.as_str()) {
        return Err(error("task name is required"));
    }
    if blank(input.command.as_str()) {
        return Err(error("command is required"));
    }
    let local = same_text(input.target.as_str(), "local");
    let ssh = same_text(input.target.as_str(), "ssh");
    if !local && !ssh {
        return Err(error("target must be local or ssh"));
    }
    if ssh {
        let host_blank = match &input.ssh_host {
            Some(h) => blank(h.as_str()),
            None => true,
        };
        if host_blank {
            return Err(error("ssh host is required for remote tasks"));
        }
    }
    Ok(())
}

/// The task stored for `input`, with identifier `id`, created at `now`.
pub open spec fn task_fields(t: Task, input: TaskInput, id: Seq<char>, now: i64) -> bool {
    &&& t.id@ == id
    &&& t.name@ == trim(input.name@)
    &&& t.command@ == trim(input.command@)
    &&& opt_chars(t.cwd) == cleaned(opt_chars(input.cwd))
    &&& t.target@ == input.target@
    &&& opt_chars(t.ssh_host) == cleaned(opt_chars(input.ssh_host))
    &&& t.env_json@ == match input.env_json {
        Some(e) => e@,
        None => "{}"@,
    }
    &&& t.auto_restart == input.auto_restart
    &&& t.system_autostart == input.system_autostart
    &&& t.created_at == now
    &&& t.updated_at == now
}

/// The task to store for a valid `input`: names trimmed, blank optional
/// fields dropped, `{}` for a missing environment.
pub fn task_from_input(input: TaskInput, id: String, now: i64) -> (t: Task)
    ensures
        task_fields(t, input, id@, now),
        t.auto_restart == input.auto_restart,
        t.system_autostart == input.system_autostart,
        t.id@ == id@,
        t.target@ == input.target@,
        t.created_at == now && t.updated_at == now,
{
    let env_json = match input.env_json {
        Some(e) => e,
        None => String::from_str("{}"),
    };
    Task {
        id,
        name: trimmed(input.name.as_str()),
        command: trimmed(input.command.as_str()),
        cwd: clean_optional(input.cwd),
        target: input.target,
        ssh_host: clean_optional(input.ssh_host),
        env_json,
        auto_restart: input.auto_restart,
        system_autostart: input.system_autostart,
        created_at: now,
        updated_at: now,
    }
}

/// A new task for `input`, with a fresh identifier and the current time,
/// or why `input` is refused.
pub fn new_task(input: TaskInput) -> (r: Result<Task, AppError>)
    ensures
        match r {
            Ok(t) => task_problem(input) is None && is_v4_uuid_text(t.id@) && exists|now: i64|
                task_fields(t, input, t.id@, now),
            Err(e) => task_problem(input) == Some(message(e)),
        },
        r matches Ok(t) ==> t.auto_restart == input.auto_restart && t.system_autostart
            == input.system_autostart && t.created_at == t.updated_at && t.target@ == input.target@,
{
    validate_task(&input)?;
    let now = now_ms();
    let id = new_id();
    let t = task_from_input(input, id, now);
    assert(task_fields(t, input, t.id@, now));
    Ok(t)
}

/// The flags of a stored task are those entered, each on its own: the
/// task is restarted exactly when the user asked for that, whether or not
/// it also starts with the system; and it is created and last updated at
/// the same moment.
pub proof fn lemma_stored_flags_as_entered(t: Task, input: TaskInput, id: Seq<char>, now: i64)
    requires
        task_fields(t, input, id, now),
    ensures
        t.auto_restart == input.auto_restart,
        t.system_autostart == input.system_autostart,
        t.created_at == t.updated_at,
{
}

/// A task stored for an accepted input has a name and a command that are
/// not empty, a target `local` or `ssh`, and a host when it runs over SSH.
pub proof fn lemma_accepted_task_complete(t: Task, input: TaskInput, id: Seq<char>, now: i64)
    requires
        task_problem(input) is None,
        task_fields(t, input, id, now),
    ensures
        t.name@.len() > 0,
        t.command@.len() > 0,
        t.target@ == "local"@ || t.target@ == "ssh"@,
        t.target@ == "ssh"@ ==> (t.ssh_host matches Some(h) && h@.len() > 0),
{
}

/// Whether saving `task` also registers it to start with the system: it
/// asks for that and runs on this machine.
pub fn needs_local_autostart(task: &Task) -> (r: bool)
    ensures
        r == (task.system_autostart && task.target@ == "local"@),
{
    task.system_autostart && same_text(task.target.as_str(), "local")
}

/// The log entry stored for `input`, with identifier `id`, made at `now`.
pub open spec fn log_fields(l: ActionLog, input: ActionLogInput, id: Seq<char>, now: i64) -> bool {
    &&& l.id@ == id
    &&& l.action@ == trim(input.action@)
    &&& opt_chars(l.entity_id) == cleaned(opt_chars(input.entity_id))
    &&& l.summary@ == trim(input.summary@)
    &&& l.created_at == now
}

/// The log entry to store for `input`: texts trimmed, a blank entity
/// dropped.
pub fn action_log_from_input(input: ActionLogInput, id: String, now: i64) -> (l: ActionLog)
    ensures
        log_fields(l, input, id@, now),
{
    ActionLog {
        id,
        action: trimmed(input.action.as_str()),
        entity_id: clean_optional(input.entity_id),
        summary: trimmed(input.summary.as_str()),
        created_at: now,
    }
}

/// A new log entry for `input`, with a fresh identifier and the current
/// time.
pub fn new_action_log(input: ActionLogInput) -> (l: ActionLog)
    ensures
        is_v4_uuid_text(l.id@),
        exists|now: i64| log_fields(l, input, l.id@, now),
{
    let id = new_id();
    let now = now_ms();
    let l = action_log_from_input(input, id, now);
    assert(log_fields(l, input, l.id@, now));
    l
}

/// How many log entries a listing returns: 200 unless asked, and always
/// from 1 to 1000.
pub fn log_limit(limit: Option<i64>) -> (r: i64)
    ensures
        r == (match limit {
            Some(n) => if n < 1 {
                1
            } else if n > 1000 {
                1000
            } else {
                n
            },
            None => 200,
        }),
{
    let n = match limit {
        Some(n) => n,
        None => 200,
    };
    if n < 1 {
        1
    } else if n > 1000 {
        1000
    } else {
        n
    }
}

} // verus!
