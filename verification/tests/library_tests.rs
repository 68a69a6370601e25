use termalm::autostart::{
    autostart_plan, launch_agent_label, launch_agent_plist, scheduled_task_command,
    scheduled_task_outcome, sh_single_quote_body, systemd_enable_outcome, systemd_unit, systemd_unit_name, xml_escape,
    AutostartPlan,
};
use termalm::clock::{new_id, now_ms, timestamp_ms};
use termalm::commands::{
    auth_outcome, process_command, pty_command, pty_dimensions, shell_command,
    system_auth_command, CommandSpec, Platform, PtyStartInput, StartProcessInput,
};
use termalm::output::{append_limited, drain_output, OUTPUT_KEEP, OUTPUT_LIMIT};
use termalm::registry::{
    archived_log, finish_session_read, start_step, status_step, CompletedLogs, Registered, Registry,
    StartStep, Supervisor,
};
use termalm::tasks::{
    action_log_from_input, bool_to_i64, clean_optional, flag_from_i64, log_limit,
    needs_local_autostart, new_action_log, new_task, task_from_input, validate_task,
    ActionLogInput, AppError, Task, TaskInput,
};
use termalm::text::{blank, same_text, string_from_chars, trimmed};

fn message(e: AppError) -> String {
    match e {
        AppError::Message(m) => m,
    }
}

fn input(name: &str, command: &str, target: &str, host: Option<&str>) -> TaskInput {
    TaskInput {
        name: name.to_string(),
        command: command.to_string(),
        cwd: None,
        target: target.to_string(),
        ssh_host: host.map(|h| h.to_string()),
        env_json: None,
        auto_restart: false,
        system_autostart: false,
    }
}

fn parts(c: &CommandSpec) -> (String, Vec<String>, Option<String>) {
    (c.program.clone(), c.args.clone(), c.cwd.clone())
}

fn strings(v: &[&str]) -> Vec<String> {
    v.iter().map(|s| s.to_string()).collect()
}

fn sample_task(command: &str, auto_restart: bool) -> Task {
    Task {
        id: "abc".to_string(),
        name: "Backup".to_string(),
        command: command.to_string(),
        cwd: None,
        target: "local".to_string(),
        ssh_host: None,
        env_json: "{}".to_string(),
        auto_restart,
        system_autostart: true,
        created_at: 5,
        updated_at: 5,
    }
}

#[test]
fn trimming_and_blank_text() {
    assert_eq!(trimmed("  a b \t\n"), "a b");
    assert_eq!(trimmed("\u{3000}x\u{2003}"), "x");
    assert!(blank(" \t\r\n\u{a0}"));
    assert!(!blank(" . "));
    assert!(same_text("ssh", "ssh"));
    assert!(!same_text("ssh", "sshd"));
    assert_eq!(string_from_chars(&vec!['h', 'é', '!']), "hé!");
}

#[test]
fn clean_optional_trims_and_drops_blank() {
    assert_eq!(clean_optional(Some("  /tmp  ".to_string())), Some("/tmp".to_string()));
    assert_eq!(clean_optional(Some("   ".to_string())), None);
    assert_eq!(clean_optional(None), None);
}

#[test]
fn flags_round_trip() {
    assert_eq!(bool_to_i64(true), 1);
    assert_eq!(bool_to_i64(false), 0);
    assert!(flag_from_i64(bool_to_i64(true)));
    assert!(!flag_from_i64(bool_to_i64(false)));
    assert!(!flag_from_i64(2));
}

#[test]
fn log_limit_defaults_and_clamps() {
    assert_eq!(log_limit(None), 200);
    assert_eq!(log_limit(Some(0)), 1);
    assert_eq!(log_limit(Some(-7)), 1);
    assert_eq!(log_limit(Some(50)), 50);
    assert_eq!(log_limit(Some(5000)), 1000);
}

#[test]
fn validate_task_messages() {
    assert!(validate_task(&input("n", "c", "local", None)).is_ok());
    assert!(validate_task(&input("n", "c", "ssh", Some("box"))).is_ok());
    assert_eq!(message(validate_task(&input("  ", "c", "local", None)).unwrap_err()), "task name is required");
    assert_eq!(message(validate_task(&input("n", " ", "local", None)).unwrap_err()), "command is required");
    assert_eq!(message(validate_task(&input("n", "c", "remote", None)).unwrap_err()), "target must be local or ssh");
    assert_eq!(
        message(validate_task(&input("n", "c", "ssh", Some("  "))).unwrap_err()),
        "ssh host is required for remote tasks"
    );
    assert_eq!(
        message(validate_task(&input("n", "c", "ssh", None)).unwrap_err()),
        "ssh host is required for remote tasks"
    );
}

#[test]
fn task_from_input_cleans_fields() {
    let mut i = input("  Build ", " make all ", "ssh", Some("  host1 "));
    i.cwd = Some("   ".to_string());
    i.auto_restart = true;
    let t = task_from_input(i, "id-1".to_string(), 42);
    assert_eq!(t.id, "id-1");
    assert_eq!(t.name, "Build");
    assert_eq!(t.command, "make all");
    assert_eq!(t.cwd, None);
    assert_eq!(t.target, "ssh");
    assert_eq!(t.ssh_host.as_deref(), Some("host1"));
    assert_eq!(t.env_json, "{}");
    assert!(t.auto_restart);
    assert!(!t.system_autostart);
    assert_eq!((t.created_at, t.updated_at), (42, 42));
    let mut j = input("a", "b", "local", None);
    j.env_json = Some("{\"K\":\"V\"}".to_string());
    assert_eq!(task_from_input(j, "x".to_string(), 1).env_json, "{\"K\":\"V\"}");
}

fn is_v4(id: &str) -> bool {
    let b: Vec<char> = id.chars().collect();
    b.len() == 36
        && [8, 13, 18, 23].iter().all(|&i| b[i] == '-')
        && b[14] == '4'
        && "89ab".contains(b[19])
        && b.iter().enumerate().all(|(i, c)| [8, 13, 18, 23].contains(&i) || c.is_ascii_hexdigit() && !c.is_ascii_uppercase())
}

#[test]
fn new_task_gets_fresh_id_and_time() {
    let before = now_ms();
    let a = new_task(input("n", "c", "local", None)).ok().unwrap();
    let b = new_task(input("n", "c", "local", None)).ok().unwrap();
    assert!(is_v4(&a.id));
    assert_ne!(a.id, b.id);
    assert!(a.created_at >= before && a.created_at == a.updated_at);
    assert_eq!(message(new_task(input("", "c", "local", None)).err().unwrap()), "task name is required");
}

#[test]
fn needs_local_autostart_only_for_local() {
    let mut t = sample_task("x", false);
    assert!(needs_local_autostart(&t));
    t.target = "ssh".to_string();
    assert!(!needs_local_autostart(&t));
    t.target = "local".to_string();
    t.system_autostart = false;
    assert!(!needs_local_autostart(&t));
}

#[test]
fn action_logs_are_trimmed() {
    let l = action_log_from_input(
        ActionLogInput { action: " start ".to_string(), entity_id: Some(" ".to_string()), summary: " ran it ".to_string() },
        "i".to_string(),
        9,
    );
    assert_eq!((l.id.as_str(), l.action.as_str(), l.entity_id.clone(), l.summary.as_str(), l.created_at), ("i", "start", None, "ran it", 9));
    let n = new_action_log(ActionLogInput { action: "a".to_string(), entity_id: Some(" t1 ".to_string()), summary: "s".to_string() });
    assert!(is_v4(&n.id));
    assert_eq!(n.entity_id.as_deref(), Some("t1"));
}

#[test]
fn ids_are_fresh_random_uuids() {
    let a = new_id();
    let b = new_id();
    assert!(is_v4(&a) && is_v4(&b));
    assert_ne!(a, b);
}

#[test]
fn clock_reads_after_2020() {
    assert!(now_ms() > 1_577_836_800_000);
    assert_eq!(timestamp_ms(None), 0);
    assert_eq!(timestamp_ms(Some(1234)), 1234);
}

#[test]
fn output_below_limit_is_kept() {
    let mut out = "abc".to_string();
    append_limited(&mut out, "déf");
    assert_eq!(out, "abcdéf");
}

#[test]
fn output_over_limit_keeps_newest_bytes() {
    let mut out = "x".repeat(OUTPUT_LIMIT);
    append_limited(&mut out, "yz");
    assert_eq!(out.len(), OUTPUT_KEEP);
    assert!(out.ends_with("yz"));
    assert_eq!(&out[..OUTPUT_KEEP - 2], "x".repeat(OUTPUT_KEEP - 2));
    let mut exact = "a".repeat(OUTPUT_LIMIT - 1);
    append_limited(&mut exact, "b");
    assert_eq!(exact.len(), OUTPUT_LIMIT);
}

#[test]
fn draining_output_empties_it() {
    let mut out = "line\n".to_string();
    assert_eq!(drain_output(&mut out), "line\n");
    assert_eq!(out, "");
}

#[test]
fn completed_logs_read_back() {
    let mut logs: CompletedLogs = Registry::new();
    assert_eq!(archived_log(&logs, "p"), "");
    logs.insert("p", "one".to_string());
    logs.insert("q", "two".to_string());
    assert_eq!(archived_log(&logs, "p"), "one");
    logs.insert("p", "three".to_string());
    assert_eq!(archived_log(&logs, "p"), "three");
    assert!(logs.contains("p"));
    assert_eq!(logs.remove("p"), Some("three".to_string()));
    assert!(!logs.contains("p"));
    assert_eq!(logs.remove("p"), None);
    assert_eq!(archived_log(&logs, "p"), "");
    assert_eq!(archived_log(&logs, "q"), "two");
}

#[test]
fn registry_holds_any_value() {
    let mut r: Registry<u32> = Registry::new();
    r.insert("a", 1);
    r.insert("b", 2);
    r.insert("a", 3);
    assert_eq!(r.get("a"), Some(&3));
    assert_eq!(r.get("b"), Some(&2));
    assert_eq!(r.get("c"), None);
    assert_eq!(r.remove("b"), Some(2));
    assert_eq!(r.get("b"), None);
}

#[test]
fn registry_steps() {
    assert!(start_step(Registered::Running) == StartStep::ReportRunning);
    assert!(start_step(Registered::Exited) == StartStep::Launch { replaces_exited: true });
    assert!(start_step(Registered::Absent) == StartStep::Launch { replaces_exited: false });
    let s = status_step(Registered::Exited);
    assert!(!s.running && s.archive);
    let s = status_step(Registered::Running);
    assert!(s.running && !s.archive);
    let s = status_step(Registered::Absent);
    assert!(!s.running && !s.archive);
}

#[test]
fn shell_commands_per_platform() {
    assert_eq!(parts(&shell_command("ls -l", Platform::Linux)), ("sh".to_string(), strings(&["-lc", "ls -l"]), None));
    assert_eq!(parts(&shell_command("dir", Platform::Windows)), ("cmd".to_string(), strings(&["/C", "dir"]), None));
}

#[test]
fn process_commands() {
    let mut i = StartProcessInput {
        id: "t".to_string(),
        command: " echo hi ".to_string(),
        cwd: Some(" /srv ".to_string()),
        target: "ssh".to_string(),
        ssh_host: Some(" box ".to_string()),
    };
    let c = process_command(&i, Platform::Linux).ok().unwrap();
    assert_eq!(parts(&c), ("ssh".to_string(), strings(&[" box ", " echo hi "]), None));
    i.ssh_host = Some(" ".to_string());
    assert_eq!(message(process_command(&i, Platform::Linux).err().unwrap()), "ssh host is required");
    i.target = "local".to_string();
    let c = process_command(&i, Platform::Macos).ok().unwrap();
    assert_eq!(parts(&c), ("sh".to_string(), strings(&["-lc", " echo hi "]), Some(" /srv ".to_string())));
    i.cwd = Some("".to_string());
    assert_eq!(process_command(&i, Platform::Windows).ok().unwrap().cwd, None);
}

#[test]
fn pty_sessions() {
    let mut i = PtyStartInput { shell: None, ssh_host: Some("h".to_string()), cwd: Some("  ".to_string()), cols: None, rows: Some(40) };
    let d = pty_dimensions(&i);
    assert_eq!((d.rows, d.cols), (40, 100));
    assert_eq!(parts(&pty_command(&i, "/bin/zsh".to_string())), ("ssh".to_string(), strings(&["h"]), None));
    i.ssh_host = Some(" ".to_string());
    i.cwd = Some("/tmp".to_string());
    assert_eq!(parts(&pty_command(&i, "/bin/zsh".to_string())), ("/bin/zsh".to_string(), vec![], Some("/tmp".to_string())));
    i.shell = Some("bash".to_string());
    i.rows = None;
    i.cols = Some(80);
    assert_eq!(pty_command(&i, "/bin/zsh".to_string()).program, "bash");
    let d = pty_dimensions(&i);
    assert_eq!((d.rows, d.cols), (28, 80));
}

#[test]
fn system_auth() {
    assert_eq!(parts(&system_auth_command(Platform::Linux).unwrap()), ("pkexec".to_string(), strings(&["true"]), None));
    let mac = system_auth_command(Platform::Macos).unwrap();
    assert_eq!(mac.program, "osascript");
    assert_eq!(mac.args[1], "do shell script \"true\" with administrator privileges with prompt \"TeRmalM needs system verification to reveal the full command.\"");
    assert_eq!(system_auth_command(Platform::Windows).unwrap().args.len(), 3);
    assert!(system_auth_command(Platform::Other).is_none());
    assert!(auth_outcome(true).is_ok());
    assert_eq!(message(auth_outcome(false).unwrap_err()), "system verification was cancelled");
}

#[test]
fn xml_and_shell_escaping() {
    assert_eq!(xml_escape("a<b>&\"c\"'d'"), "a&lt;b&gt;&amp;&quot;c&quot;&apos;d&apos;");
    assert_eq!(xml_escape("plain é"), "plain é");
    assert_eq!(sh_single_quote_body("it's"), "it'\\''s");
}

#[test]
fn launch_agent_files() {
    let t = sample_task("echo <hi>", true);
    assert_eq!(launch_agent_label("abc"), "com.termalm.task.abc");
    let expected = "<?xml version=\"1.0\" encoding=\"UTF-8\"?>\n<!DOCTYPE plist PUBLIC \"-//Apple//DTD PLIST 1.0//EN\" \"http://www.apple.com/DTDs/PropertyList-1.0.dtd\">\n<plist version=\"1.0\">\n<dict>\n  <key>Label</key><string>com.termalm.task.abc</string>\n  <key>ProgramArguments</key>\n  <array><string>/bin/sh</string><string>-lc</string><string>echo &lt;hi&gt;</string></array>\n  <key>RunAtLoad</key><true/>\n  <key>KeepAlive</key><true/>\n</dict>\n</plist>\n";
    assert_eq!(launch_agent_plist(&t), expected);
    assert!(launch_agent_plist(&sample_task("x", false)).contains("<key>KeepAlive</key><false/>"));
    match autostart_plan(&t, Platform::Macos) {
        AutostartPlan::WriteFile { dir, file_name, contents, then_run } => {
            assert!(then_run.is_none());
            assert_eq!(dir, strings(&["Library", "LaunchAgents"]));
            assert_eq!(file_name, "com.termalm.task.abc.plist");
            assert_eq!(contents, expected);
        }
        _ => panic!("expected a file"),
    }
}

#[test]
fn systemd_units() {
    let t = sample_task("echo 'hi'", false);
    assert_eq!(systemd_unit_name("abc"), "termalm-abc.service");
    assert_eq!(
        systemd_unit(&t),
        "[Unit]\nDescription=TeRmalM task Backup\n\n[Service]\nType=simple\nExecStart=/bin/sh -lc 'echo '\\''hi'\\'''\nRestart=no\n\n[Install]\nWantedBy=default.target\n"
    );
    assert!(systemd_unit(&sample_task("x", true)).contains("Restart=always\n"));
    match autostart_plan(&t, Platform::Linux) {
        AutostartPlan::WriteFile { dir, file_name, then_run, .. } => {
            assert_eq!(dir, strings(&[".config", "systemd", "user"]));
            assert_eq!(file_name, "termalm-abc.service");
            let enable = then_run.expect("the unit is enabled");
            assert_eq!(parts(&enable), ("systemctl".to_string(), strings(&["--user", "enable", "termalm-abc.service"]), None));
        }
        _ => panic!("expected a file"),
    }
    assert!(matches!(autostart_plan(&t, Platform::Other), AutostartPlan::Nothing));
    assert!(systemd_enable_outcome(true).is_ok());
    assert_eq!(message(systemd_enable_outcome(false).unwrap_err()), "failed to enable systemd user service");
}

#[test]
fn windows_scheduled_tasks() {
    let t = sample_task("run.bat", false);
    let c = scheduled_task_command(&t);
    assert_eq!(
        parts(&c),
        ("schtasks".to_string(), strings(&["/Create", "/SC", "ONLOGON", "/TN", "TeRmalM-abc", "/TR", "cmd /C run.bat", "/F"]), None)
    );
    assert!(matches!(autostart_plan(&t, Platform::Windows), AutostartPlan::Run(_)));
    assert!(scheduled_task_outcome(true).is_ok());
    assert_eq!(message(scheduled_task_outcome(false).unwrap_err()), "failed to create Windows scheduled task");
}

#[test]
fn supervisor_keeps_logs_of_finished_processes() {
    let mut sup: Supervisor<u32> = Supervisor::new();
    assert!(sup.start("t", false) == StartStep::Launch { replaces_exited: false });
    sup.launched("t", 7);
    assert_eq!(sup.process("t"), Some(&7));
    assert!(sup.start("t", false) == StartStep::ReportRunning);
    assert!(sup.check("t", false, String::new()));
    assert_eq!(sup.log("t", Some("partial".to_string())), "partial");
    assert!(!sup.check("t", true, "all output".to_string()));
    assert_eq!(sup.process("t"), None);
    assert_eq!(sup.log("t", None), "all output");
    assert!(!sup.check("t", true, "ignored".to_string()));
    assert_eq!(sup.log("t", None), "all output");
    assert!(sup.start("t", false) == StartStep::Launch { replaces_exited: false });
    assert_eq!(sup.log("t", None), "");
    sup.launched("t", 8);
    assert!(sup.start("t", true) == StartStep::Launch { replaces_exited: true });
    assert_eq!(sup.process("t"), None);
    sup.launched("t", 9);
    assert_eq!(sup.stop("t"), Some(9));
    sup.archive("t", "stopped".to_string());
    assert_eq!(sup.log("t", None), "stopped");
    assert_eq!(sup.stop("t"), None);
    assert_eq!(sup.log("other", None), "");
}

#[test]
fn finished_sessions_are_dropped_after_read() {
    let mut sessions: Registry<u8> = Registry::new();
    sessions.insert("s", 1);
    finish_session_read(&mut sessions, "s", true);
    assert!(sessions.contains("s"));
    finish_session_read(&mut sessions, "s", false);
    assert!(!sessions.contains("s"));
}

#[test]
fn newest_chunk_survives_the_cut() {
    let mut out = "é".repeat(OUTPUT_LIMIT / 2);
    let chunk = "z".repeat(OUTPUT_KEEP - 10) + "é";
    append_limited(&mut out, &chunk);
    assert_eq!(out.len(), OUTPUT_KEEP);
    assert!(out.ends_with(&chunk));
}

#[test]
fn xml_escape_reads_back() {
    let input = "a & b <c> \"d\" 'e' &amp;";
    let escaped = xml_escape(input);
    assert!(!escaped.contains('<') && !escaped.contains('>') && !escaped.contains('"') && !escaped.contains('\''));
    let back = escaped
        .replace("&lt;", "<")
        .replace("&gt;", ">")
        .replace("&quot;", "\"")
        .replace("&apos;", "'")
        .replace("&amp;", "&");
    assert_eq!(back, input);
}
