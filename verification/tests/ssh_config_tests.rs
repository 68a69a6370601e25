use termalm::ssh_config::{parse_ssh_config, set_current_field, HostField, SshHost};

fn host(alias: &str, hostname: Option<&str>, user: Option<&str>, port: Option<&str>) -> (String, Option<String>, Option<String>, Option<String>) {
    (
        alias.to_string(),
        hostname.map(|s| s.to_string()),
        user.map(|s| s.to_string()),
        port.map(|s| s.to_string()),
    )
}

fn plain(hosts: &[SshHost]) -> Vec<(String, Option<String>, Option<String>, Option<String>)> {
    hosts
        .iter()
        .map(|h| (h.alias.clone(), h.hostname.clone(), h.user.clone(), h.port.clone()))
        .collect()
}

#[test]
fn parses_hosts_with_settings() {
    let text = "Host web\n  HostName 10.0.0.5\n  User deploy\n  Port 2222\n\nHost db\n  HostName db.internal\n";
    let hosts = parse_ssh_config(text);
    assert_eq!(
        plain(&hosts),
        vec![
            host("db", Some("db.internal"), None, None),
            host("web", Some("10.0.0.5"), Some("deploy"), Some("2222")),
        ]
    );
}

#[test]
fn empty_text_has_no_hosts() {
    assert!(parse_ssh_config("").is_empty());
    assert!(parse_ssh_config("\n\n   \n# only a comment\n").is_empty());
}

#[test]
fn comments_are_dropped() {
    let text = "# global\nHost alpha # the first\n  User root#admin\n";
    let hosts = parse_ssh_config(text);
    assert_eq!(plain(&hosts), vec![host("alpha", None, Some("root"), None)]);
}

#[test]
fn keys_ignore_ascii_case() {
    let text = "HOST box\nhOsTnAmE example.org\nUSER me\nport 22\n";
    let hosts = parse_ssh_config(text);
    assert_eq!(plain(&hosts), vec![host("box", Some("example.org"), Some("me"), Some("22"))]);
}

#[test]
fn patterns_and_negation_are_skipped() {
    let text = "Host * !\n  User everyone\nHost a?c *.example.com real\n  Port 7\n";
    let hosts = parse_ssh_config(text);
    assert_eq!(plain(&hosts), vec![host("real", None, None, Some("7"))]);
}

#[test]
fn several_aliases_share_a_block() {
    let text = "Host one two\n  HostName shared\n";
    let hosts = parse_ssh_config(text);
    assert_eq!(
        plain(&hosts),
        vec![host("one", Some("shared"), None, None), host("two", Some("shared"), None, None)]
    );
}

#[test]
fn first_block_of_an_alias_wins() {
    let text = "Host dup\n  User first\nHost other\nHost dup\n  User second\n";
    let hosts = parse_ssh_config(text);
    assert_eq!(
        plain(&hosts),
        vec![host("dup", None, Some("first"), None), host("other", None, None, None)]
    );
}

#[test]
fn hosts_sort_by_bytes() {
    let text = "Host b\nHost B\nHost a\nHost é\nHost ab\n";
    let hosts = parse_ssh_config(text);
    let aliases: Vec<String> = hosts.iter().map(|h| h.alias.clone()).collect();
    assert_eq!(aliases, vec!["B", "a", "ab", "b", "é"]);
}

#[test]
fn settings_before_any_host_are_ignored() {
    let text = "User nobody\nPort 1\nHost late\n";
    let hosts = parse_ssh_config(text);
    assert_eq!(plain(&hosts), vec![host("late", None, None, None)]);
}

#[test]
fn setting_without_value_clears_it() {
    let text = "Host h\n  User first\n  User\n  Port 22 23\n";
    let hosts = parse_ssh_config(text);
    assert_eq!(plain(&hosts), vec![host("h", None, None, Some("22"))]);
}

#[test]
fn crlf_tabs_and_unicode_spaces() {
    let text = "Host\tx\r\n\u{3000}HostName\u{a0}x.example\r\nUnknownKey value\r\n";
    let hosts = parse_ssh_config(text);
    assert_eq!(plain(&hosts), vec![host("x", Some("x.example"), None, None)]);
}

#[test]
fn set_current_field_sets_every_host() {
    let mut hosts = vec![
        SshHost { alias: "a".to_string(), hostname: None, user: Some("u".to_string()), port: None },
        SshHost { alias: "b".to_string(), hostname: Some("h".to_string()), user: None, port: None },
    ];
    set_current_field(&mut hosts, HostField::Port, &Some("99".to_string()));
    assert_eq!(
        plain(&hosts),
        vec![host("a", None, Some("u"), Some("99")), host("b", Some("h"), None, Some("99"))]
    );
    set_current_field(&mut hosts, HostField::User, &None);
    assert_eq!(hosts[0].user, None);
    assert_eq!(hosts[1].user, None);
    set_current_field(&mut hosts, HostField::HostName, &Some("n".to_string()));
    assert_eq!(hosts[0].hostname.as_deref(), Some("n"));
}

#[test]
fn other_keywords_leave_hosts_unchanged() {
    let base = "Host a\n  User u\nHost b\n";
    let with_extra = "Host a\n  IdentityFile ~/.ssh/id_rsa\n  User u\nMatch all\nHost b\n# note\n";
    assert_eq!(plain(&parse_ssh_config(base)), plain(&parse_ssh_config(with_extra)));
}
