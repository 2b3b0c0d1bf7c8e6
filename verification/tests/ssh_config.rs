use ssher::ssh_config::{apply_directive, new_host_block, parse_ssh_config_str, resolve_host, HostBlock, NewSshHost, SshHost};

#[test]
fn merges_fields_across_matching_blocks() {
    let hosts = parse_ssh_config_str(
        "Host a b\n  User shared\n  IdentityFile ~/.ssh/id\n\nHost a\n  HostName 1.2.3.4\n",
    );
    assert_eq!(hosts.len(), 2);
    let a = hosts.iter().find(|h| h.alias == "a").unwrap();
    assert_eq!(a.host_name.as_deref(), Some("1.2.3.4"));
    assert_eq!(a.user.as_deref(), Some("shared"));
    let b = hosts.iter().find(|h| h.alias == "b").unwrap();
    assert_eq!(b.host_name, None);
    assert_eq!(b.user.as_deref(), Some("shared"));
}

#[test]
fn skips_wildcard_only_patterns() {
    let hosts = parse_ssh_config_str("Host *\n  ServerAliveInterval 30\n");
    assert!(hosts.is_empty());
}

#[test]
fn first_matching_block_wins_per_directive() {
    let hosts = parse_ssh_config_str(
        "Host *\n  User everyone\n  Port 2222\nHost web\n  User admin\n  HostName web.example.com\n",
    );
    assert_eq!(hosts.len(), 1);
    let web = &hosts[0];
    assert_eq!(web.alias, "web");
    // the wildcard block comes first, so its User wins
    assert_eq!(web.user.as_deref(), Some("everyone"));
    assert_eq!(web.port.as_deref(), Some("2222"));
    assert_eq!(web.host_name.as_deref(), Some("web.example.com"));
}

#[test]
fn keywords_are_case_insensitive_and_values_unquoted() {
    let hosts = parse_ssh_config_str(
        "HOST box\n\tHOSTNAME \"10.0.0.1\"\n  ProxyCommand ssh -W %h:%p jump\n  identityfile ~/.ssh/box\n",
    );
    assert_eq!(hosts.len(), 1);
    let h = &hosts[0];
    assert_eq!(h.host_name.as_deref(), Some("10.0.0.1"));
    assert_eq!(h.proxy_command.as_deref(), Some("ssh -W %h:%p jump"));
    assert_eq!(h.identity_file.as_deref(), Some("~/.ssh/box"));
    assert_eq!(h.user, None);
}

#[test]
fn comments_blank_lines_and_orphan_directives_are_ignored() {
    let hosts = parse_ssh_config_str(
        "# global\nUser nobody\n\n   \nHost one two one\n  # note\n  User me\r\nHost dev-?\n  Port 1\n",
    );
    let aliases: Vec<&str> = hosts.iter().map(|h| h.alias.as_str()).collect();
    assert_eq!(aliases, vec!["one", "two"]);
    assert_eq!(hosts[0].user.as_deref(), Some("me"));
    assert_eq!(hosts[1].user.as_deref(), Some("me"));
    assert_eq!(hosts[0].port, None);
}

#[test]
fn question_mark_pattern_supplies_defaults() {
    let hosts = parse_ssh_config_str("Host db1 db2\nHost db?\n  User dba\n");
    assert_eq!(hosts.len(), 2);
    assert_eq!(hosts[0].user.as_deref(), Some("dba"));
    assert_eq!(hosts[1].user.as_deref(), Some("dba"));
}

#[test]
fn first_occurrence_of_a_directive_within_a_block_wins() {
    let hosts = parse_ssh_config_str("Host x\n  Port 1\n  Port 2\n");
    assert_eq!(hosts[0].port.as_deref(), Some("1"));
}

#[test]
fn empty_config_has_no_hosts() {
    assert!(parse_ssh_config_str("").is_empty());
}

fn host(alias: &str) -> SshHost {
    SshHost { alias: alias.to_string(), ..Default::default() }
}

#[test]
fn resolve_host_finds_alias_or_reports_it_missing() {
    let hosts = vec![host("a"), host("b")];
    let found = resolve_host("b", hosts).unwrap();
    assert_eq!(found.alias, "b");
    let err = resolve_host("c", vec![host("a")]).unwrap_err();
    assert_eq!(err, "No entry for alias 'c' in ~/.ssh/config");
}

fn new_host(alias: &str, user: Option<&str>, port: Option<&str>, id: Option<&str>) -> NewSshHost {
    NewSshHost {
        alias: alias.to_string(),
        host_name: " 10.1.2.3 ".to_string(),
        user: user.map(String::from),
        port: port.map(String::from),
        identity_file: id.map(String::from),
    }
}

#[test]
fn new_host_block_writes_given_directives() {
    let b = new_host_block(&new_host(" srv ", Some(" root "), Some("  "), Some("~/.ssh/k")), &vec![]).unwrap();
    assert_eq!(b, "\nHost srv\n  HostName 10.1.2.3\n  User root\n  IdentityFile ~/.ssh/k\n");
    let b = new_host_block(&new_host("srv", None, Some("2200"), None), &vec![host("other")]).unwrap();
    assert_eq!(b, "\nHost srv\n  HostName 10.1.2.3\n  Port 2200\n");
}

#[test]
fn new_host_block_rejects_empty_and_duplicate_aliases() {
    assert_eq!(
        new_host_block(&new_host("   ", None, None, None), &vec![]).unwrap_err(),
        "Alias cannot be empty"
    );
    assert_eq!(
        new_host_block(&new_host(" srv", None, None, None), &vec![host("srv")]).unwrap_err(),
        "Host alias 'srv' already exists in ~/.ssh/config"
    );
}

#[test]
fn added_block_is_parsed_back() {
    let existing = "Host old\n  HostName 1.1.1.1\n";
    let block = new_host_block(&new_host("new", Some("me"), None, None), &parse_ssh_config_str(existing)).unwrap();
    let all = format!("{existing}{block}");
    let hosts = parse_ssh_config_str(&all);
    let h = hosts.iter().find(|h| h.alias == "new").unwrap();
    assert_eq!(h.host_name.as_deref(), Some("10.1.2.3"));
    assert_eq!(h.user.as_deref(), Some("me"));
}

#[test]
fn second_add_of_an_alias_is_refused() {
    let existing = "Host old\n  HostName 1.1.1.1";
    let block = new_host_block(&new_host(" new ", None, Some("22"), None), &parse_ssh_config_str(existing)).unwrap();
    let all = format!("{existing}{block}");
    let hosts = parse_ssh_config_str(&all);
    assert_eq!(hosts.len(), 2);
    assert_eq!(hosts[0].alias, "old");
    assert_eq!(hosts[0].host_name.as_deref(), Some("1.1.1.1"));
    assert_eq!(hosts[1].alias, "new");
    assert_eq!(hosts[1].port.as_deref(), Some("22"));
    assert!(hosts[1].user.is_none());
    assert!(hosts[1].proxy_command.is_none());
    assert_eq!(
        new_host_block(&new_host("new", None, None, None), &hosts).unwrap_err(),
        "Host alias 'new' already exists in ~/.ssh/config"
    );
}

#[test]
fn ignorable_lines_do_not_change_the_hosts() {
    let base = "Host a\n  HostName 1.2.3.4\n  User me\n";
    let padded = "# top\n\nHost a\n  ForwardAgent yes\n  HostName 1.2.3.4\n   \n  # note\n  User me\nCompression no\n";
    let x = parse_ssh_config_str(base);
    let y = parse_ssh_config_str(padded);
    assert_eq!(x.len(), 1);
    assert_eq!(y.len(), 1);
    assert_eq!(x[0].alias, y[0].alias);
    assert_eq!(x[0].host_name, y[0].host_name);
    assert_eq!(x[0].user, y[0].user);
    assert_eq!(y[0].port, None);
}

#[test]
fn directives_fill_the_last_block() {
    let mut blocks: Vec<HostBlock> = Vec::new();
    apply_directive(&mut blocks, "user".to_string(), "nobody".to_string());
    assert!(blocks.is_empty());
    apply_directive(&mut blocks, "host".to_string(), " a  b* ".to_string());
    assert_eq!(blocks.len(), 1);
    assert_eq!(blocks[0].patterns, vec!["a".to_string(), "b*".to_string()]);
    apply_directive(&mut blocks, "user".to_string(), "me".to_string());
    apply_directive(&mut blocks, "port".to_string(), "22".to_string());
    assert_eq!(blocks[0].fields, vec![("user".to_string(), "me".to_string()), ("port".to_string(), "22".to_string())]);
    apply_directive(&mut blocks, "host".to_string(), "c".to_string());
    assert_eq!(blocks.len(), 2);
    assert!(blocks[1].fields.is_empty());
    assert_eq!(blocks[0].fields.len(), 2);
}
