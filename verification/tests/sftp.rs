use ssher::sftp::{
    agent_status, auth_result, connect_params, identity_key_path, list_dir_entries, parse_u16, AgentStatus,
    RemoteStat,
};
use ssher::ssh_config::SshHost;

fn stat(path: &str, is_dir: bool) -> RemoteStat {
    RemoteStat { path: path.to_string(), is_dir, size: Some(10), mtime: None }
}

#[test]
fn listing_puts_directories_first_then_sorts_by_name() {
    let stats = vec![
        stat("/srv/b.txt", false),
        stat("/srv/zdir", true),
        stat("/srv/a.txt", false),
        stat("/srv/adir/", true),
        stat("/", true),
        stat("/srv/..", true),
    ];
    let out = list_dir_entries(&stats);
    let names: Vec<&str> = out.iter().map(|e| e.name.as_str()).collect();
    assert_eq!(names, vec!["adir", "zdir", "a.txt", "b.txt"]);
    assert_eq!(out[0].path, "/srv/adir/");
    assert_eq!(out[2].size, 10);
    assert_eq!(out[2].modified, 0);
}

#[test]
fn agent_status_from_probe() {
    assert_eq!(agent_status(true, true, true, Some(3)), AgentStatus { agent_running: true, identity_count: 3 });
    assert_eq!(agent_status(true, true, true, None), AgentStatus { agent_running: true, identity_count: 0 });
    assert_eq!(agent_status(true, true, false, Some(3)), AgentStatus { agent_running: false, identity_count: 0 });
    assert_eq!(agent_status(false, true, true, Some(3)), AgentStatus { agent_running: false, identity_count: 0 });
}

#[test]
fn ports_parse_like_u16_from_str() {
    assert_eq!(parse_u16("22"), Some(22));
    assert_eq!(parse_u16("+2222"), Some(2222));
    assert_eq!(parse_u16("0065535"), Some(65535));
    assert_eq!(parse_u16("65536"), None);
    assert_eq!(parse_u16("99999999999"), None);
    assert_eq!(parse_u16(""), None);
    assert_eq!(parse_u16("+"), None);
    assert_eq!(parse_u16("-1"), None);
    assert_eq!(parse_u16("2 2"), None);
    for s in ["0", "1", "+7", "443", "65535", "65536", "x", "١٢"] {
        assert_eq!(parse_u16(s), s.parse::<u16>().ok());
    }
}

#[test]
fn connection_parameters_fall_back_to_alias_port_22_and_env_user() {
    let host = SshHost { alias: "a".into(), port: Some("bad".into()), ..Default::default() };
    let p = connect_params(&host, "a", Some("me".into())).unwrap();
    assert_eq!((p.hostname.as_str(), p.port, p.user.as_str()), ("a", 22, "me"));
    let host = SshHost {
        alias: "a".into(),
        host_name: Some("h".into()),
        port: Some("2200".into()),
        user: Some("u".into()),
        ..Default::default()
    };
    let p = connect_params(&host, "a", None).unwrap();
    assert_eq!((p.hostname.as_str(), p.port, p.user.as_str()), ("h", 2200, "u"));
    let host = SshHost { alias: "a".into(), ..Default::default() };
    assert_eq!(connect_params(&host, "a", None).unwrap_err(), "Could not determine SSH user");
}

#[test]
fn key_path_expands_tilde_only_at_the_start() {
    let home = Some("/home/me".to_string());
    assert_eq!(identity_key_path(&Some("/keys/id".into()), home.clone()), "/keys/id");
    assert_eq!(identity_key_path(&Some("~other/id".into()), home.clone()), "~other/id");
    assert_eq!(identity_key_path(&Some("~".into()), home.clone()), "/home/me");
    assert_eq!(identity_key_path(&None, home), "/home/me/.ssh/id_ed25519");
    assert_eq!(identity_key_path(&None, None), "~/.ssh/id_ed25519");
}

#[test]
fn authentication_outcome() {
    assert_eq!(auth_result(true), Ok(()));
    assert!(auth_result(false).unwrap_err().starts_with("PERMISSION_DENIED"));
}
