use xtermius::host_probe::{askpass_password, askpass_script, probe_args, probe_result};
use xtermius::Host;

fn host() -> Host {
    Host {
        id: "h1".to_string(),
        sort_order: None,
        name: String::new(),
        alias: String::new(),
        hostname: "example.com".to_string(),
        user: "root".to_string(),
        port: 2222,
        password: None,
        has_password: false,
        identity_file: Some(" ~/.ssh/id ".to_string()),
        proxy_jump: Some("  ".to_string()),
        env_vars: None,
        encoding: None,
        tags: Vec::new(),
        notes: String::new(),
        updated_at: String::new(),
        deleted: false,
    }
}

#[test]
fn probe_arguments_in_batch_mode() {
    let args = probe_args(&host(), false, "uname").unwrap();
    let expected: Vec<&str> = vec![
        "-o", "ConnectTimeout=8", "-o", "ConnectionAttempts=1", "-o",
        "StrictHostKeyChecking=accept-new", "-o", "ServerAliveInterval=10", "-o",
        "ServerAliveCountMax=1", "-p", "2222", "-i", "~/.ssh/id", "-o", "BatchMode=yes",
        "root@example.com", "sh", "-lc", "uname",
    ];
    assert_eq!(args, expected);
}

#[test]
fn probe_arguments_with_askpass() {
    let mut h = host();
    h.port = 0;
    h.identity_file = None;
    h.proxy_jump = Some("bastion".to_string());
    let args = probe_args(&h, true, "true").unwrap();
    assert_eq!(&args[10..], &["-J", "bastion", "-o", "BatchMode=no", "-o", "NumberOfPasswordPrompts=1", "root@example.com", "sh", "-lc", "true"]);
}

#[test]
fn probe_needs_a_hostname() {
    let mut h = host();
    h.user = " ".to_string();
    h.hostname = "  ".to_string();
    assert_eq!(probe_args(&h, false, "x").unwrap_err(), "hostname is required");
}

#[test]
fn askpass_helpers() {
    assert_eq!(askpass_password(Some(&" pw ".to_string())), Some("pw".to_string()));
    assert_eq!(askpass_password(Some(&"   ".to_string())), None);
    assert_eq!(askpass_password(None), None);
    assert_eq!(askpass_script("a'b"), "#!/bin/sh\nprintf '%s\\n' 'a'\\''b'\n");
}

#[test]
fn probe_results() {
    assert_eq!(probe_result(true, b"out\n", b"", "exit status: 0").unwrap(), "out\n");
    assert_eq!(probe_result(false, b"o", b"  denied \n", "exit status: 255").unwrap_err(), "denied");
    assert_eq!(probe_result(false, b" only out ", b" ", "exit status: 1").unwrap_err(), "only out");
    assert_eq!(
        probe_result(false, b"", b"", "exit status: 2").unwrap_err(),
        "ssh exited with status exit status: 2"
    );
}
