use xtermius::{default_port, hosts_db_sidecar_paths, ssh_config_text, Host, Settings};

fn host(alias: &str, hostname: &str) -> Host {
    Host {
        id: "h".to_string(),
        sort_order: None,
        name: String::new(),
        alias: alias.to_string(),
        hostname: hostname.to_string(),
        user: String::new(),
        port: 22,
        password: None,
        has_password: false,
        identity_file: None,
        proxy_jump: None,
        env_vars: None,
        encoding: None,
        tags: Vec::new(),
        notes: String::new(),
        updated_at: String::new(),
        deleted: false,
    }
}

#[test]
fn default_port_is_ssh() {
    assert_eq!(default_port(), 22);
}

#[test]
fn settings_defaults() {
    let s = Settings::initial();
    assert_eq!(s.webdav_folder, Some("xTermius".to_string()));
    assert_eq!(s.webdav_url, None);
    let saved = Settings {
        webdav_url: Some("https://dav".to_string()),
        webdav_folder: None,
        webdav_username: Some("u".to_string()),
        webdav_password: None,
    };
    let used = saved.with_default_folder();
    assert_eq!(used.webdav_folder, Some("xTermius".to_string()));
    assert_eq!(used.webdav_url, Some("https://dav".to_string()));
    let kept = Settings { webdav_folder: Some("mine".to_string()), ..used }.with_default_folder();
    assert_eq!(kept.webdav_folder, Some("mine".to_string()));
}

#[test]
fn sidecar_paths() {
    assert_eq!(
        hosts_db_sidecar_paths("/cfg/hosts.db"),
        vec!["/cfg/hosts.db-wal".to_string(), "/cfg/hosts.db-shm".to_string()]
    );
}

#[test]
fn ssh_config_blocks() {
    let mut a = host("web", "10.0.0.1");
    a.user = "root".to_string();
    a.port = 2200;
    a.identity_file = Some("~/.ssh/k".to_string());
    a.proxy_jump = Some("jump".to_string());
    let b = host("  ", "db.example.com");
    let mut gone = host("old", "old.example.com");
    gone.deleted = true;
    let text = ssh_config_text(&vec![a, gone, b]);
    assert_eq!(
        text,
        "Host web\n  HostName 10.0.0.1\n  User root\n  Port 2200\n  IdentityFile ~/.ssh/k\n  IdentitiesOnly yes\n  ProxyJump jump\n  ServerAliveInterval 30\n\nHost db.example.com\n  HostName db.example.com\n  ServerAliveInterval 30\n\n"
    );
    assert_eq!(ssh_config_text(&Vec::new()), "");
}
