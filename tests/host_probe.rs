use xtermius::{
    host_probe_static_impl, maybe_text, parse_kv, parse_u32, parse_u64, shell_quote, target_of,
    Host,
};

fn host(user: &str, hostname: &str) -> Host {
    Host {
        id: "h1".to_string(),
        sort_order: None,
        name: String::new(),
        alias: String::new(),
        hostname: hostname.to_string(),
        user: user.to_string(),
        port: 22,
        password: None,
        has_password: false,
        identity_file: None,
        proxy_jump: None,
        env_vars: None,
        encoding: None,
        tags: Vec::new(),
        notes: String::new(),
        updated_at: String::new(),
        deleted: false,
    }
}

#[test]
fn shell_quote_wraps_and_escapes() {
    assert_eq!(shell_quote("abc"), "'abc'");
    assert_eq!(shell_quote("it's"), "'it'\\''s'");
    assert_eq!(shell_quote(""), "''");
}

#[test]
fn maybe_text_trims_and_drops_unknown() {
    assert_eq!(maybe_text(Some(&"  Ubuntu 22.04 \n".to_string())), Some("Ubuntu 22.04".to_string()));
    assert_eq!(maybe_text(Some(&" unknown ".to_string())), None);
    assert_eq!(maybe_text(Some(&"   ".to_string())), None);
    assert_eq!(maybe_text(Some(&"Unknown".to_string())), Some("Unknown".to_string()));
    assert_eq!(maybe_text(None), None);
}

#[test]
fn numbers_are_trimmed_and_range_checked() {
    assert_eq!(parse_u32(Some(&" 42 ".to_string())), Some(42));
    assert_eq!(parse_u32(Some(&"4294967295".to_string())), Some(u32::MAX));
    assert_eq!(parse_u32(Some(&"4294967296".to_string())), None);
    assert_eq!(parse_u32(Some(&"-1".to_string())), None);
    assert_eq!(parse_u32(Some(&"".to_string())), None);
    assert_eq!(parse_u32(None), None);
    assert_eq!(parse_u64(Some(&"+7".to_string())), Some(7));
    assert_eq!(parse_u64(Some(&"18446744073709551615".to_string())), Some(u64::MAX));
    assert_eq!(parse_u64(Some(&"18446744073709551616".to_string())), None);
    assert_eq!(parse_u64(Some(&"12a".to_string())), None);
}

#[test]
fn parse_kv_reads_fields_and_processes() {
    let (fields, procs) = parse_kv("a=1\nproc=bash|1.0|2.0\n  b = x=y \r\nnoeq\n\na=2\n");
    assert_eq!(fields.get("a"), Some(&"2".to_string()));
    assert_eq!(fields.get("b"), Some(&"x=y".to_string()));
    assert_eq!(fields.get("noeq"), None);
    assert_eq!(procs, vec!["bash|1.0|2.0".to_string()]);
}

#[test]
fn target_joins_user_and_host() {
    assert_eq!(target_of(&host(" root ", " example.com ")), "root@example.com");
    assert_eq!(target_of(&host("  ", "example.com")), "example.com");
}

#[test]
fn static_probe_output_is_read() {
    let out = "system_name=Ubuntu 22.04.4 LTS\nkernel=Linux 6.5.0\narch=x86_64\ncpu_model=unknown\ncpu_cores= 8\nmem_total_kb=16318440\n";
    let info = host_probe_static_impl(out);
    assert_eq!(info.system_name, Some("Ubuntu 22.04.4 LTS".to_string()));
    assert_eq!(info.kernel, Some("Linux 6.5.0".to_string()));
    assert_eq!(info.arch, Some("x86_64".to_string()));
    assert_eq!(info.cpu_model, None);
    assert_eq!(info.cpu_cores, Some(8));
    assert_eq!(info.mem_total_kb, Some(16318440));
    let empty = host_probe_static_impl("");
    assert_eq!(empty.system_name, None);
    assert_eq!(empty.cpu_cores, None);
}
