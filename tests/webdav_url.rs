use xtermius::{webdav_resolve_url, webdav_resolve_url_with_folder};

#[test]
fn resolve_file_path_to_hosts_db() {
    let got = webdav_resolve_url("https://dav.example.com/path/custom.json", "hosts.db").unwrap();
    assert!(got.contains("/path/hosts.db"));
}

#[test]
fn resolve_with_folder_uses_folder_for_base_urls() {
    let got = webdav_resolve_url_with_folder(
        "https://dav.example.com/dav/",
        Some("xTermius"),
        "hosts.db",
    )
    .unwrap();
    assert_eq!(got, "https://dav.example.com/dav/xTermius/hosts.db");
}

#[test]
fn resolve_with_folder_keeps_explicit_file_url() {
    let got = webdav_resolve_url_with_folder(
        "https://dav.example.com/dav/current.db",
        Some("ignored"),
        "hosts.db",
    )
    .unwrap();
    assert_eq!(got, "https://dav.example.com/dav/hosts.db");
}

#[test]
fn resolve_keeps_url_naming_the_file() {
    let got = webdav_resolve_url("  https://dav.example.com/dav/hosts.db ", "hosts.db").unwrap();
    assert_eq!(got, "https://dav.example.com/dav/hosts.db");
}

#[test]
fn resolve_directory_url_appends_file() {
    let got = webdav_resolve_url("https://dav.example.com/dav/", "hosts.db").unwrap();
    assert_eq!(got, "https://dav.example.com/dav/hosts.db");
}

#[test]
fn resolve_plain_segment_is_treated_as_directory() {
    let got = webdav_resolve_url("https://dav.example.com/dav", "hosts.db").unwrap();
    assert_eq!(got, "https://dav.example.com/dav/hosts.db");
}

#[test]
fn resolve_rejects_blank_url() {
    let err = webdav_resolve_url("   ", "hosts.db").unwrap_err();
    assert_eq!(err, "WebDAV URL not configured");
}

#[test]
fn resolve_rejects_unparsable_url() {
    let err = webdav_resolve_url("not a url", "hosts.db").unwrap_err();
    assert!(err.starts_with("Invalid WebDAV URL: "));
}

#[test]
fn resolve_rejects_url_without_editable_path() {
    let err = webdav_resolve_url("mailto:someone@example.com", "hosts.db").unwrap_err();
    assert_eq!(err, "Invalid WebDAV URL (cannot modify path)");
}

#[test]
fn resolve_with_folder_strips_slashes_and_blanks() {
    let got = webdav_resolve_url_with_folder(
        "https://dav.example.com/dav",
        Some(" /sync/ "),
        "hosts.json",
    )
    .unwrap();
    assert_eq!(got, "https://dav.example.com/dav/sync/hosts.json");
    let got = webdav_resolve_url_with_folder("https://dav.example.com/dav/", None, "hosts.db").unwrap();
    assert_eq!(got, "https://dav.example.com/dav/hosts.db");
}
