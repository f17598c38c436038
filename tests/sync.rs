use xtermius::credentials::{
    credential_id, is_stored_password, migration_step, password_plan, row_sort_order,
    MigrationStep, PasswordPlan,
};
use xtermius::ssh_import::is_config_file_name;
use xtermius::sync::{is_not_found, mkcol_succeeded, with_body_excerpt};
use xtermius::webdav_url::remote_folder_urls;

#[test]
fn failure_messages_quote_the_reply() {
    assert_eq!(with_body_excerpt("Pull failed: 500", "  \n "), "Pull failed: 500");
    assert_eq!(with_body_excerpt("Pull failed: 500", " oops \n"), "Pull failed: 500 (oops)");
    let long = "x".repeat(200);
    let msg = with_body_excerpt("Push failed: 409", &long);
    assert_eq!(msg, format!("Push failed: 409 ({})", "x".repeat(180)));
}

#[test]
fn mkcol_statuses() {
    assert!(mkcol_succeeded(201));
    assert!(mkcol_succeeded(405));
    assert!(!mkcol_succeeded(409));
    assert!(!mkcol_succeeded(199));
    assert!(is_not_found(404));
    assert!(!is_not_found(200));
}

#[test]
fn credential_requests() {
    assert_eq!(credential_id("  h1 ").unwrap(), "h1");
    assert_eq!(credential_id("   ").unwrap_err(), "host_id is required");
    assert!(is_stored_password(" x "));
    assert!(!is_stored_password(" \t"));
}

#[test]
fn password_plans() {
    assert!(matches!(password_plan(&None), PasswordPlan::Keep));
    assert!(matches!(password_plan(&Some("  ".to_string())), PasswordPlan::Forget));
    match password_plan(&Some(" secret ".to_string())) {
        PasswordPlan::Store(s) => assert_eq!(s, "secret"),
        _ => panic!("expected a stored password"),
    }
    assert!(matches!(migration_step(true, "pw"), MigrationStep::ClearPlaintext));
    assert!(matches!(migration_step(false, "  "), MigrationStep::Skip));
    match migration_step(false, " pw ") {
        MigrationStep::MoveToStore(s) => assert_eq!(s, "pw"),
        _ => panic!("expected a move"),
    }
    assert_eq!(row_sort_order(Some(-3), 9), -3);
    assert_eq!(row_sort_order(None, 9), 9);
}

#[test]
fn config_file_names() {
    assert!(is_config_file_name("config"));
    assert!(is_config_file_name("CONFIG"));
    assert!(is_config_file_name("work.conf"));
    assert!(!is_config_file_name("conf"));
    assert!(!is_config_file_name("known_hosts"));
}

#[test]
fn remote_folders_to_create() {
    let urls = remote_folder_urls("https://dav.example.com/dav", Some("/a//b/")).unwrap();
    assert_eq!(
        urls,
        vec![
            "https://dav.example.com/dav/a/".to_string(),
            "https://dav.example.com/dav/a/b/".to_string()
        ]
    );
    let urls = remote_folder_urls("https://dav.example.com/dav/hosts.db", Some("x")).unwrap();
    assert_eq!(urls, vec!["https://dav.example.com/dav/x/".to_string()]);
    assert!(remote_folder_urls("not a url", None).unwrap().is_empty());
    assert!(remote_folder_urls("not a url", Some("x")).unwrap_err().starts_with("Invalid WebDAV URL: "));
}
