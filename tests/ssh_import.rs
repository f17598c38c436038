use xtermius::{is_importable_alias, merge_candidates, parse_config, strip_comments};

#[test]
fn comments_end_at_unquoted_hash() {
    assert_eq!(strip_comments("Host a # comment"), "Host a ");
    assert_eq!(strip_comments("User 'a#b' # c"), "User 'a#b' ");
    assert_eq!(strip_comments("User \"x#y\"#z"), "User \"x#y\"");
    assert_eq!(strip_comments("# all comment"), "");
    assert_eq!(strip_comments("plain"), "plain");
}

#[test]
fn importable_aliases() {
    assert!(is_importable_alias("web1"));
    assert!(!is_importable_alias(""));
    assert!(!is_importable_alias("*"));
    assert!(!is_importable_alias("web?"));
    assert!(!is_importable_alias("!bad"));
    assert!(!is_importable_alias("a!b"));
}

#[test]
fn config_blocks_become_candidates() {
    let text = "# global\nHost web db *.internal\n  HostName 10.0.0.5\n  user deploy\n  Port 2222\n  IdentityFile ~/.ssh/id ed\nMatch host x\n  User ignored\nHost solo\n  Port notanumber\n  ProxyJump bastion\n";
    let c = parse_config(text, "/home/u/.ssh/config");
    assert_eq!(c.len(), 3);
    assert_eq!(c[0].alias, "web");
    assert_eq!(c[0].hostname, "10.0.0.5");
    assert_eq!(c[0].user, "deploy");
    assert_eq!(c[0].port, 2222);
    assert_eq!(c[0].identity_file, Some("~/.ssh/id ed".to_string()));
    assert_eq!(c[0].proxy_jump, None);
    assert_eq!(c[0].source_path, "/home/u/.ssh/config");
    assert_eq!(c[1].alias, "db");
    assert_eq!(c[1].hostname, "10.0.0.5");
    assert_eq!(c[2].alias, "solo");
    assert_eq!(c[2].hostname, "solo");
    assert_eq!(c[2].user, "");
    assert_eq!(c[2].port, 22);
    assert_eq!(c[2].proxy_jump, Some("bastion".to_string()));
}

#[test]
fn empty_config_gives_nothing() {
    assert!(parse_config("", "x").is_empty());
    assert!(parse_config("HostName lonely\n", "x").is_empty());
}

#[test]
fn merge_keeps_first_alias_and_sorts() {
    let mut all = parse_config("Host Zeta beta\nHostName first\n", "a");
    all.extend(parse_config("Host BETA alpha\nHostName second\n", "b"));
    let merged = merge_candidates(all);
    let aliases: Vec<&str> = merged.iter().map(|c| c.alias.as_str()).collect();
    assert_eq!(aliases, vec!["alpha", "beta", "Zeta"]);
    assert_eq!(merged[1].hostname, "first");
    assert_eq!(merged[1].source_path, "a");
}
