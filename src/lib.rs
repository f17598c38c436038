//! Terminal session management for an SSH host manager, with the host
//! records, SSH config handling and probe-output parsing around it.

pub mod credentials;
pub mod decimal;
pub mod host_probe;
pub mod models;
pub mod pty;
pub mod ssh_config;
pub mod ssh_import;
pub mod sync;
pub mod text;
pub mod webdav_url;

pub use host_probe::{
    host_probe_static_impl, maybe_text, parse_kv, parse_u32, parse_u64, shell_quote, target_of,
    HostStaticInfo, ProbeFields,
};
pub use models::{default_port, hosts_db_sidecar_paths, Host, Settings};
pub use pty::{exit_code, PtyDataPayload, PtyError, PtyExitPayload, PtyState};
pub use ssh_config::ssh_config_text;
pub use ssh_import::{
    is_importable_alias, merge_candidates, parse_config, strip_comments, SshImportCandidate,
};
pub use webdav_url::{webdav_resolve_url, webdav_resolve_url_with_folder};
