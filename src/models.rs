//! The host records and settings that the front end edits.
use vstd::prelude::*;

verus! {

/// The SSH port assumed when a host names none.
pub const DEFAULT_SSH_PORT: u16 = 22;

/// The folder under the WebDAV URL that synchronisation uses by default.
pub const DEFAULT_WEBDAV_FOLDER: &'static str = "xTermius";

/// The port of a host record that names none.
pub fn default_port() -> (r: u16)
    ensures
        r == DEFAULT_SSH_PORT,
{
    DEFAULT_SSH_PORT
}

/// One saved host.
#[derive(Clone)]
pub struct Host {
    pub id: String,
    pub sort_order: Option<i64>,
    pub name: String,
    pub alias: String,
    pub hostname: String,
    pub user: String,
    pub port: u16,
    pub password: Option<String>,
    pub has_password: bool,
    pub identity_file: Option<String>,
    pub proxy_jump: Option<String>,
    pub env_vars: Option<String>,
    pub encoding: Option<String>,
    pub tags: Vec<String>,
    pub notes: String,
    pub updated_at: String,
    pub deleted: bool,
}

/// Synchronisation settings.
#[derive(Clone)]
pub struct Settings {
    pub webdav_url: Option<String>,
    pub webdav_folder: Option<String>,
    pub webdav_username: Option<String>,
    pub webdav_password: Option<String>,
}

impl Settings {
    /// The settings in force before any have been saved: no server, and the
    /// default folder.
    pub fn initial() -> (r: Settings)
        ensures
            r.webdav_url is None,
            r.webdav_folder matches Some(f) && f@ == DEFAULT_WEBDAV_FOLDER@,
            r.webdav_username is None,
            r.webdav_password is None,
    {
        Settings {
            webdav_url: None,
            webdav_folder: Some(String::from_str(DEFAULT_WEBDAV_FOLDER)),
            webdav_username: None,
            webdav_password: None,
        }
    }

    /// Saved settings as they are used: a missing folder becomes the default
    /// folder, everything else stays.
    pub fn with_default_folder(self) -> (r: Settings)
        ensures
            r.webdav_url == self.webdav_url,
            r.webdav_username == self.webdav_username,
            r.webdav_password == self.webdav_password,
            self.webdav_folder is Some ==> r.webdav_folder == self.webdav_folder,
            self.webdav_folder is None ==> (r.webdav_folder matches Some(f) && f@
                == DEFAULT_WEBDAV_FOLDER@),
    {
        match self.webdav_folder {
            Some(_) => self,
            None => Settings {
                webdav_folder: Some(String::from_str(DEFAULT_WEBDAV_FOLDER)),
                ..self
            },
        }
    }
}

/// The files SQLite keeps beside the database `db_path` in write-ahead
/// logging mode: its log and its shared-memory index.
pub fn hosts_db_sidecar_paths(db_path: &str) -> (r: Vec<String>)
    ensures
        r@.len() == 2,
        r@[0]@ == db_path@ + "-wal"@,
        r@[1]@ == db_path@ + "-shm"@,
{
    let mut wal = String::from_str(db_path);
    wal.append("-wal");
    let mut shm = String::from_str(db_path);
    shm.append("-shm");
    let mut v: Vec<String> = Vec::new();
    v.push(wal);
    v.push(shm);
    v
}

} // verus!
