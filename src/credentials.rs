//! Decisions about the passwords that the OS credential store keeps for
//! hosts. Passwords never stay in the host database: a host record only
//! says whether this device holds one.
use vstd::prelude::*;
use crate::host_probe::opt_view;
use crate::text::{trim, trimmed};

verus! {

/// A credential request names its host by a trimmed, non-blank id.
pub open spec fn credential_id_spec(host_id: Seq<char>) -> Option<Seq<char>> {
    if trim(host_id).len() > 0 {
        Some(trim(host_id))
    } else {
        None
    }
}

/// The credential-store account of `host_id`, or the error for a blank id.
pub fn credential_id(host_id: &str) -> (r: Result<String, String>)
    ensures
        match credential_id_spec(host_id@) {
            Some(id) => r matches Ok(s) && s@ == id,
            None => r matches Err(e) && e@ == "host_id is required"@,
        },
{
    let id = trimmed(host_id);
    if id.unicode_len() == 0 {
        Err(String::from_str("host_id is required"))
    } else {
        Ok(id)
    }
}

/// Whether a password read from the credential store counts as a stored
/// password: it holds more than white space.
pub fn is_stored_password(password: &str) -> (r: bool)
    ensures
        r == (trim(password@).len() > 0),
{
    trimmed(password).unicode_len() > 0
}

/// What saving a host does to its stored password.
pub enum PasswordPlan {
    /// The record carries no password: the store keeps what it has.
    Keep,
    /// The record carries a blank password: the stored one is deleted.
    Forget,
    /// The record carries this password (trimmed): it is stored.
    Store(String),
}

/// The plan for a record carrying `password`.
pub fn password_plan(password: &Option<String>) -> (r: PasswordPlan)
    ensures
        match opt_view(*password) {
            None => r is Keep,
            Some(p) => if trim(p).len() == 0 {
                r is Forget
            } else {
                r matches PasswordPlan::Store(s) && s@ == trim(p)
            },
        },
{
    match password {
        None => PasswordPlan::Keep,
        Some(p) => {
            let t = trimmed(p.as_str());
            if t.unicode_len() == 0 {
                PasswordPlan::Forget
            } else {
                PasswordPlan::Store(t)
            }
        },
    }
}

/// What happens to a password that an older version left in the database.
pub enum MigrationStep {
    /// The store already has it: the database copy is cleared.
    ClearPlaintext,
    /// It is blank: nothing is done.
    Skip,
    /// It is moved, trimmed, to the store; the database copy is cleared once
    /// the store has it.
    MoveToStore(String),
}

/// The step for a database row holding `password`, whose flag says whether
/// the store already holds it.
pub fn migration_step(has_password: bool, password: &str) -> (r: MigrationStep)
    ensures
        has_password ==> r is ClearPlaintext,
        !has_password && trim(password@).len() == 0 ==> r is Skip,
        !has_password && trim(password@).len() > 0 ==> (r matches MigrationStep::MoveToStore(s)
            && s@ == trim(password@)),
{
    if has_password {
        return MigrationStep::ClearPlaintext;
    }
    let t = trimmed(password);
    if t.unicode_len() == 0 {
        MigrationStep::Skip
    } else {
        MigrationStep::MoveToStore(t)
    }
}

/// The position a host is saved at: its own sort order, or its place in
/// the list when it has none.
pub fn row_sort_order(sort_order: Option<i64>, index: usize) -> (r: i64)
    requires
        index <= i64::MAX,
    ensures
        r == match sort_order {
            Some(o) => o as int,
            None => index as int,
        },
{
    match sort_order {
        Some(o) => o,
        None => index as i64,
    }
}

} // verus!
