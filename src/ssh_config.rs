//! The OpenSSH client configuration written for the saved hosts.
use vstd::prelude::*;
use crate::decimal::{decimal_of, decimal_string};
use crate::host_probe::opt_view;
use crate::models::{Host, DEFAULT_SSH_PORT};
use crate::text::{trim, trimmed};

verus! {

/// The name a host's block is opened with: its alias, or its host name when
/// the alias is blank.
pub open spec fn block_alias(alias: Seq<char>, hostname: Seq<char>) -> Seq<char> {
    if trim(alias).len() == 0 {
        hostname
    } else {
        alias
    }
}

/// The `Host` line and the `HostName` line of `h`'s block.
pub open spec fn block_head(h: Host) -> Seq<char> {
    "Host "@ + block_alias(h.alias@, h.hostname@) + "\n"@ + "  HostName "@ + h.hostname@ + "\n"@
}

/// The `User` line, for a host with a user.
pub open spec fn user_line(h: Host) -> Seq<char> {
    if h.user@.len() > 0 {
        "  User "@ + h.user@ + "\n"@
    } else {
        Seq::empty()
    }
}

/// The `Port` line, for a host on another port than the default.
pub open spec fn port_line(h: Host) -> Seq<char> {
    if h.port != DEFAULT_SSH_PORT {
        "  Port "@ + decimal_of(h.port as nat) + "\n"@
    } else {
        Seq::empty()
    }
}

/// The `IdentityFile` and `IdentitiesOnly` lines, for a host with a key file.
pub open spec fn identity_lines(h: Host) -> Seq<char> {
    match opt_view(h.identity_file) {
        Some(f) => "  IdentityFile "@ + f + "\n"@ + "  IdentitiesOnly yes\n"@,
        None => Seq::empty(),
    }
}

/// The `ProxyJump` line, for a host reached through another.
pub open spec fn proxy_line(h: Host) -> Seq<char> {
    match opt_view(h.proxy_jump) {
        Some(p) => "  ProxyJump "@ + p + "\n"@,
        None => Seq::empty(),
    }
}

/// The keep-alive line and the blank line that end every block.
pub open spec fn block_tail() -> Seq<char> {
    "  ServerAliveInterval 30\n"@ + "\n"@
}

/// The `Host` block written for `h`.
pub open spec fn host_block(h: Host) -> Seq<char> {
    block_head(h) + user_line(h) + port_line(h) + identity_lines(h) + proxy_line(h) + block_tail()
}

/// The configuration for `hosts`: one block for each host not deleted, in
/// order.
pub open spec fn config_text(hosts: Seq<Host>) -> Seq<char>
    decreases hosts.len(),
{
    if hosts.len() == 0 {
        Seq::empty()
    } else {
        config_text(hosts.drop_last()) + if hosts.last().deleted {
            Seq::empty()
        } else {
            host_block(hosts.last())
        }
    }
}

fn write_head(out: &mut String, h: &Host)
    ensures
        final(out)@ == old(out)@ + block_head(*h),
{
    let ghost start = out@;
    out.append("Host ");
    if trimmed(h.alias.as_str()).unicode_len() == 0 {
        out.append(h.hostname.as_str());
    } else {
        out.append(h.alias.as_str());
    }
    out.append("\n");
    out.append("  HostName ");
    out.append(h.hostname.as_str());
    out.append("\n");
    assert(out@ =~= start + block_head(*h));
}

fn write_options(out: &mut String, h: &Host)
    ensures
        final(out)@ == old(out)@ + user_line(*h) + port_line(*h),
{
    let ghost start = out@;
    if h.user.unicode_len() > 0 {
        out.append("  User ");
        out.append(h.user.as_str());
        out.append("\n");
    }
    assert(out@ =~= start + user_line(*h));
    let ghost mid = out@;
    if h.port != DEFAULT_SSH_PORT {
        out.append("  Port ");
        let port = decimal_string(h.port as u64);
        out.append(port.as_str());
        out.append("\n");
    }
    assert(out@ =~= mid + port_line(*h));
    assert(out@ =~= start + user_line(*h) + port_line(*h));
}

fn write_routes(out: &mut String, h: &Host)
    ensures
        final(out)@ == old(out)@ + identity_lines(*h) + proxy_line(*h),
{
    let ghost start = out@;
    match &h.identity_file {
        Some(f) => {
            out.append("  IdentityFile ");
            out.append(f.as_str());
            out.append("\n");
            out.append("  IdentitiesOnly yes\n");
        },
        None => {},
    }
    assert(out@ =~= start + identity_lines(*h));
    let ghost mid = out@;
    match &h.proxy_jump {
        Some(p) => {
            out.append("  ProxyJump ");
            out.append(p.as_str());
            out.append("\n");
        },
        None => {},
    }
    assert(out@ =~= mid + proxy_line(*h));
    assert(out@ =~= start + identity_lines(*h) + proxy_line(*h));
}

fn write_block(out: &mut String, h: &Host)
    ensures
        final(out)@ == old(out)@ + host_block(*h),
{
    let ghost start = out@;
    write_head(out, h);
    write_options(out, h);
    write_routes(out, h);
    out.append("  ServerAliveInterval 30\n");
    out.append("\n");
    assert(out@ =~= start + host_block(*h));
}

/// The configuration text for `hosts`.
pub fn ssh_config_text(hosts: &Vec<Host>) -> (r: String)
    ensures
        r@ == config_text(hosts@),
{
    let mut out = String::new();
    let mut i: usize = 0;
    while i < hosts.len()
        invariant
            i <= hosts@.len(),
            out@ == config_text(hosts@.take(i as int)),
        decreases hosts@.len() - i,
    {
        assert(hosts@.take(i as int + 1).drop_last() =~= hosts@.take(i as int));
        if !hosts[i].deleted {
            write_block(&mut out, &hosts[i]);
        } else {
            assert(out@ =~= out@ + Seq::<char>::empty());
        }
        i += 1;
    }
    assert(hosts@.take(i as int) =~= hosts@);
    out
}

} // verus!
