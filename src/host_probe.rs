//! Reading what a remote host reports about itself.
//!
//! A probe runs a shell script on the host over SSH; the script prints one
//! `key=value` line per fact, and one `proc=...` line per busy process. This
//! module builds the pieces of the SSH command line and reads that output.
use vstd::prelude::*;
use crate::decimal::{decimal_of, decimal_string, parse_bounded};
use crate::pty::{decode_lossy, utf8_lossy};
use crate::models::Host;
use crate::text::{
    chars_of, find_char, first_index, has_prefix, line_bounds, lines_of, push_char,
    string_of_range, trim, trim_bounds, trimmed,
};

verus! {

/// What a remote host reports once: its system and hardware.
pub struct HostStaticInfo {
    pub system_name: Option<String>,
    pub kernel: Option<String>,
    pub arch: Option<String>,
    pub cpu_model: Option<String>,
    pub cpu_cores: Option<u32>,
    pub mem_total_kb: Option<u64>,
}

/// `s` with each `'` written as `'\''`, so that it can stand between single
/// quotes.
pub open spec fn quoted_body(s: Seq<char>) -> Seq<char>
    decreases s.len(),
{
    if s.len() == 0 {
        Seq::empty()
    } else {
        quoted_body(s.drop_last()) + if s.last() == '\'' {
            seq!['\'', '\\', '\'', '\'']
        } else {
            seq![s.last()]
        }
    }
}

/// `s` as a single-quoted shell word.
pub open spec fn shell_quoted(s: Seq<char>) -> Seq<char> {
    seq!['\''] + quoted_body(s) + seq!['\'']
}

/// `input` as one single-quoted shell word that the shell reads back as
/// `input`.
pub fn shell_quote(input: &str) -> (r: String)
    ensures
        r@ == shell_quoted(input@),
{
    let cs = chars_of(input);
    let mut out = String::new();
    push_char(&mut out, '\'');
    let mut i: usize = 0;
    while i < cs.len()
        invariant
            i <= cs@.len(),
            cs@ == input@,
            out@ == seq!['\''] + quoted_body(cs@.take(i as int)),
        decreases cs@.len() - i,
    {
        let c = cs[i];
        assert(cs@.take(i as int + 1).drop_last() =~= cs@.take(i as int));
        if c == '\'' {
            push_char(&mut out, '\'');
            push_char(&mut out, '\\');
            push_char(&mut out, '\'');
            push_char(&mut out, '\'');
        } else {
            push_char(&mut out, c);
        }
        proof {
            let pre = seq!['\''] + quoted_body(cs@.take(i as int));
            if c == '\'' {
                assert(out@ =~= pre + seq!['\'', '\\', '\'', '\'']);
            } else {
                assert(out@ =~= pre + seq![c]);
            }
            assert(seq!['\''] + quoted_body(cs@.take(i as int + 1)) =~= pre + (if c == '\'' {
                seq!['\'', '\\', '\'', '\'']
            } else {
                seq![c]
            }));
        }
        i += 1;
    }
    push_char(&mut out, '\'');
    assert(cs@.take(cs@.len() as int) =~= cs@);
    out
}

pub open spec fn unknown_word() -> Seq<char> {
    seq!['u', 'n', 'k', 'n', 'o', 'w', 'n']
}

/// A reported text: trimmed, and absent when empty or `unknown`.
pub open spec fn text_value(v: Seq<char>) -> Option<Seq<char>> {
    let t = trim(v);
    if t.len() == 0 || t == unknown_word() {
        None
    } else {
        Some(t)
    }
}

/// The reported text `value`, when it says something.
pub fn maybe_text(value: Option<&String>) -> (r: Option<String>)
    ensures
        match value {
            None => r is None,
            Some(v) => match text_value(v@) {
                None => r is None,
                Some(t) => r matches Some(s) && s@ == t,
            },
        },
{
    match value {
        None => None,
        Some(v) => {
            let t = trimmed(v.as_str());
            let unknown = String::from_str("unknown");
            proof {
                reveal_strlit("unknown");
                assert(unknown@ =~= unknown_word());
            }
            if t.unicode_len() == 0 || t == unknown {
                None
            } else {
                Some(t)
            }
        },
    }
}

/// A reported number: trimmed, then read as an unsigned numeral no greater
/// than `max`.
pub open spec fn number_value(v: Seq<char>, max: nat) -> Option<nat> {
    parse_bounded(trim(v), max)
}

/// The reported number `value`, when it is one that fits in a `u32`.
pub fn parse_u32(value: Option<&String>) -> (r: Option<u32>)
    ensures
        match value {
            None => r is None,
            Some(v) => match r {
                Some(n) => number_value(v@, u32::MAX as nat) == Some(n as nat),
                None => number_value(v@, u32::MAX as nat) is None,
            },
        },
{
    match value {
        None => None,
        Some(v) => {
            let t = trimmed(v.as_str());
            match crate::decimal::parse_unsigned(t.as_str(), u32::MAX as u64) {
                Some(n) => Some(n as u32),
                None => None,
            }
        },
    }
}

/// The reported number `value`, when it is one that fits in a `u64`.
pub fn parse_u64(value: Option<&String>) -> (r: Option<u64>)
    ensures
        match value {
            None => r is None,
            Some(v) => match r {
                Some(n) => number_value(v@, u64::MAX as nat) == Some(n as nat),
                None => number_value(v@, u64::MAX as nat) is None,
            },
        },
{
    match value {
        None => None,
        Some(v) => {
            let t = trimmed(v.as_str());
            crate::decimal::parse_unsigned(t.as_str(), u64::MAX)
        },
    }
}

pub open spec fn proc_prefix() -> Seq<char> {
    seq!['p', 'r', 'o', 'c', '=']
}

/// Key and value pairs, in the order they were read.
pub type FieldSeq = Seq<(Seq<char>, Seq<char>)>;

/// Reads one line of probe output into the fields and process lines read
/// so far. Blank lines and lines without `=` are skipped.
pub open spec fn kv_step(acc: (FieldSeq, Seq<Seq<char>>), raw: Seq<char>) -> (
    FieldSeq,
    Seq<Seq<char>>,
) {
    let line = trim(raw);
    if line.len() == 0 {
        acc
    } else if has_prefix(line, proc_prefix()) {
        (acc.0, acc.1.push(line.skip(5)))
    } else {
        match first_index(line, '=') {
            Some(k) => (acc.0.push((trim(line.take(k)), trim(line.skip(k + 1)))), acc.1),
            None => acc,
        }
    }
}

/// The fields and the process lines of the output lines `lines`.
pub open spec fn kv_fold(lines: Seq<Seq<char>>) -> (FieldSeq, Seq<Seq<char>>)
    decreases lines.len(),
{
    if lines.len() == 0 {
        (Seq::empty(), Seq::empty())
    } else {
        kv_step(kv_fold(lines.drop_last()), lines.last())
    }
}

/// The value of the last field named `key`.
pub open spec fn field_lookup(fields: FieldSeq, key: Seq<char>) -> Option<Seq<char>>
    decreases fields.len(),
{
    if fields.len() == 0 {
        None
    } else if fields.last().0 == key {
        Some(fields.last().1)
    } else {
        field_lookup(fields.drop_last(), key)
    }
}

pub open spec fn string_views(v: Seq<String>) -> Seq<Seq<char>> {
    v.map_values(|s: String| s@)
}

/// The `key=value` fields of a probe's output. A key given twice has its
/// last value.
pub struct ProbeFields {
    entries: Vec<(String, String)>,
}

impl View for ProbeFields {
    type V = FieldSeq;

    closed spec fn view(&self) -> FieldSeq {
        self.entries@.map_values(|p: (String, String)| (p.0@, p.1@))
    }
}

impl ProbeFields {
    /// The value of the field `key`, if the output gave one.
    pub fn get(&self, key: &str) -> (r: Option<&String>)
        ensures
            match r {
                Some(v) => field_lookup(self@, key@) == Some(v@),
                None => field_lookup(self@, key@) is None,
            },
    {
        let k = String::from_str(key);
        let mut i: usize = self.entries.len();
        assert(self@.take(i as int) =~= self@);
        while i > 0
            invariant
                i <= self.entries@.len(),
                k@ == key@,
                field_lookup(self@, key@) == field_lookup(self@.take(i as int), key@),
            decreases i,
        {
            let ghost t = self@.take(i as int);
            assert(t.drop_last() =~= self@.take(i as int - 1));
            if self.entries[i - 1].0 == k {
                return Some(&self.entries[i - 1].1);
            }
            i -= 1;
        }
        None
    }
}

/// Splits a probe's output into its fields and its process lines (each
/// without its `proc=` prefix).
pub fn parse_kv(stdout: &str) -> (r: (ProbeFields, Vec<String>))
    ensures
        r.0@ == kv_fold(lines_of(stdout@)).0,
        string_views(r.1@) == kv_fold(lines_of(stdout@)).1,
{
    let cs = chars_of(stdout);
    let bounds = line_bounds(cs.as_slice());
    let ghost lines = lines_of(stdout@);
    let mut fields = ProbeFields { entries: Vec::new() };
    let mut procs: Vec<String> = Vec::new();
    let mut j: usize = 0;
    assert(fields@ =~= Seq::<(Seq<char>, Seq<char>)>::empty());
    assert(string_views(procs@) =~= Seq::<Seq<char>>::empty());
    while j < bounds.len()
        invariant
            cs@ == stdout@,
            j <= bounds@.len() == lines.len(),
            lines == lines_of(cs@),
            forall|m: int|
                0 <= m < bounds@.len() ==> {
                    &&& (#[trigger] bounds@[m]).0 <= bounds@[m].1 <= cs@.len()
                    &&& cs@.subrange(bounds@[m].0 as int, bounds@[m].1 as int) == lines[m]
                },
            fields@ == kv_fold(lines.take(j as int)).0,
            string_views(procs@) == kv_fold(lines.take(j as int)).1,
        decreases bounds@.len() - j,
    {
        let ghost pre_fields = fields@;
        let ghost pre_procs = string_views(procs@);
        assert(lines.take(j as int + 1).drop_last() =~= lines.take(j as int));
        assert(lines.take(j as int + 1).last() == lines[j as int]);
        let (lo, hi) = bounds[j];
        let (a, b) = trim_bounds(cs.as_slice(), lo, hi);
        let ghost line = cs@.subrange(a as int, b as int);
        if a < b {
            if b - a >= 5 && cs[a] == 'p' && cs[a + 1] == 'r' && cs[a + 2] == 'o' && cs[a + 3]
                == 'c' && cs[a + 4] == '=' {
                assert(line.take(5) =~= proc_prefix());
                let rest = string_of_range(cs.as_slice(), a + 5, b);
                assert(rest@ =~= line.skip(5));
                procs.push(rest);
                assert(string_views(procs@) =~= pre_procs.push(line.skip(5)));
            } else {
                assert(!has_prefix(line, proc_prefix()));
                match find_char(cs.as_slice(), a, b, '=') {
                    Some(k) => {
                        let (ka, kb) = trim_bounds(cs.as_slice(), a, a + k);
                        let (va, vb) = trim_bounds(cs.as_slice(), a + k + 1, b);
                        assert(line.take(k as int) =~= cs@.subrange(a as int, (a + k) as int));
                        assert(line.skip(k as int + 1) =~= cs@.subrange(
                            (a + k + 1) as int,
                            b as int,
                        ));
                        let key = string_of_range(cs.as_slice(), ka, kb);
                        let value = string_of_range(cs.as_slice(), va, vb);
                        fields.entries.push((key, value));
                        assert(fields@ =~= pre_fields.push(
                            (trim(line.take(k as int)), trim(line.skip(k as int + 1))),
                        ));
                    },
                    None => {},
                }
            }
        }
        j += 1;
    }
    assert(lines.take(j as int) =~= lines);
    (fields, procs)
}

/// `user@hostname` for the probe's SSH command, or the host name alone
/// when no user is set (both trimmed).
pub open spec fn target_spec(user: Seq<char>, hostname: Seq<char>) -> Seq<char> {
    if trim(user).len() == 0 {
        trim(hostname)
    } else {
        trim(user) + seq!['@'] + trim(hostname)
    }
}

/// The SSH destination of `host`.
pub fn target_of(host: &Host) -> (r: String)
    ensures
        r@ == target_spec(host.user@, host.hostname@),
{
    let user = trimmed(host.user.as_str());
    let hostname = trimmed(host.hostname.as_str());
    if user.unicode_len() == 0 {
        hostname
    } else {
        let mut t = user;
        push_char(&mut t, '@');
        t.append(hostname.as_str());
        t
    }
}

/// The text field `key` of `fields`.
pub open spec fn text_field(fields: FieldSeq, key: Seq<char>) -> Option<Seq<char>> {
    match field_lookup(fields, key) {
        Some(v) => text_value(v),
        None => None,
    }
}

/// The number field `key` of `fields`, when it fits under `max`.
pub open spec fn number_field(fields: FieldSeq, key: Seq<char>, max: nat) -> Option<nat> {
    match field_lookup(fields, key) {
        Some(v) => number_value(v, max),
        None => None,
    }
}

pub open spec fn opt_view(o: Option<String>) -> Option<Seq<char>> {
    match o {
        Some(s) => Some(s@),
        None => None,
    }
}

pub open spec fn opt_u32(o: Option<u32>) -> Option<nat> {
    match o {
        Some(n) => Some(n as nat),
        None => None,
    }
}

pub open spec fn opt_u64(o: Option<u64>) -> Option<nat> {
    match o {
        Some(n) => Some(n as nat),
        None => None,
    }
}

/// What the static probe's output `stdout` says about the host.
pub fn host_probe_static_impl(stdout: &str) -> (r: HostStaticInfo)
    ensures
        ({
            let fields = kv_fold(lines_of(stdout@)).0;
            &&& opt_view(r.system_name) == text_field(fields, "system_name"@)
            &&& opt_view(r.kernel) == text_field(fields, "kernel"@)
            &&& opt_view(r.arch) == text_field(fields, "arch"@)
            &&& opt_view(r.cpu_model) == text_field(fields, "cpu_model"@)
            &&& opt_u32(r.cpu_cores) == number_field(fields, "cpu_cores"@, u32::MAX as nat)
            &&& opt_u64(r.mem_total_kb) == number_field(fields, "mem_total_kb"@, u64::MAX as nat)
        }),
{
    let (fields, _) = parse_kv(stdout);
    HostStaticInfo {
        system_name: maybe_text(fields.get("system_name")),
        kernel: maybe_text(fields.get("kernel")),
        arch: maybe_text(fields.get("arch")),
        cpu_model: maybe_text(fields.get("cpu_model")),
        cpu_cores: parse_u32(fields.get("cpu_cores")),
        mem_total_kb: parse_u64(fields.get("mem_total_kb")),
    }
}

/// The password an askpass helper should answer with: the stored password,
/// trimmed, when it is not blank.
pub open spec fn askpass_password_spec(password: Option<Seq<char>>) -> Option<Seq<char>> {
    match password {
        Some(p) => if trim(p).len() > 0 {
            Some(trim(p))
        } else {
            None
        },
        None => None,
    }
}

/// The password to hand to SSH through an askpass helper, if any.
pub fn askpass_password(password: Option<&String>) -> (r: Option<String>)
    ensures
        opt_view(r) == askpass_password_spec(
            match password {
                Some(p) => Some(p@),
                None => None,
            },
        ),
{
    match password {
        Some(p) => {
            let t = trimmed(p.as_str());
            if t.unicode_len() > 0 {
                Some(t)
            } else {
                None
            }
        },
        None => None,
    }
}

/// The askpass helper script: it prints the password and a newline.
pub open spec fn askpass_script_spec(password: Seq<char>) -> Seq<char> {
    "#!/bin/sh\nprintf '%s\\n' "@ + shell_quoted(password) + "\n"@
}

/// The askpass helper script for `password`.
pub fn askpass_script(password: &str) -> (r: String)
    ensures
        r@ == askpass_script_spec(password@),
{
    let mut s = String::from_str("#!/bin/sh\nprintf '%s\\n' ");
    let q = shell_quote(password);
    s.append(q.as_str());
    s.append("\n");
    s
}

/// The `-o` options every probe passes to SSH.
pub open spec fn probe_base_args() -> Seq<Seq<char>> {
    seq![
        "-o"@,
        "ConnectTimeout=8"@,
        "-o"@,
        "ConnectionAttempts=1"@,
        "-o"@,
        "StrictHostKeyChecking=accept-new"@,
        "-o"@,
        "ServerAliveInterval=10"@,
        "-o"@,
        "ServerAliveCountMax=1"@,
    ]
}

/// `flag` and the trimmed `value`, when the value is not blank.
pub open spec fn flag_arg(flag: Seq<char>, value: Option<Seq<char>>) -> Seq<Seq<char>> {
    match value {
        Some(v) => if trim(v).len() > 0 {
            seq![flag, trim(v)]
        } else {
            Seq::empty()
        },
        None => Seq::empty(),
    }
}

/// The arguments of the SSH command that runs `script` on `host`; with
/// `askpass`, SSH may ask an askpass helper for the password once, else it
/// runs in batch mode.
pub open spec fn probe_args_spec(host: Host, askpass: bool, script: Seq<char>) -> Seq<Seq<char>> {
    probe_base_args() + (if host.port > 0 {
        seq!["-p"@, decimal_of(host.port as nat)]
    } else {
        Seq::empty()
    }) + flag_arg("-i"@, opt_view(host.identity_file)) + flag_arg(
        "-J"@,
        opt_view(host.proxy_jump),
    ) + (if askpass {
        seq!["-o"@, "BatchMode=no"@, "-o"@, "NumberOfPasswordPrompts=1"@]
    } else {
        seq!["-o"@, "BatchMode=yes"@]
    }) + seq![target_spec(host.user@, host.hostname@), "sh"@, "-lc"@, script]
}

fn push_str(v: &mut Vec<String>, s: &str)
    ensures
        string_views(final(v)@) == string_views(old(v)@).push(s@),
{
    let ghost pre = string_views(v@);
    v.push(String::from_str(s));
    assert(string_views(v@) =~= pre.push(s@));
}

fn push_flag(v: &mut Vec<String>, flag: &str, value: &Option<String>)
    ensures
        string_views(final(v)@) == string_views(old(v)@) + flag_arg(flag@, opt_view(*value)),
{
    let ghost pre = string_views(v@);
    match value {
        Some(x) => {
            let t = trimmed(x.as_str());
            if t.unicode_len() > 0 {
                push_str(v, flag);
                push_str(v, t.as_str());
                assert(string_views(v@) =~= pre + seq![flag@, t@]);
                return;
            }
        },
        None => {},
    }
    assert(string_views(v@) =~= pre + Seq::<Seq<char>>::empty());
}

/// The arguments of the SSH command that runs `script` on `host`. Fails when
/// the host has no host name.
pub fn probe_args(host: &Host, askpass: bool, script: &str) -> (r: Result<Vec<String>, String>)
    ensures
        trim(target_spec(host.user@, host.hostname@)).len() == 0 ==> (r matches Err(e) && e@
            == "hostname is required"@),
        trim(target_spec(host.user@, host.hostname@)).len() > 0 ==> (r matches Ok(v)
            && string_views(v@) == probe_args_spec(*host, askpass, script@)),
{
    let target = target_of(host);
    if trimmed(target.as_str()).unicode_len() == 0 {
        return Err(String::from_str("hostname is required"));
    }
    let mut v: Vec<String> = Vec::new();
    push_str(&mut v, "-o");
    push_str(&mut v, "ConnectTimeout=8");
    push_str(&mut v, "-o");
    push_str(&mut v, "ConnectionAttempts=1");
    push_str(&mut v, "-o");
    push_str(&mut v, "StrictHostKeyChecking=accept-new");
    push_str(&mut v, "-o");
    push_str(&mut v, "ServerAliveInterval=10");
    push_str(&mut v, "-o");
    push_str(&mut v, "ServerAliveCountMax=1");
    assert(string_views(v@) =~= probe_base_args());
    let ghost a0 = string_views(v@);
    if host.port > 0 {
        push_str(&mut v, "-p");
        let port = decimal_string(host.port as u64);
        push_str(&mut v, port.as_str());
    }
    let ghost a1 = string_views(v@);
    assert(a1 =~= a0 + (if host.port > 0 {
        seq!["-p"@, decimal_of(host.port as nat)]
    } else {
        Seq::empty()
    }));
    push_flag(&mut v, "-i", &host.identity_file);
    push_flag(&mut v, "-J", &host.proxy_jump);
    let ghost a2 = string_views(v@);
    if askpass {
        push_str(&mut v, "-o");
        push_str(&mut v, "BatchMode=no");
        push_str(&mut v, "-o");
        push_str(&mut v, "NumberOfPasswordPrompts=1");
    } else {
        push_str(&mut v, "-o");
        push_str(&mut v, "BatchMode=yes");
    }
    let ghost a3 = string_views(v@);
    assert(a3 =~= a2 + (if askpass {
        seq!["-o"@, "BatchMode=no"@, "-o"@, "NumberOfPasswordPrompts=1"@]
    } else {
        seq!["-o"@, "BatchMode=yes"@]
    }));
    push_str(&mut v, target.as_str());
    push_str(&mut v, "sh");
    push_str(&mut v, "-lc");
    push_str(&mut v, script);
    assert(string_views(v@) =~= a3 + seq![target@, "sh"@, "-lc"@, script@]);
    Ok(v)
}

/// What a finished probe gives: its output when SSH succeeded; else the
/// trimmed standard error, or the trimmed standard output when that is
/// blank, or a note of the exit status when both are.
pub open spec fn probe_result_spec(
    success: bool,
    stdout: Seq<u8>,
    stderr: Seq<u8>,
    status: Seq<char>,
) -> Result<Seq<char>, Seq<char>> {
    if success {
        Ok(utf8_lossy(stdout))
    } else {
        let err = trim(utf8_lossy(stderr));
        let out = trim(utf8_lossy(stdout));
        let msg = if err.len() > 0 {
            err
        } else {
            out
        };
        if msg.len() == 0 {
            Err("ssh exited with status "@ + status)
        } else {
            Err(msg)
        }
    }
}

/// The outcome of a probe whose SSH process ended with `status` (its
/// description), reporting `success`, and wrote `stdout` and `stderr`.
pub fn probe_result(success: bool, stdout: &[u8], stderr: &[u8], status: &str) -> (r: Result<
    String,
    String,
>)
    ensures
        match r {
            Ok(s) => probe_result_spec(success, stdout@, stderr@, status@) == Ok::<
                Seq<char>,
                Seq<char>,
            >(s@),
            Err(e) => probe_result_spec(success, stdout@, stderr@, status@) == Err::<
                Seq<char>,
                Seq<char>,
            >(e@),
        },
{
    if success {
        return Ok(decode_lossy(stdout));
    }
    let err_text = decode_lossy(stderr);
    let out_text = decode_lossy(stdout);
    let err = trimmed(err_text.as_str());
    let out = trimmed(out_text.as_str());
    let msg = if err.unicode_len() > 0 {
        err
    } else {
        out
    };
    if msg.unicode_len() == 0 {
        let mut m = String::from_str("ssh exited with status ");
        m.append(status);
        Err(m)
    } else {
        Err(msg)
    }
}

} // verus!
