//! Finding hosts to import in the user's OpenSSH client configuration.
//!
//! A configuration file is read line by line. `Host` opens a block for the
//! aliases it names (patterns and negations are not importable), the options
//! that follow fill that block in, and the block becomes one candidate per
//! alias when the next `Host` or `Match` line, or the end of the file, closes
//! it. Comments start at a `#` outside quotes.
use vstd::prelude::*;
use crate::decimal::{parse_bounded, parse_unsigned};
use crate::host_probe::{opt_view, string_views};
use crate::models::DEFAULT_SSH_PORT;
use crate::text::{
    chars_of, has_char, lemma_lt_irreflexive_asym, lemma_lt_total,
    lemma_lt_transitive, line_bounds, seq_lt, str_lt, lines_of, push_char, range_eq_ignore_case,
    eq_ignore_case, string_of, string_of_range, trim, trim_bounds, trimmed, word_bounds,
    words_of,
};

verus! {

/// A host found in an SSH configuration file.
#[derive(Clone)]
pub struct SshImportCandidate {
    pub alias: String,
    pub hostname: String,
    pub user: String,
    pub port: u16,
    pub identity_file: Option<String>,
    pub proxy_jump: Option<String>,
    pub source_path: String,
}

/// A candidate as plain values.
pub struct CandidateView {
    pub alias: Seq<char>,
    pub hostname: Seq<char>,
    pub user: Seq<char>,
    pub port: u16,
    pub identity_file: Option<Seq<char>>,
    pub proxy_jump: Option<Seq<char>>,
    pub source_path: Seq<char>,
}

impl View for SshImportCandidate {
    type V = CandidateView;

    open spec fn view(&self) -> CandidateView {
        CandidateView {
            alias: self.alias@,
            hostname: self.hostname@,
            user: self.user@,
            port: self.port,
            identity_file: opt_view(self.identity_file),
            proxy_jump: opt_view(self.proxy_jump),
            source_path: self.source_path@,
        }
    }
}

pub open spec fn candidate_views(v: Seq<SshImportCandidate>) -> Seq<CandidateView> {
    v.map_values(|c: SshImportCandidate| c@)
}

/// The state that `strip_comments` carries from one character to the next:
/// the text kept, whether a single or a double quote is open, and whether a
/// comment has begun.
pub open spec fn strip_state(s: Seq<char>) -> (Seq<char>, bool, bool, bool)
    decreases s.len(),
{
    if s.len() == 0 {
        (Seq::empty(), false, false, false)
    } else {
        let (kept, single, double, done) = strip_state(s.drop_last());
        let c = s.last();
        if done {
            (kept, single, double, done)
        } else if c == '\'' && !double {
            (kept.push(c), !single, double, false)
        } else if c == '"' && !single {
            (kept.push(c), single, !double, false)
        } else if c == '#' && !single && !double {
            (kept, single, double, true)
        } else {
            (kept.push(c), single, double, false)
        }
    }
}

/// `s` up to its first `#` that is outside quotes.
pub open spec fn without_comment(s: Seq<char>) -> Seq<char> {
    strip_state(s).0
}

fn strip_comment_chars(cs: &[char], lo: usize, hi: usize) -> (r: Vec<char>)
    requires
        lo <= hi <= cs@.len(),
    ensures
        r@ == without_comment(cs@.subrange(lo as int, hi as int)),
{
    let mut out: Vec<char> = Vec::new();
    let mut single = false;
    let mut double = false;
    let mut i: usize = lo;
    while i < hi
        invariant
            lo <= i <= hi <= cs@.len(),
            strip_state(cs@.subrange(lo as int, i as int)) == (out@, single, double, false),
        decreases hi - i,
    {
        let c = cs[i];
        let ghost s1 = cs@.subrange(lo as int, i as int + 1);
        assert(s1.drop_last() =~= cs@.subrange(lo as int, i as int));
        if c == '\'' && !double {
            single = !single;
            out.push(c);
        } else if c == '"' && !single {
            double = !double;
            out.push(c);
        } else if c == '#' && !single && !double {
            proof {
                assert(cs@.subrange(lo as int, hi as int).take(i - lo + 1) =~= s1);
                assert(strip_state(s1).3);
                lemma_strip_done(cs@.subrange(lo as int, hi as int), i - lo + 1);
            }
            return out;
        } else {
            out.push(c);
        }
        i += 1;
    }
    out
}

proof fn lemma_strip_done(s: Seq<char>, n: int)
    requires
        0 <= n <= s.len(),
        strip_state(s.take(n)).3,
    ensures
        strip_state(s).0 == strip_state(s.take(n)).0,
    decreases s.len() - n,
{
    if n < s.len() {
        assert(s.take(n + 1).drop_last() =~= s.take(n));
        lemma_strip_done(s, n + 1);
    } else {
        assert(s.take(n) =~= s);
    }
}

/// `input` without its comment: from the first `#` outside single or double
/// quotes on.
pub fn strip_comments(input: &str) -> (r: String)
    ensures
        r@ == without_comment(input@),
{
    let cs = chars_of(input);
    assert(cs@.subrange(0, cs@.len() as int) =~= input@);
    let kept = strip_comment_chars(cs.as_slice(), 0, cs.len());
    string_of(kept.as_slice())
}

/// An alias that names one host: not empty, and neither a pattern (`*`,
/// `?`) nor a negation (`!`).
pub open spec fn importable(alias: Seq<char>) -> bool {
    &&& alias.len() > 0
    &&& alias[0] != '!'
    &&& !has_char(alias, '*')
    &&& !has_char(alias, '?')
    &&& !has_char(alias, '!')
}

/// Whether `alias` names one host rather than a pattern.
pub fn is_importable_alias(alias: &str) -> (r: bool)
    ensures
        r == importable(alias@),
{
    let cs = chars_of(alias);
    if cs.len() == 0 || cs[0] == '!' {
        return false;
    }
    let mut i: usize = 0;
    while i < cs.len()
        invariant
            i <= cs@.len(),
            cs@ == alias@,
            forall|j: int| 0 <= j < i ==> cs@[j] != '*' && cs@[j] != '?' && cs@[j] != '!',
        decreases cs@.len() - i,
    {
        if cs[i] == '*' || cs[i] == '?' || cs[i] == '!' {
            return false;
        }
        i += 1;
    }
    true
}

/// The options given so far in a `Host` block.
pub struct OptionsView {
    pub hostname: Option<Seq<char>>,
    pub user: Option<Seq<char>>,
    pub port: Option<u16>,
    pub identity_file: Option<Seq<char>>,
    pub proxy_jump: Option<Seq<char>>,
}

pub open spec fn no_options() -> OptionsView {
    OptionsView { hostname: None, user: None, port: None, identity_file: None, proxy_jump: None }
}

struct HostOptions {
    hostname: Option<String>,
    user: Option<String>,
    port: Option<u16>,
    identity_file: Option<String>,
    proxy_jump: Option<String>,
}

impl View for HostOptions {
    type V = OptionsView;

    closed spec fn view(&self) -> OptionsView {
        OptionsView {
            hostname: opt_view(self.hostname),
            user: opt_view(self.user),
            port: self.port,
            identity_file: opt_view(self.identity_file),
            proxy_jump: opt_view(self.proxy_jump),
        }
    }
}

impl HostOptions {
    fn none() -> (r: HostOptions)
        ensures
            r@ == no_options(),
    {
        HostOptions { hostname: None, user: None, port: None, identity_file: None, proxy_jump: None }
    }
}

/// The host name of the candidate for `alias`: the `HostName` option when it
/// holds more than white space, else the alias itself.
pub open spec fn hostname_for(alias: Seq<char>, opts: OptionsView) -> Seq<char> {
    match opts.hostname {
        Some(h) => if trim(h).len() > 0 {
            h
        } else {
            alias
        },
        None => alias,
    }
}

pub open spec fn candidate_for(alias: Seq<char>, opts: OptionsView, source: Seq<char>) -> CandidateView {
    CandidateView {
        alias,
        hostname: hostname_for(alias, opts),
        user: match opts.user {
            Some(u) => u,
            None => Seq::empty(),
        },
        port: match opts.port {
            Some(p) => p,
            None => DEFAULT_SSH_PORT,
        },
        identity_file: opts.identity_file,
        proxy_jump: opts.proxy_jump,
        source_path: source,
    }
}

/// One candidate for each alias of a block that holds more than white space.
pub open spec fn candidates_for(aliases: Seq<Seq<char>>, opts: OptionsView, source: Seq<char>) -> Seq<
    CandidateView,
>
    decreases aliases.len(),
{
    if aliases.len() == 0 {
        Seq::empty()
    } else {
        let before = candidates_for(aliases.drop_last(), opts, source);
        if trim(aliases.last()).len() == 0 {
            before
        } else {
            before.push(candidate_for(aliases.last(), opts, source))
        }
    }
}

/// Where the reading of a configuration file stands after some lines: the
/// candidates of the blocks closed so far, and the open block.
pub struct ParseView {
    pub out: Seq<CandidateView>,
    pub aliases: Seq<Seq<char>>,
    pub opts: OptionsView,
}

/// `st` with its open block closed.
pub open spec fn flushed(st: ParseView, source: Seq<char>) -> ParseView {
    if st.aliases.len() == 0 {
        st
    } else {
        ParseView {
            out: st.out + candidates_for(st.aliases, st.opts, source),
            aliases: Seq::empty(),
            opts: no_options(),
        }
    }
}

/// `words` joined by single spaces.
pub open spec fn join_words(words: Seq<Seq<char>>) -> Seq<char>
    decreases words.len(),
{
    if words.len() == 0 {
        Seq::empty()
    } else if words.len() == 1 {
        words[0]
    } else {
        join_words(words.drop_last()) + seq![' '] + words.last()
    }
}

/// The importable words among `words`, in order.
pub open spec fn importable_words(words: Seq<Seq<char>>) -> Seq<Seq<char>>
    decreases words.len(),
{
    if words.len() == 0 {
        Seq::empty()
    } else {
        let before = importable_words(words.drop_last());
        if importable(words.last()) {
            before.push(words.last())
        } else {
            before
        }
    }
}

/// Reads one line of a configuration file. The line's first word is the
/// keyword, matched without regard to ASCII case; the rest, joined by single
/// spaces, is the value.
pub open spec fn parse_step(st: ParseView, raw: Seq<char>, source: Seq<char>) -> ParseView {
    let words = words_of(trim(without_comment(raw)));
    if words.len() == 0 {
        st
    } else {
        let key = words[0];
        let args = words.skip(1);
        let value = join_words(args);
        if eq_ignore_case(key, "Host"@) {
            let f = flushed(st, source);
            ParseView { out: f.out, aliases: importable_words(args), opts: f.opts }
        } else if eq_ignore_case(key, "Match"@) {
            flushed(st, source)
        } else if st.aliases.len() == 0 || value.len() == 0 {
            st
        } else if eq_ignore_case(key, "HostName"@) {
            ParseView { opts: OptionsView { hostname: Some(value), ..st.opts }, ..st }
        } else if eq_ignore_case(key, "User"@) {
            ParseView { opts: OptionsView { user: Some(value), ..st.opts }, ..st }
        } else if eq_ignore_case(key, "Port"@) {
            match parse_bounded(value, u16::MAX as nat) {
                Some(p) => ParseView { opts: OptionsView { port: Some(p as u16), ..st.opts }, ..st },
                None => st,
            }
        } else if eq_ignore_case(key, "IdentityFile"@) {
            ParseView { opts: OptionsView { identity_file: Some(value), ..st.opts }, ..st }
        } else if eq_ignore_case(key, "ProxyJump"@) {
            ParseView { opts: OptionsView { proxy_jump: Some(value), ..st.opts }, ..st }
        } else {
            st
        }
    }
}

/// The state after the lines `lines`.
pub open spec fn parse_fold(lines: Seq<Seq<char>>, source: Seq<char>) -> ParseView
    decreases lines.len(),
{
    if lines.len() == 0 {
        ParseView { out: Seq::empty(), aliases: Seq::empty(), opts: no_options() }
    } else {
        parse_step(parse_fold(lines.drop_last(), source), lines.last(), source)
    }
}

/// The candidates that the configuration text `content` gives.
pub open spec fn config_candidates(content: Seq<char>, source: Seq<char>) -> Seq<CandidateView> {
    flushed(parse_fold(lines_of(content), source), source).out
}

/// The words `ws[from..]` of `cs`, joined by single spaces.
fn join_from(cs: &[char], ws: &Vec<(usize, usize)>, words: Ghost<Seq<Seq<char>>>) -> (r: String)
    requires
        ws@.len() == words@.len() >= 1,
        forall|m: int|
            0 <= m < ws@.len() ==> {
                &&& (#[trigger] ws@[m]).0 <= ws@[m].1 <= cs@.len()
                &&& cs@.subrange(ws@[m].0 as int, ws@[m].1 as int) == words@[m]
            },
    ensures
        r@ == join_words(words@.skip(1)),
{
    let mut out = String::new();
    let mut k: usize = 1;
    assert(words@.subrange(1, 1) =~= Seq::<Seq<char>>::empty());
    while k < ws.len()
        invariant
            1 <= k <= ws@.len() == words@.len(),
            forall|m: int|
                0 <= m < ws@.len() ==> {
                    &&& (#[trigger] ws@[m]).0 <= ws@[m].1 <= cs@.len()
                    &&& cs@.subrange(ws@[m].0 as int, ws@[m].1 as int) == words@[m]
                },
            out@ == join_words(words@.subrange(1, k as int)),
        decreases ws@.len() - k,
    {
        let ghost sub = words@.subrange(1, k as int + 1);
        assert(sub.drop_last() =~= words@.subrange(1, k as int));
        assert(sub.last() == words@[k as int]);
        let (lo, hi) = ws[k];
        let w = string_of_range(cs, lo, hi);
        if k > 1 {
            push_char(&mut out, ' ');
        } else {
            assert(sub[0] == words@[1]);
        }
        out.append(w.as_str());
        k += 1;
    }
    assert(words@.subrange(1, k as int) =~= words@.skip(1));
    out
}

/// The importable words among `ws[1..]`.
fn importable_from(cs: &[char], ws: &Vec<(usize, usize)>, words: Ghost<Seq<Seq<char>>>) -> (r: Vec<
    String,
>)
    requires
        ws@.len() == words@.len() >= 1,
        forall|m: int|
            0 <= m < ws@.len() ==> {
                &&& (#[trigger] ws@[m]).0 <= ws@[m].1 <= cs@.len()
                &&& cs@.subrange(ws@[m].0 as int, ws@[m].1 as int) == words@[m]
            },
    ensures
        string_views(r@) == importable_words(words@.skip(1)),
{
    let mut out: Vec<String> = Vec::new();
    let mut k: usize = 1;
    assert(words@.subrange(1, 1) =~= Seq::<Seq<char>>::empty());
    assert(string_views(out@) =~= Seq::<Seq<char>>::empty());
    while k < ws.len()
        invariant
            1 <= k <= ws@.len() == words@.len(),
            forall|m: int|
                0 <= m < ws@.len() ==> {
                    &&& (#[trigger] ws@[m]).0 <= ws@[m].1 <= cs@.len()
                    &&& cs@.subrange(ws@[m].0 as int, ws@[m].1 as int) == words@[m]
                },
            string_views(out@) == importable_words(words@.subrange(1, k as int)),
        decreases ws@.len() - k,
    {
        let ghost sub = words@.subrange(1, k as int + 1);
        assert(sub.drop_last() =~= words@.subrange(1, k as int));
        assert(sub.last() == words@[k as int]);
        let (lo, hi) = ws[k];
        let w = string_of_range(cs, lo, hi);
        let ghost pre = string_views(out@);
        if is_importable_alias(w.as_str()) {
            out.push(w);
            assert(string_views(out@) =~= pre.push(words@[k as int]));
        }
        k += 1;
    }
    assert(words@.subrange(1, k as int) =~= words@.skip(1));
    out
}

fn clone_opt(o: &Option<String>) -> (r: Option<String>)
    ensures
        opt_view(r) == opt_view(*o),
{
    match o {
        Some(s) => Some(s.clone()),
        None => None,
    }
}

/// Closes the open block: one candidate for each of its aliases.
fn flush_current(
    out: &mut Vec<SshImportCandidate>,
    aliases: &mut Vec<String>,
    opts: &mut HostOptions,
    source_path: &str,
)
    ensures
        flushed(
            ParseView {
                out: candidate_views(old(out)@),
                aliases: string_views(old(aliases)@),
                opts: old(opts)@,
            },
            source_path@,
        ) == (ParseView {
            out: candidate_views(final(out)@),
            aliases: string_views(final(aliases)@),
            opts: final(opts)@,
        }),
{
    if aliases.len() == 0 {
        assert(string_views(aliases@) =~= Seq::<Seq<char>>::empty());
        return;
    }
    let ghost out0 = candidate_views(out@);
    let ghost names = string_views(aliases@);
    let mut i: usize = 0;
    assert(names.take(0) =~= Seq::<Seq<char>>::empty());
    assert(out0 + Seq::<CandidateView>::empty() =~= out0);
    while i < aliases.len()
        invariant
            i <= aliases@.len(),
            names == string_views(aliases@),
            candidate_views(out@) == out0 + candidates_for(names.take(i as int), opts@, source_path@),
        decreases aliases@.len() - i,
    {
        let alias = &aliases[i];
        let ghost sub = names.take(i as int + 1);
        assert(sub.drop_last() =~= names.take(i as int));
        assert(sub.last() == alias@);
        let t = trimmed(alias.as_str());
        if t.unicode_len() != 0 {
            let hostname = match &opts.hostname {
                Some(h) => if trimmed(h.as_str()).unicode_len() > 0 {
                    h.clone()
                } else {
                    alias.clone()
                },
                None => alias.clone(),
            };
            let user = match &opts.user {
                Some(u) => u.clone(),
                None => String::new(),
            };
            let port = match opts.port {
                Some(p) => p,
                None => DEFAULT_SSH_PORT,
            };
            let c = SshImportCandidate {
                alias: alias.clone(),
                hostname,
                user,
                port,
                identity_file: clone_opt(&opts.identity_file),
                proxy_jump: clone_opt(&opts.proxy_jump),
                source_path: String::from_str(source_path),
            };
            let ghost pre = candidate_views(out@);
            assert(c@ == candidate_for(alias@, opts@, source_path@));
            out.push(c);
            assert(candidate_views(out@) =~= pre.push(c@));
            assert(out0 + candidates_for(sub, opts@, source_path@) =~= pre.push(c@));
        } else {
            assert(candidates_for(sub, opts@, source_path@) == candidates_for(
                names.take(i as int),
                opts@,
                source_path@,
            ));
        }
        i += 1;
    }
    assert(names.take(i as int) =~= names);
    aliases.clear();
    *opts = HostOptions::none();
    assert(string_views(aliases@) =~= Seq::<Seq<char>>::empty());
}

/// The candidates that the configuration text `content`, read from the file
/// `source_path`, gives, in the order of their aliases in the text.
pub fn parse_config(content: &str, source_path: &str) -> (r: Vec<SshImportCandidate>)
    ensures
        candidate_views(r@) == config_candidates(content@, source_path@),
{
    let cs = chars_of(content);
    let bounds = line_bounds(cs.as_slice());
    let ghost lines = lines_of(content@);
    let ghost src = source_path@;
    let mut out: Vec<SshImportCandidate> = Vec::new();
    let mut aliases: Vec<String> = Vec::new();
    let mut opts = HostOptions::none();
    let mut j: usize = 0;
    assert(candidate_views(out@) =~= Seq::<CandidateView>::empty());
    assert(string_views(aliases@) =~= Seq::<Seq<char>>::empty());
    while j < bounds.len()
        invariant
            cs@ == content@,
            j <= bounds@.len() == lines.len(),
            lines == lines_of(cs@),
            src == source_path@,
            forall|m: int|
                0 <= m < bounds@.len() ==> {
                    &&& (#[trigger] bounds@[m]).0 <= bounds@[m].1 <= cs@.len()
                    &&& cs@.subrange(bounds@[m].0 as int, bounds@[m].1 as int) == lines[m]
                },
            (ParseView {
                out: candidate_views(out@),
                aliases: string_views(aliases@),
                opts: opts@,
            }) == parse_fold(lines.take(j as int), src),
        decreases bounds@.len() - j,
    {
        let ghost st = parse_fold(lines.take(j as int), src);
        assert(lines.take(j as int + 1).drop_last() =~= lines.take(j as int));
        assert(lines.take(j as int + 1).last() == lines[j as int]);
        let (lo, hi) = bounds[j];
        let sc = strip_comment_chars(cs.as_slice(), lo, hi);
        let (a, b) = trim_bounds(sc.as_slice(), 0, sc.len());
        assert(sc@.subrange(0, sc@.len() as int) =~= sc@);
        let ws = word_bounds(sc.as_slice(), a, b);
        let ghost words = words_of(sc@.subrange(a as int, b as int));
        if ws.len() > 0 {
            let (k0, k1) = ws[0];
            if range_eq_ignore_case(sc.as_slice(), k0, k1, "Host") {
                flush_current(&mut out, &mut aliases, &mut opts, source_path);
                aliases = importable_from(sc.as_slice(), &ws, Ghost(words));
            } else if range_eq_ignore_case(sc.as_slice(), k0, k1, "Match") {
                flush_current(&mut out, &mut aliases, &mut opts, source_path);
            } else if aliases.len() > 0 {
                let value = join_from(sc.as_slice(), &ws, Ghost(words));
                if value.unicode_len() > 0 {
                    if range_eq_ignore_case(sc.as_slice(), k0, k1, "HostName") {
                        opts.hostname = Some(value);
                    } else if range_eq_ignore_case(sc.as_slice(), k0, k1, "User") {
                        opts.user = Some(value);
                    } else if range_eq_ignore_case(sc.as_slice(), k0, k1, "Port") {
                        match parse_unsigned(value.as_str(), u16::MAX as u64) {
                            Some(p) => {
                                opts.port = Some(p as u16);
                            },
                            None => {},
                        }
                    } else if range_eq_ignore_case(sc.as_slice(), k0, k1, "IdentityFile") {
                        opts.identity_file = Some(value);
                    } else if range_eq_ignore_case(sc.as_slice(), k0, k1, "ProxyJump") {
                        opts.proxy_jump = Some(value);
                    }
                }
            } else {
                assert(string_views(aliases@).len() == 0);
            }
        }
        j += 1;
    }
    assert(lines.take(j as int) =~= lines);
    flush_current(&mut out, &mut aliases, &mut opts, source_path);
    out
}

/// What lower-casing `s` gives.
pub uninterp spec fn lowercase_of(s: Seq<char>) -> Seq<char>;

/// Relies on `str::to_lowercase`: the result depends on the characters
/// alone.
#[verifier::external_body]
fn lowercase(s: &str) -> (r: String)
    ensures
        r@ == lowercase_of(s@),
{
    s.to_lowercase()
}

/// Candidates are told apart by their lower-cased alias.
pub open spec fn alias_key(c: CandidateView) -> Seq<char> {
    lowercase_of(c.alias)
}

/// The candidates of `cands` whose alias key no earlier candidate has.
pub open spec fn first_of_each(cands: Seq<CandidateView>) -> Seq<CandidateView>
    decreases cands.len(),
{
    if cands.len() == 0 {
        Seq::empty()
    } else {
        let before = first_of_each(cands.drop_last());
        if exists|j: int| 0 <= j < before.len() && alias_key(before[j]) == alias_key(cands.last()) {
            before
        } else {
            before.push(cands.last())
        }
    }
}

/// Alias keys increase strictly along `s`.
pub open spec fn sorted_by_key(s: Seq<CandidateView>) -> bool {
    forall|i: int, j: int|
        0 <= i < j < s.len() ==> seq_lt(alias_key(#[trigger] s[i]), alias_key(#[trigger] s[j]))
}

/// The hosts to offer for import from the candidates of all configuration
/// files, in file order: the first candidate of each alias (aliases compared
/// lower-cased), sorted by lower-cased alias.
pub fn merge_candidates(cands: Vec<SshImportCandidate>) -> (r: Vec<SshImportCandidate>)
    ensures
        sorted_by_key(candidate_views(r@)),
        r@.len() == first_of_each(candidate_views(cands@)).len(),
        forall|x: CandidateView|
            candidate_views(r@).contains(x) <==> first_of_each(candidate_views(cands@)).contains(x),
{
    let ghost all = candidate_views(cands@);
    let n = cands.len();
    let mut rest = cands;
    let mut kept: Vec<SshImportCandidate> = Vec::new();
    let mut keys: Vec<String> = Vec::new();
    let mut i: usize = 0;
    assert(all.take(0) =~= Seq::<CandidateView>::empty());
    assert(candidate_views(kept@) =~= Seq::<CandidateView>::empty());
    while i < n
        invariant
            i <= n == all.len(),
            candidate_views(rest@) == all.skip(i as int),
            rest@.len() == n - i,
            keys@.len() == kept@.len(),
            forall|m: int| 0 <= m < keys@.len() ==> (#[trigger] keys@[m])@ == alias_key(kept@[m]@),
            sorted_by_key(candidate_views(kept@)),
            kept@.len() == first_of_each(all.take(i as int)).len(),
            forall|x: CandidateView|
                candidate_views(kept@).contains(x) <==> first_of_each(all.take(i as int)).contains(x),
        decreases n - i,
    {
        let ghost kv = candidate_views(kept@);
        let ghost before = first_of_each(all.take(i as int));
        assert(all.take(i as int + 1).drop_last() =~= all.take(i as int));
        assert(all.take(i as int + 1).last() == all[i as int]);
        assert(candidate_views(rest@)[0] == all[i as int]);
        let ghost old_rest = rest@;
        assert(old_rest[0]@ == all[i as int]);
        let c = rest.remove(0);
        assert forall|m: int| 0 <= m < rest@.len() implies rest@[m]@ == all.skip(
            i as int + 1,
        )[m] by {
            assert(rest@[m] == old_rest[m + 1]);
            assert(candidate_views(old_rest)[m + 1] == all.skip(i as int)[m + 1]);
        }
        assert(candidate_views(rest@) =~= all.skip(i as int + 1));
        assert(c@ == all[i as int]);
        let key = lowercase(c.alias.as_str());
        let mut pos: usize = 0;
        while pos < keys.len() && str_lt(keys[pos].as_str(), key.as_str())
            invariant
                pos <= keys@.len(),
                forall|m: int| 0 <= m < pos ==> seq_lt((#[trigger] keys@[m])@, key@),
            decreases keys@.len() - pos,
        {
            pos += 1;
        }
        if pos < keys.len() && keys[pos] == key {
            proof {
                assert(kv[pos as int] == kept@[pos as int]@);
                assert(kv.contains(kv[pos as int]));
                assert(before.contains(kv[pos as int]));
                let j = choose|j: int| 0 <= j < before.len() && before[j] == kv[pos as int];
                assert(alias_key(before[j]) == alias_key(all[i as int]));
            }
        } else {
            proof {
                assert forall|m: int| 0 <= m < kv.len() implies alias_key(kv[m]) != key@ && (m
                    < pos ==> seq_lt(alias_key(kv[m]), key@)) && (m >= pos ==> seq_lt(
                    key@,
                    alias_key(kv[m]),
                )) by {
                    assert(kv[m] == kept@[m]@);
                    assert(keys@[m]@ == alias_key(kv[m]));
                    if m < pos {
                        lemma_lt_irreflexive_asym(key@, key@);
                    } else {
                        assert(keys@[pos as int]@ == alias_key(kv[pos as int]));
                        assert(keys@[pos as int]@ != key@);
                        lemma_lt_total(keys@[pos as int]@, key@);
                        if m > pos {
                            lemma_lt_transitive(key@, alias_key(kv[pos as int]), alias_key(kv[m]));
                        }
                        lemma_lt_irreflexive_asym(key@, alias_key(kv[m]));
                    }
                }
                if exists|j: int|
                    0 <= j < before.len() && alias_key(before[j]) == alias_key(all[i as int]) {
                    let j = choose|j: int|
                        0 <= j < before.len() && alias_key(before[j]) == alias_key(all[i as int]);
                    assert(before.contains(before[j]));
                    assert(kv.contains(before[j]));
                    let m = choose|m: int| 0 <= m < kv.len() && kv[m] == before[j];
                    assert(alias_key(kv[m]) != key@);
                }
                assert(first_of_each(all.take(i as int + 1)) == before.push(c@));
            }
            let ghost cv = c@;
            let ghost old_kept = kept@;
            let ghost old_keys = keys@;
            kept.insert(pos, c);
            keys.insert(pos, key);
            proof {
                let nkv = candidate_views(kept@);
                assert(nkv =~= kv.insert(pos as int, cv));
                assert forall|m: int| 0 <= m < keys@.len() implies (#[trigger] keys@[m])@ == alias_key(
                    kept@[m]@,
                ) by {
                    if m < pos {
                        assert(kept@[m] == old_kept[m] && keys@[m] == old_keys[m]);
                    } else if m > pos {
                        assert(kept@[m] == old_kept[m - 1] && keys@[m] == old_keys[m - 1]);
                    }
                }
                assert forall|a: int, b: int| 0 <= a < b < nkv.len() implies seq_lt(
                    alias_key(#[trigger] nkv[a]),
                    alias_key(#[trigger] nkv[b]),
                ) by {
                    if b < pos {
                        assert(nkv[a] == kv[a] && nkv[b] == kv[b]);
                    } else if b == pos {
                        assert(nkv[a] == kv[a]);
                    } else if a == pos {
                        assert(nkv[b] == kv[b - 1]);
                    } else if a < pos {
                        assert(nkv[a] == kv[a] && nkv[b] == kv[b - 1]);
                    } else {
                        assert(nkv[a] == kv[a - 1] && nkv[b] == kv[b - 1]);
                    }
                }
                assert forall|x: CandidateView| nkv.contains(x) <==> before.push(cv).contains(x) by {
                    if nkv.contains(x) {
                        let m = choose|m: int| 0 <= m < nkv.len() && nkv[m] == x;
                        if m != pos {
                            let m2 = if m < pos { m } else { m - 1 };
                            assert(kv[m2] == x);
                            assert(kv.contains(x));
                            let j = choose|j: int| 0 <= j < before.len() && before[j] == x;
                            assert(before.push(cv)[j] == x);
                        } else {
                            assert(before.push(cv)[before.len() as int] == x);
                        }
                    }
                    if before.push(cv).contains(x) {
                        let j = choose|j: int| 0 <= j < before.len() + 1 && before.push(cv)[j] == x;
                        if j == before.len() {
                            assert(nkv[pos as int] == x);
                        } else {
                            assert(before[j] == x);
                            assert(before.contains(x));
                            assert(kv.contains(x));
                            let m = choose|m: int| 0 <= m < kv.len() && kv[m] == x;
                            let m2 = if m < pos { m } else { m + 1 };
                            assert(nkv[m2] == x);
                        }
                    }
                }
            }
        }
        i += 1;
    }
    assert(all.take(n as int) =~= all);
    kept
}

/// A file name that holds SSH client configuration: `config` in any ASCII
/// case, or a name ending in `.conf`.
pub open spec fn config_file_name(name: Seq<char>) -> bool {
    eq_ignore_case(name, "config"@) || (5 <= name.len() && name.skip(name.len() - 5) == ".conf"@)
}

/// Whether the file `name` is read for hosts to import.
pub fn is_config_file_name(name: &str) -> (r: bool)
    ensures
        r == config_file_name(name@),
{
    let cs = chars_of(name);
    assert(cs@.subrange(0, cs@.len() as int) =~= name@);
    if range_eq_ignore_case(cs.as_slice(), 0, cs.len(), "config") {
        return true;
    }
    let n = cs.len();
    if n < 5 {
        return false;
    }
    let tail = string_of_range(cs.as_slice(), n - 5, n);
    assert(tail@ =~= name@.skip(n - 5));
    tail == String::from_str(".conf")
}

} // verus!
