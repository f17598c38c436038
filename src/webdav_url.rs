//! Where on a WebDAV server the host database is kept.
//!
//! The user gives a URL that may point at a directory or at a file; these
//! functions turn it into the URL of a named file, optionally inside a
//! folder. Parsing and editing URLs is left to the `url` crate.
use vstd::prelude::*;
use url::Url;
use crate::host_probe::opt_view;
use crate::text::{chars_of, string_of_range, trim, trimmed};

verus! {

/// The serialization and the path of the URL `raw`, when it parses.
pub uninterp spec fn url_parts_of(raw: Seq<char>) -> Option<(Seq<char>, Seq<char>)>;

/// The URL `url` with a trailing empty path segment removed, when its path
/// can be edited.
pub uninterp spec fn popped_if_empty(url: Seq<char>) -> Option<Seq<char>>;

/// The URL `url` without its last path segment, when its path can be edited.
pub uninterp spec fn popped(url: Seq<char>) -> Option<Seq<char>>;

/// The URL `url` with the path segment `seg` appended, when its path can be
/// edited.
pub uninterp spec fn pushed(url: Seq<char>, seg: Seq<char>) -> Option<Seq<char>>;

/// Relies on `url::Url::parse`, `Url::as_str` and `Url::path`: the URL's
/// serialization and path, or the parse error's message.
#[verifier::external_body]
fn parse_url(raw: &str) -> (r: Result<(String, String), String>)
    ensures
        match r {
            Ok((s, p)) => url_parts_of(raw@) == Some((s@, p@)),
            Err(_) => url_parts_of(raw@) is None,
        },
{
    match Url::parse(raw) {
        Ok(u) => Ok((u.as_str().to_string(), u.path().to_string())),
        Err(e) => Err(e.to_string()),
    }
}

/// Relies on `url::PathSegmentsMut::pop_if_empty`, on the URL parsed anew
/// from its serialization.
#[verifier::external_body]
fn url_pop_if_empty(url: &str) -> (r: Option<String>)
    ensures
        opt_view(r) == popped_if_empty(url@),
{
    let mut u = Url::parse(url).ok()?;
    u.path_segments_mut().ok()?.pop_if_empty();
    Some(u.as_str().to_string())
}

/// Relies on `url::PathSegmentsMut::pop`, on the URL parsed anew from its
/// serialization.
#[verifier::external_body]
fn url_pop(url: &str) -> (r: Option<String>)
    ensures
        opt_view(r) == popped(url@),
{
    let mut u = Url::parse(url).ok()?;
    u.path_segments_mut().ok()?.pop();
    Some(u.as_str().to_string())
}

/// Relies on `url::PathSegmentsMut::push`, on the URL parsed anew from its
/// serialization.
#[verifier::external_body]
fn url_push(url: &str, seg: &str) -> (r: Option<String>)
    ensures
        opt_view(r) == pushed(url@, seg@),
{
    let mut u = Url::parse(url).ok()?;
    u.path_segments_mut().ok()?.push(seg);
    Some(u.as_str().to_string())
}

/// The last segment of a URL path: what follows its last `/`.
pub open spec fn last_segment(path: Seq<char>) -> Seq<char>
    decreases path.len(),
{
    if path.len() == 0 || path.last() == '/' {
        Seq::empty()
    } else {
        last_segment(path.drop_last()).push(path.last())
    }
}

pub open spec fn has_suffix(s: Seq<char>, suffix: Seq<char>) -> bool {
    suffix.len() <= s.len() && s.skip(s.len() - suffix.len()) == suffix
}

/// A segment named like a database file.
pub open spec fn looks_like_file(seg: Seq<char>) -> bool {
    has_suffix(seg, ".db"@) || has_suffix(seg, ".json"@) || has_suffix(seg, ".sqlite"@)
}

/// How resolving a URL ends.
pub enum Resolution {
    /// No URL was given.
    NotConfigured,
    /// The URL does not parse.
    Invalid,
    /// The URL's path cannot be edited.
    CannotModify,
    /// The URL of the file.
    Resolved(Seq<char>),
}

pub open spec fn resolved_or_stuck(u: Option<Seq<char>>) -> Resolution {
    match u {
        Some(s) => Resolution::Resolved(s),
        None => Resolution::CannotModify,
    }
}

/// `seg` pushed onto `u`, when there is a `u`.
pub open spec fn then_push(u: Option<Seq<char>>, seg: Seq<char>) -> Option<Seq<char>> {
    match u {
        Some(s) => pushed(s, seg),
        None => None,
    }
}

/// The URL of the file `filename` at the location `input`: the URL itself
/// when it already names that file; the file inside it when it names a
/// directory (its last segment is empty) or a segment without a database
/// extension; the file beside it when it names another database file.
pub open spec fn resolve_spec(input: Seq<char>, filename: Seq<char>) -> Resolution {
    let raw = trim(input);
    if raw.len() == 0 {
        Resolution::NotConfigured
    } else {
        match url_parts_of(raw) {
            None => Resolution::Invalid,
            Some((ser, path)) => {
                let last = last_segment(path);
                if last == filename {
                    Resolution::Resolved(ser)
                } else if last.len() == 0 {
                    resolved_or_stuck(then_push(popped_if_empty(ser), filename))
                } else if looks_like_file(last) {
                    resolved_or_stuck(then_push(popped(ser), filename))
                } else {
                    resolved_or_stuck(pushed(ser, filename))
                }
            },
        }
    }
}

/// `s` without leading and trailing `/`.
pub open spec fn strip_slashes(s: Seq<char>) -> Seq<char>
    decreases s.len(),
{
    if s.len() > 0 && s[0] == '/' {
        strip_slashes(s.drop_first())
    } else if s.len() > 0 && s.last() == '/' {
        strip_slashes(s.drop_last())
    } else {
        s
    }
}

/// The URL of the file `filename` inside the folder `folder` at the location
/// `input`. A URL that already names a database file is resolved as
/// `resolve_spec` does, and the folder is ignored.
pub open spec fn resolve_with_folder_spec(
    input: Seq<char>,
    folder: Option<Seq<char>>,
    filename: Seq<char>,
) -> Resolution {
    let raw = trim(input);
    let dir = strip_slashes(
        trim(
            match folder {
                Some(f) => f,
                None => Seq::empty(),
            },
        ),
    );
    if raw.len() == 0 {
        Resolution::NotConfigured
    } else {
        match url_parts_of(raw) {
            None => Resolution::Invalid,
            Some((ser, path)) => if looks_like_file(last_segment(path)) {
                resolve_spec(raw, filename)
            } else {
                let base = popped_if_empty(ser);
                let in_dir = if dir.len() > 0 {
                    then_push(base, dir)
                } else {
                    base
                };
                resolved_or_stuck(then_push(in_dir, filename))
            },
        }
    }
}

/// `r` is how `res` is reported: the URL, or an error message.
pub open spec fn reports(r: Result<String, String>, res: Resolution) -> bool {
    match res {
        Resolution::Resolved(u) => r matches Ok(s) && s@ == u,
        Resolution::NotConfigured => r matches Err(e) && e@ == "WebDAV URL not configured"@,
        Resolution::Invalid => r matches Err(e) && has_prefix_str(e@, "Invalid WebDAV URL: "@),
        Resolution::CannotModify => r matches Err(e) && e@
            == "Invalid WebDAV URL (cannot modify path)"@,
    }
}

pub open spec fn has_prefix_str(s: Seq<char>, p: Seq<char>) -> bool {
    p.len() <= s.len() && s.take(p.len() as int) == p
}

fn last_segment_of(path: &str) -> (r: String)
    ensures
        r@ == last_segment(path@),
{
    let cs = chars_of(path);
    let mut i: usize = cs.len();
    assert(cs@.take(i as int) =~= cs@);
    assert(cs@.subrange(i as int, i as int) =~= Seq::<char>::empty());
    assert(cs@ + Seq::<char>::empty() =~= cs@);
    while i > 0 && cs[i - 1] != '/'
        invariant
            i <= cs@.len(),
            cs@ == path@,
            last_segment(path@) == last_segment(cs@.take(i as int)) + cs@.subrange(
                i as int,
                cs@.len() as int,
            ),
        decreases i,
    {
        let ghost t = cs@.take(i as int);
        assert(t.drop_last() =~= cs@.take(i as int - 1));
        assert(cs@.subrange(i as int - 1, cs@.len() as int) =~= seq![cs@[i - 1]]
            + cs@.subrange(i as int, cs@.len() as int));
        assert(last_segment(t) == last_segment(t.drop_last()).push(t.last()));
        assert(last_segment(t) + cs@.subrange(i as int, cs@.len() as int) =~= last_segment(
            cs@.take(i as int - 1),
        ) + cs@.subrange(i as int - 1, cs@.len() as int));
        i -= 1;
    }
    assert(last_segment(cs@.take(i as int)) =~= Seq::<char>::empty());
    assert(cs@.take(cs@.len() as int) =~= cs@);
    string_of_range(cs.as_slice(), i, cs.len())
}

fn ends_with(s: &str, suffix: &str) -> (r: bool)
    ensures
        r == has_suffix(s@, suffix@),
{
    let a = chars_of(s);
    let b = chars_of(suffix);
    if b.len() > a.len() {
        return false;
    }
    let off = a.len() - b.len();
    let mut i: usize = 0;
    while i < b.len()
        invariant
            a@ == s@,
            b@ == suffix@,
            off + b@.len() == a@.len(),
            a@.len() == a.len(),
            i <= b@.len(),
            forall|j: int| 0 <= j < i ==> a@[off + j] == b@[j],
        decreases b@.len() - i,
    {
        let idx: usize = off + i;
        if a[idx] != b[i] {
            assert(s@.skip(off as int)[i as int] != suffix@[i as int]);
            return false;
        }
        i += 1;
    }
    assert(s@.skip(off as int) =~= suffix@);
    true
}

fn is_file_like(seg: &str) -> (r: bool)
    ensures
        r == looks_like_file(seg@),
{
    ends_with(seg, ".db") || ends_with(seg, ".json") || ends_with(seg, ".sqlite")
}

fn strip_slashes_of(s: &str) -> (r: String)
    ensures
        r@ == strip_slashes(s@),
{
    let cs = chars_of(s);
    let mut a: usize = 0;
    let mut b: usize = cs.len();
    assert(cs@.subrange(0, cs@.len() as int) =~= s@);
    while a < b && (cs[a] == '/' || cs[b - 1] == '/')
        invariant
            a <= b <= cs@.len(),
            strip_slashes(s@) == strip_slashes(cs@.subrange(a as int, b as int)),
        decreases b - a,
    {
        let ghost t = cs@.subrange(a as int, b as int);
        if cs[a] == '/' {
            assert(t.drop_first() =~= cs@.subrange(a as int + 1, b as int));
            a += 1;
        } else {
            assert(t.drop_last() =~= cs@.subrange(a as int, b as int - 1));
            b -= 1;
        }
    }
    string_of_range(cs.as_slice(), a, b)
}

fn cannot_modify() -> (r: Result<String, String>)
    ensures
        reports(r, Resolution::CannotModify),
{
    Err(String::from_str("Invalid WebDAV URL (cannot modify path)"))
}

fn report_pushed(u: Option<String>, seg: &str) -> (r: Result<String, String>)
    ensures
        reports(r, resolved_or_stuck(then_push(opt_view(u), seg@))),
{
    match u {
        Some(s) => match url_push(s.as_str(), seg) {
            Some(t) => Ok(t),
            None => cannot_modify(),
        },
        None => cannot_modify(),
    }
}

fn invalid(e: String) -> (r: Result<String, String>)
    ensures
        reports(r, Resolution::Invalid),
{
    let mut m = String::from_str("Invalid WebDAV URL: ");
    let ghost p = m@;
    m.append(e.as_str());
    assert(m@.take(p.len() as int) =~= p);
    Err(m)
}

/// The URL of the file `filename` at the location `input`.
pub fn webdav_resolve_url(input: &str, filename: &str) -> (r: Result<String, String>)
    ensures
        reports(r, resolve_spec(input@, filename@)),
{
    let raw = trimmed(input);
    if raw.unicode_len() == 0 {
        return Err(String::from_str("WebDAV URL not configured"));
    }
    let (ser, path) = match parse_url(raw.as_str()) {
        Ok(parts) => parts,
        Err(e) => {
            return invalid(e);
        },
    };
    let last = last_segment_of(path.as_str());
    if last == String::from_str(filename) {
        return Ok(ser);
    }
    if last.unicode_len() == 0 {
        report_pushed(url_pop_if_empty(ser.as_str()), filename)
    } else if is_file_like(last.as_str()) {
        report_pushed(url_pop(ser.as_str()), filename)
    } else {
        match url_push(ser.as_str(), filename) {
            Some(t) => Ok(t),
            None => cannot_modify(),
        }
    }
}

/// The URL of the file `filename` inside the folder `folder` at the location
/// `input`.
pub fn webdav_resolve_url_with_folder(input: &str, folder: Option<&str>, filename: &str) -> (r:
    Result<String, String>)
    ensures
        reports(
            r,
            resolve_with_folder_spec(
                input@,
                match folder {
                    Some(f) => Some(f@),
                    None => None,
                },
                filename@,
            ),
        ),
{
    let raw = trimmed(input);
    let trimmed_folder = match folder {
        Some(f) => trimmed(f),
        None => String::new(),
    };
    let dir = strip_slashes_of(trimmed_folder.as_str());
    if raw.unicode_len() == 0 {
        return Err(String::from_str("WebDAV URL not configured"));
    }
    let (ser, path) = match parse_url(raw.as_str()) {
        Ok(parts) => parts,
        Err(e) => {
            return invalid(e);
        },
    };
    let last = last_segment_of(path.as_str());
    if is_file_like(last.as_str()) {
        return webdav_resolve_url(raw.as_str(), filename);
    }
    let base = url_pop_if_empty(ser.as_str());
    let in_dir = if dir.unicode_len() > 0 {
        match base {
            Some(b) => url_push(b.as_str(), dir.as_str()),
            None => None,
        }
    } else {
        base
    };
    report_pushed(in_dir, filename)
}

/// The URL `url` with its path replaced by `path`, when `url` parses.
pub uninterp spec fn with_path(url: Seq<char>, path: Seq<char>) -> Option<Seq<char>>;

/// Relies on `url::Url::set_path`, on the URL parsed anew from its
/// serialization.
#[verifier::external_body]
fn url_set_path(url: &str, path: &str) -> (r: Option<String>)
    ensures
        opt_view(r) == with_path(url@, path@),
{
    let mut u = Url::parse(url).ok()?;
    u.set_path(path);
    Some(u.as_str().to_string())
}

/// The non-empty pieces of `s` between slashes, as
/// `s.split('/').filter(|p| !p.is_empty())` gives them.
pub open spec fn slash_parts(s: Seq<char>) -> Seq<Seq<char>>
    decreases s.len(),
{
    if s.len() == 0 {
        Seq::empty()
    } else {
        let before = slash_parts(s.drop_last());
        let c = s.last();
        if c == '/' {
            before
        } else if s.len() >= 2 && s[s.len() - 2] != '/' {
            before.update(before.len() - 1, before.last().push(c))
        } else {
            before.push(seq![c])
        }
    }
}

fn slash_part_strings(s: &str) -> (r: Vec<String>)
    ensures
        crate::host_probe::string_views(r@) == slash_parts(s@),
{
    let cs = chars_of(s);
    let mut out: Vec<String> = Vec::new();
    let mut i: usize = 0;
    let mut in_part = false;
    let mut start: usize = 0;
    while i < cs.len()
        invariant
            start <= i <= cs@.len(),
            cs@ == s@,
            ({
                let w = slash_parts(cs@.take(i as int));
                let v = crate::host_probe::string_views(out@);
                &&& in_part ==> w == v.push(cs@.subrange(start as int, i as int)) && i > 0
                    && cs@[i - 1] != '/'
                &&& !in_part ==> w == v && (i > 0 ==> cs@[i - 1] == '/')
            }),
        decreases cs@.len() - i,
    {
        let ghost s1 = cs@.take(i as int + 1);
        assert(s1.drop_last() =~= cs@.take(i as int));
        let ghost v = crate::host_probe::string_views(out@);
        if cs[i] == '/' {
            if in_part {
                let p = string_of_range(cs.as_slice(), start, i);
                out.push(p);
                assert(crate::host_probe::string_views(out@) =~= v.push(
                    cs@.subrange(start as int, i as int),
                ));
                in_part = false;
            }
        } else {
            if !in_part {
                start = i;
                in_part = true;
                assert(cs@.subrange(start as int, i as int + 1) =~= seq![cs@[i as int]]);
            } else {
                assert(s1[s1.len() - 2] == cs@[i - 1]);
                assert(cs@.subrange(start as int, i as int + 1) =~= cs@.subrange(
                    start as int,
                    i as int,
                ).push(cs@[i as int]));
                assert(v.push(cs@.subrange(start as int, i as int)).update(
                    v.len() as int,
                    cs@.subrange(start as int, i as int + 1),
                ) =~= v.push(cs@.subrange(start as int, i as int + 1)));
            }
        }
        i += 1;
    }
    assert(cs@.take(i as int) =~= cs@);
    if in_part {
        let ghost v = crate::host_probe::string_views(out@);
        let p = string_of_range(cs.as_slice(), start, i);
        out.push(p);
        assert(crate::host_probe::string_views(out@) =~= v.push(
            cs@.subrange(start as int, i as int),
        ));
    }
    out
}

/// `url` made a directory URL: its path ends with `/`.
pub open spec fn as_directory(url: Seq<char>) -> Option<Seq<char>> {
    match url_parts_of(url) {
        Some((ser, path)) => if path.len() > 0 && path.last() == '/' {
            Some(ser)
        } else {
            with_path(ser, path.push('/'))
        },
        None => None,
    }
}

/// The directory URL one level below the directory URL `cur`, named `part`.
pub open spec fn child_directory(cur: Seq<char>, part: Seq<char>) -> Option<Seq<char>> {
    match popped_if_empty(cur) {
        Some(a) => match pushed(a, part) {
            Some(b) => as_directory(b),
            None => None,
        },
        None => None,
    }
}

/// The directory URLs of `parts`, each below the one before, starting below
/// `start`.
pub open spec fn nested_directories(start: Seq<char>, parts: Seq<Seq<char>>) -> Option<
    Seq<Seq<char>>,
>
    decreases parts.len(),
{
    if parts.len() == 0 {
        Some(Seq::empty())
    } else {
        match child_directory(start, parts[0]) {
            Some(next) => match nested_directories(next, parts.drop_first()) {
                Some(rest) => Some(seq![next] + rest),
                None => None,
            },
            None => None,
        }
    }
}

/// How planning the folders to create ends.
pub enum FolderPlan {
    /// The URL does not parse.
    Invalid,
    /// The URL's path cannot be edited.
    CannotModify,
    /// The collections to create, outermost first.
    Create(Seq<Seq<char>>),
}

pub open spec fn plan_of(urls: Option<Seq<Seq<char>>>) -> FolderPlan {
    match urls {
        Some(u) => FolderPlan::Create(u),
        None => FolderPlan::CannotModify,
    }
}

/// The collections to create so that `folder` exists below the location
/// `webdav_url`: one per segment of the folder. A URL naming a database file
/// stands for the directory that holds it.
pub open spec fn remote_folders_spec(webdav_url: Seq<char>, folder: Option<Seq<char>>) -> FolderPlan {
    let dir = strip_slashes(
        trim(
            match folder {
                Some(f) => f,
                None => Seq::empty(),
            },
        ),
    );
    if dir.len() == 0 {
        FolderPlan::Create(Seq::empty())
    } else {
        match url_parts_of(trim(webdav_url)) {
            None => FolderPlan::Invalid,
            Some((ser, path)) => {
                let base = if looks_like_file(last_segment(path)) {
                    popped(ser)
                } else {
                    Some(ser)
                };
                match base {
                    Some(b) => match as_directory(b) {
                        Some(d) => plan_of(nested_directories(d, slash_parts(dir))),
                        None => FolderPlan::CannotModify,
                    },
                    None => FolderPlan::CannotModify,
                }
            },
        }
    }
}

/// `r` is how `plan` is reported: the URLs, or an error message.
pub open spec fn reports_plan(r: Result<Vec<String>, String>, plan: FolderPlan) -> bool {
    match plan {
        FolderPlan::Create(u) => r matches Ok(v) && crate::host_probe::string_views(v@) == u,
        FolderPlan::Invalid => r matches Err(e) && has_prefix_str(e@, "Invalid WebDAV URL: "@),
        FolderPlan::CannotModify => r matches Err(e) && e@
            == "Invalid WebDAV URL (cannot modify path)"@,
    }
}

fn directory_url(url: &str) -> (r: Option<String>)
    ensures
        opt_view(r) == as_directory(url@),
{
    match parse_url(url) {
        Ok((ser, path)) => {
            let cs = chars_of(path.as_str());
            let n = cs.len();
            if n > 0 && cs[n - 1] == '/' {
                Some(ser)
            } else {
                let mut p = path;
                crate::text::push_char(&mut p, '/');
                url_set_path(ser.as_str(), p.as_str())
            }
        },
        Err(_) => None,
    }
}

fn child_directory_url(cur: &str, part: &str) -> (r: Option<String>)
    ensures
        opt_view(r) == child_directory(cur@, part@),
{
    match url_pop_if_empty(cur) {
        Some(a) => match url_push(a.as_str(), part) {
            Some(b) => directory_url(b.as_str()),
            None => None,
        },
        None => None,
    }
}

/// The collections to create so that `folder` exists below `webdav_url`,
/// outermost first.
pub fn remote_folder_urls(webdav_url: &str, folder: Option<&str>) -> (r: Result<Vec<String>, String>)
    ensures
        reports_plan(
            r,
            remote_folders_spec(
                webdav_url@,
                match folder {
                    Some(f) => Some(f@),
                    None => None,
                },
            ),
        ),
{
    let trimmed_folder = match folder {
        Some(f) => trimmed(f),
        None => String::new(),
    };
    let dir = strip_slashes_of(trimmed_folder.as_str());
    if dir.unicode_len() == 0 {
        let v: Vec<String> = Vec::new();
        assert(crate::host_probe::string_views(v@) =~= Seq::<Seq<char>>::empty());
        return Ok(v);
    }
    let raw = trimmed(webdav_url);
    let (ser, path) = match parse_url(raw.as_str()) {
        Ok(parts) => parts,
        Err(e) => {
            let mut m = String::from_str("Invalid WebDAV URL: ");
            let ghost p = m@;
            m.append(e.as_str());
            assert(m@.take(p.len() as int) =~= p);
            return Err(m);
        },
    };
    let last = last_segment_of(path.as_str());
    let base = if is_file_like(last.as_str()) {
        url_pop(ser.as_str())
    } else {
        Some(ser)
    };
    let start = match base {
        Some(b) => match directory_url(b.as_str()) {
            Some(d) => d,
            None => {
                return Err(String::from_str("Invalid WebDAV URL (cannot modify path)"));
            },
        },
        None => {
            return Err(String::from_str("Invalid WebDAV URL (cannot modify path)"));
        },
    };
    let parts = slash_part_strings(dir.as_str());
    let ghost ps = crate::host_probe::string_views(parts@);
    let ghost fv = match folder {
        Some(f) => Some(f@),
        None => None,
    };
    assert(remote_folders_spec(webdav_url@, fv) == plan_of(nested_directories(start@, ps)));
    let mut out: Vec<String> = Vec::new();
    let mut cur = start;
    let mut k: usize = 0;
    assert(ps.skip(0) =~= ps);
    assert(crate::host_probe::string_views(out@) =~= Seq::<Seq<char>>::empty());
    assert(Seq::<Seq<char>>::empty() + Seq::<Seq<char>>::empty() =~= Seq::<Seq<char>>::empty());
    while k < parts.len()
        invariant
            k <= parts@.len(),
            ps == crate::host_probe::string_views(parts@),
            remote_folders_spec(webdav_url@, fv) == plan_of(nested_directories(start@, ps)),
            fv == match folder {
                Some(f) => Some(f@),
                None => None,
            },
            nested_directories(start@, ps) == match nested_directories(cur@, ps.skip(k as int)) {
                Some(rest) => Some(crate::host_probe::string_views(out@) + rest),
                None => None::<Seq<Seq<char>>>,
            },
        decreases parts@.len() - k,
    {
        let ghost tail = ps.skip(k as int);
        assert(tail[0] == parts@[k as int]@);
        assert(tail.drop_first() =~= ps.skip(k as int + 1));
        match child_directory_url(cur.as_str(), parts[k].as_str()) {
            Some(next) => {
                let ghost v = crate::host_probe::string_views(out@);
                out.push(next.clone());
                assert(crate::host_probe::string_views(out@) =~= v.push(next@));
                proof {
                    match nested_directories(next@, ps.skip(k as int + 1)) {
                        Some(rest) => {
                            assert(v + (seq![next@] + rest) =~= v.push(next@) + rest);
                        },
                        None => {},
                    }
                }
                cur = next;
            },
            None => {
                assert(nested_directories(cur@, tail) is None);
                assert(nested_directories(start@, ps) is None);
                let e = String::from_str("Invalid WebDAV URL (cannot modify path)");
                assert(reports_plan(Err(e), remote_folders_spec(webdav_url@, fv)));

                return Err(e);
            },
        }
        k += 1;
    }
    assert(ps.skip(k as int) =~= Seq::<Seq<char>>::empty());
    assert(crate::host_probe::string_views(out@) + Seq::<Seq<char>>::empty() =~= crate::host_probe::string_views(out@));
    Ok(out)
}

} // verus!
