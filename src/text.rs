//! Character-level helpers shared by the parsers: strings are handled as
//! sequences of `char`, as their views are.
use vstd::prelude::*;

verus! {

broadcast use vstd::string::group_string_axioms;

/// Relies on `String::push`: appends one character.
#[verifier::external_body]
pub(crate) fn push_char(s: &mut String, c: char)
    ensures
        final(s)@ == old(s)@.push(c),
{
    s.push(c)
}

/// The characters of `s`, in order.
pub fn chars_of(s: &str) -> (r: Vec<char>)
    ensures
        r@ == s@,
{
    let mut out: Vec<char> = Vec::new();
    for c in it: s.chars()
        invariant
            out@ == it.seq().take(it.index() as int),
    {
        out.push(c);
    }
    out
}

/// The string made of the characters `cs`.
pub fn string_of(cs: &[char]) -> (r: String)
    ensures
        r@ == cs@,
{
    let mut out = String::new();
    let mut i: usize = 0;
    while i < cs.len()
        invariant
            i <= cs@.len(),
            out@ == cs@.take(i as int),
        decreases cs@.len() - i,
    {
        push_char(&mut out, cs[i]);
        proof {
            assert(cs@.take(i as int + 1) =~= cs@.take(i as int).push(cs@[i as int]));
        }
        i += 1;
    }
    proof {
        assert(cs@.take(cs@.len() as int) =~= cs@);
    }
    out
}

/// The characters of `cs[lo..hi]` as a string.
pub fn string_of_range(cs: &[char], lo: usize, hi: usize) -> (r: String)
    requires
        lo <= hi <= cs@.len(),
    ensures
        r@ == cs@.subrange(lo as int, hi as int),
{
    let mut out = String::new();
    let mut i: usize = lo;
    while i < hi
        invariant
            lo <= i <= hi <= cs@.len(),
            out@ == cs@.subrange(lo as int, i as int),
        decreases hi - i,
    {
        push_char(&mut out, cs[i]);
        proof {
            assert(cs@.subrange(lo as int, i as int + 1) =~= cs@.subrange(lo as int, i as int).push(
                cs@[i as int],
            ));
        }
        i += 1;
    }
    out
}

/// White space as `char::is_whitespace` has it: the Unicode `White_Space`
/// property.
pub open spec fn is_space(c: char) -> bool {
    ('\u{9}' <= c && c <= '\u{d}') || c == ' ' || c == '\u{85}' || c == '\u{a0}' || c
        == '\u{1680}' || ('\u{2000}' <= c && c <= '\u{200a}') || c == '\u{2028}' || c
        == '\u{2029}' || c == '\u{202f}' || c == '\u{205f}' || c == '\u{3000}'
}

pub fn is_space_char(c: char) -> (r: bool)
    ensures
        r == is_space(c),
{
    ('\u{9}' <= c && c <= '\u{d}') || c == ' ' || c == '\u{85}' || c == '\u{a0}' || c
        == '\u{1680}' || ('\u{2000}' <= c && c <= '\u{200a}') || c == '\u{2028}' || c
        == '\u{2029}' || c == '\u{202f}' || c == '\u{205f}' || c == '\u{3000}'
}

/// `s` without its leading white space.
pub open spec fn trim_start(s: Seq<char>) -> Seq<char>
    decreases s.len(),
{
    if s.len() > 0 && is_space(s[0]) {
        trim_start(s.drop_first())
    } else {
        s
    }
}

/// `s` without its trailing white space.
pub open spec fn trim_end(s: Seq<char>) -> Seq<char>
    decreases s.len(),
{
    if s.len() > 0 && is_space(s.last()) {
        trim_end(s.drop_last())
    } else {
        s
    }
}

/// `s` without leading and trailing white space, as `str::trim` gives it.
pub open spec fn trim(s: Seq<char>) -> Seq<char> {
    trim_end(trim_start(s))
}

/// The bounds of `cs[lo..hi]` with leading and trailing white space left out.
pub fn trim_bounds(cs: &[char], lo: usize, hi: usize) -> (r: (usize, usize))
    requires
        lo <= hi <= cs@.len(),
    ensures
        lo <= r.0 <= r.1 <= hi,
        cs@.subrange(r.0 as int, r.1 as int) == trim(cs@.subrange(lo as int, hi as int)),
{
    let mut a: usize = lo;
    while a < hi && is_space_char(cs[a])
        invariant
            lo <= a <= hi <= cs@.len(),
            trim_start(cs@.subrange(lo as int, hi as int)) == trim_start(
                cs@.subrange(a as int, hi as int),
            ),
        decreases hi - a,
    {
        assert(cs@.subrange(a as int, hi as int).drop_first() =~= cs@.subrange(
            a as int + 1,
            hi as int,
        ));
        a += 1;
    }
    let ghost t = cs@.subrange(a as int, hi as int);
    assert(trim_start(t) == t);
    let mut b: usize = hi;
    while b > a && is_space_char(cs[b - 1])
        invariant
            lo <= a <= b <= hi <= cs@.len(),
            trim_end(t) == trim_end(cs@.subrange(a as int, b as int)),
        decreases b - a,
    {
        assert(cs@.subrange(a as int, b as int).drop_last() =~= cs@.subrange(
            a as int,
            b as int - 1,
        ));
        b -= 1;
    }
    (a, b)
}

/// `s` with leading and trailing white space left out.
pub fn trimmed(s: &str) -> (r: String)
    ensures
        r@ == trim(s@),
{
    let cs = chars_of(s);
    let (a, b) = trim_bounds(cs.as_slice(), 0, cs.len());
    assert(cs@.subrange(0, cs@.len() as int) =~= s@);
    string_of_range(cs.as_slice(), a, b)
}

/// The pieces of `s` between line feeds, as `str::split('\n')` gives them:
/// one more piece than there are line feeds.
pub open spec fn lines_of(s: Seq<char>) -> Seq<Seq<char>>
    decreases s.len(),
{
    if s.len() == 0 {
        seq![Seq::empty()]
    } else {
        let before = lines_of(s.drop_last());
        if s.last() == '\n' {
            before.push(Seq::empty())
        } else {
            before.update(before.len() - 1, before.last().push(s.last()))
        }
    }
}

proof fn lemma_lines_of_nonempty(s: Seq<char>)
    ensures
        lines_of(s).len() > 0,
    decreases s.len(),
{
    if s.len() > 0 {
        lemma_lines_of_nonempty(s.drop_last());
    }
}

/// The bounds, in `cs`, of each piece of `lines_of(cs@)`.
pub fn line_bounds(cs: &[char]) -> (r: Vec<(usize, usize)>)
    ensures
        r@.len() == lines_of(cs@).len(),
        forall|j: int|
            0 <= j < r@.len() ==> {
                &&& (#[trigger] r@[j]).0 <= r@[j].1 <= cs@.len()
                &&& cs@.subrange(r@[j].0 as int, r@[j].1 as int) == lines_of(cs@)[j]
            },
{
    let mut out: Vec<(usize, usize)> = Vec::new();
    let mut start: usize = 0;
    let mut i: usize = 0;
    while i < cs.len()
        invariant
            start <= i <= cs@.len(),
            out@.len() + 1 == lines_of(cs@.take(i as int)).len(),
            forall|j: int|
                0 <= j < out@.len() ==> {
                    &&& (#[trigger] out@[j]).0 <= out@[j].1 <= cs@.len()
                    &&& cs@.subrange(out@[j].0 as int, out@[j].1 as int) == lines_of(
                        cs@.take(i as int),
                    )[j]
                },
            cs@.subrange(start as int, i as int) == lines_of(cs@.take(i as int)).last(),
        decreases cs@.len() - i,
    {
        let ghost pre = lines_of(cs@.take(i as int));
        assert(cs@.take(i as int + 1).drop_last() =~= cs@.take(i as int));
        proof {
            lemma_lines_of_nonempty(cs@.take(i as int));
        }
        if cs[i] == '\n' {
            out.push((start, i));
            start = i + 1;
            assert(cs@.subrange(start as int, i as int + 1) =~= Seq::<char>::empty());
        } else {
            assert(cs@.subrange(start as int, i as int + 1) =~= cs@.subrange(
                start as int,
                i as int,
            ).push(cs@[i as int]));
        }
        i += 1;
    }
    out.push((start, i));
    assert(cs@.take(i as int) =~= cs@);
    out
}

/// `s` begins with `p`.
pub open spec fn has_prefix(s: Seq<char>, p: Seq<char>) -> bool {
    p.len() <= s.len() && s.take(p.len() as int) == p
}

/// `k` is the position of the first `c` in `s`.
pub open spec fn first_index_is(s: Seq<char>, c: char, k: int) -> bool {
    &&& 0 <= k < s.len()
    &&& s[k] == c
    &&& forall|j: int| 0 <= j < k ==> s[j] != c
}

pub open spec fn has_char(s: Seq<char>, c: char) -> bool {
    exists|k: int| 0 <= k < s.len() && s[k] == c
}

/// The position of the first `c` in `s`, when there is one.
pub open spec fn first_index(s: Seq<char>, c: char) -> Option<int> {
    if has_char(s, c) {
        Some(choose|k: int| first_index_is(s, c, k))
    } else {
        None
    }
}

pub proof fn lemma_first_index(s: Seq<char>, c: char, k: int)
    requires
        first_index_is(s, c, k),
    ensures
        first_index(s, c) == Some(k),
{
    assert(has_char(s, c));
    let k2 = choose|k: int| first_index_is(s, c, k);
    assert(first_index_is(s, c, k2));
    if k2 < k {
        assert(s[k2] != c);
    }
    if k < k2 {
        assert(s[k] != c);
    }
}

/// The position in `cs[lo..hi]`, counted from `lo`, of the first `c`.
pub fn find_char(cs: &[char], lo: usize, hi: usize, c: char) -> (r: Option<usize>)
    requires
        lo <= hi <= cs@.len(),
    ensures
        match r {
            Some(k) => first_index(cs@.subrange(lo as int, hi as int), c) == Some(k as int)
                && first_index_is(cs@.subrange(lo as int, hi as int), c, k as int),
            None => first_index(cs@.subrange(lo as int, hi as int), c) is None,
        },
{
    let ghost t = cs@.subrange(lo as int, hi as int);
    let mut i: usize = lo;
    while i < hi
        invariant
            lo <= i <= hi <= cs@.len(),
            t == cs@.subrange(lo as int, hi as int),
            forall|j: int| 0 <= j < i - lo ==> t[j] != c,
        decreases hi - i,
    {
        if cs[i] == c {
            proof {
                assert(t[i - lo] == c);
                lemma_first_index(t, c, i - lo);
            }
            return Some(i - lo);
        }
        i += 1;
    }
    assert(!has_char(t, c));
    None
}

/// `c` with ASCII upper case letters made lower case.
pub open spec fn ascii_lower(c: char) -> char {
    if 'A' <= c && c <= 'Z' {
        ((c as u32) + 32) as char
    } else {
        c
    }
}

/// `a` and `b` are equal up to ASCII case, as `str::eq_ignore_ascii_case`
/// has it.
pub open spec fn eq_ignore_case(a: Seq<char>, b: Seq<char>) -> bool {
    a.len() == b.len() && forall|i: int| 0 <= i < a.len() ==> ascii_lower(a[i]) == ascii_lower(b[i])
}

fn ascii_lower_char(c: char) -> (r: char)
    ensures
        r == ascii_lower(c),
{
    if 'A' <= c && c <= 'Z' {
        let u = c as u32 + 32;
        assert(u < 0xD800);
        char_from_u32(u)
    } else {
        c
    }
}

/// Relies on `char::from_u32`: a value below the surrogate range is the
/// character with that code.
#[verifier::external_body]
fn char_from_u32(u: u32) -> (r: char)
    requires
        u < 0xD800,
    ensures
        r == u as char,
{
    char::from_u32(u).unwrap()
}

/// Whether `cs[lo..hi]` equals `w` up to ASCII case.
pub fn range_eq_ignore_case(cs: &[char], lo: usize, hi: usize, w: &str) -> (r: bool)
    requires
        lo <= hi <= cs@.len(),
    ensures
        r == eq_ignore_case(cs@.subrange(lo as int, hi as int), w@),
{
    let wc = chars_of(w);
    if hi - lo != wc.len() {
        return false;
    }
    let ghost a = cs@.subrange(lo as int, hi as int);
    let mut i: usize = 0;
    while i < wc.len()
        invariant
            lo <= hi <= cs@.len(),
            hi - lo == wc@.len(),
            wc@ == w@,
            a == cs@.subrange(lo as int, hi as int),
            i <= wc@.len(),
            forall|j: int| 0 <= j < i ==> ascii_lower(a[j]) == ascii_lower(w@[j]),
        decreases wc@.len() - i,
    {
        if ascii_lower_char(cs[lo + i]) != ascii_lower_char(wc[i]) {
            assert(a[i as int] == cs@[lo + i]);
            return false;
        }
        i += 1;
    }
    true
}

/// The words of `s`: its maximal runs of characters other than white space,
/// as `str::split_whitespace` gives them.
pub open spec fn words_of(s: Seq<char>) -> Seq<Seq<char>>
    decreases s.len(),
{
    if s.len() == 0 {
        Seq::empty()
    } else {
        let before = words_of(s.drop_last());
        let c = s.last();
        if is_space(c) {
            before
        } else if s.len() >= 2 && !is_space(s[s.len() - 2]) {
            before.update(before.len() - 1, before.last().push(c))
        } else {
            before.push(seq![c])
        }
    }
}

/// The bounds, in `cs`, of each word of `cs[lo..hi]`.
pub fn word_bounds(cs: &[char], lo: usize, hi: usize) -> (r: Vec<(usize, usize)>)
    requires
        lo <= hi <= cs@.len(),
    ensures
        r@.len() == words_of(cs@.subrange(lo as int, hi as int)).len(),
        forall|j: int|
            0 <= j < r@.len() ==> {
                &&& lo <= (#[trigger] r@[j]).0 <= r@[j].1 <= hi
                &&& cs@.subrange(r@[j].0 as int, r@[j].1 as int) == words_of(
                    cs@.subrange(lo as int, hi as int),
                )[j]
            },
{
    let mut out: Vec<(usize, usize)> = Vec::new();
    let mut i: usize = lo;
    let mut in_word = false;
    let mut start: usize = lo;
    while i < hi
        invariant
            lo <= start <= i <= hi <= cs@.len(),
            ({
                let w = words_of(cs@.subrange(lo as int, i as int));
                &&& in_word ==> w.len() == out@.len() + 1 && w.last() == cs@.subrange(
                    start as int,
                    i as int,
                ) && i > lo && !is_space(cs@[i - 1])
                &&& !in_word ==> w.len() == out@.len() && (i > lo ==> is_space(cs@[i - 1]))
                &&& forall|j: int|
                    0 <= j < out@.len() ==> {
                        &&& lo <= (#[trigger] out@[j]).0 <= out@[j].1 <= hi
                        &&& cs@.subrange(out@[j].0 as int, out@[j].1 as int) == w[j]
                    }
            }),
        decreases hi - i,
    {
        let ghost s1 = cs@.subrange(lo as int, i as int + 1);
        assert(s1.drop_last() =~= cs@.subrange(lo as int, i as int));
        assert(s1.last() == cs@[i as int]);
        if is_space_char(cs[i]) {
            if in_word {
                out.push((start, i));
                in_word = false;
            }
        } else {
            if !in_word {
                start = i;
                in_word = true;
                assert(cs@.subrange(start as int, i as int + 1) =~= seq![cs@[i as int]]);
            } else {
                assert(s1[s1.len() - 2] == cs@[i - 1]);
                assert(cs@.subrange(start as int, i as int + 1) =~= cs@.subrange(
                    start as int,
                    i as int,
                ).push(cs@[i as int]));
            }
        }
        i += 1;
    }
    if in_word {
        out.push((start, i));
    }
    out
}

/// `a` comes before `b` in the order of `str`'s `Ord`: lexicographic by
/// character (the order of UTF-8 bytes is that of the characters).
pub open spec fn seq_lt(a: Seq<char>, b: Seq<char>) -> bool {
    exists|k: int| #[trigger] lt_at(a, b, k)
}

/// `a` and `b` agree on their first `k` characters, and there `a` ends
/// while `b` goes on, or `a` has the smaller character.
pub open spec fn lt_at(a: Seq<char>, b: Seq<char>, k: int) -> bool {
    &&& 0 <= k <= a.len()
    &&& k <= b.len()
    &&& a.take(k) == b.take(k)
    &&& ((k == a.len() && k < b.len()) || (k < a.len() && k < b.len() && a[k] < b[k]))
}

proof fn lemma_lt_at_unique(a: Seq<char>, b: Seq<char>, k: int, m: int)
    requires
        lt_at(a, b, k),
        0 <= m < k,
    ensures
        a[m] == b[m],
{
    assert(a.take(k)[m] == b.take(k)[m]);
}

pub proof fn lemma_lt_irreflexive_asym(a: Seq<char>, b: Seq<char>)
    ensures
        !(seq_lt(a, b) && seq_lt(b, a)),
{
    if seq_lt(a, b) && seq_lt(b, a) {
        let k = choose|k: int| #[trigger] lt_at(a, b, k);
        let m = choose|m: int| #[trigger] lt_at(b, a, m);
        if k < m {
            lemma_lt_at_unique(b, a, m, k);
        } else if m < k {
            lemma_lt_at_unique(a, b, k, m);
        }
    }
}

pub proof fn lemma_lt_total(a: Seq<char>, b: Seq<char>)
    requires
        a != b,
    ensures
        seq_lt(a, b) || seq_lt(b, a),
{
    let n = if a.len() < b.len() { a.len() } else { b.len() };
    if forall|m: int| 0 <= m < n ==> a[m] == b[m] {
        assert(a.take(n as int) =~= b.take(n as int));
        if a.len() == b.len() {
            assert(a =~= b);
        } else if a.len() < b.len() {
            assert(lt_at(a, b, n as int));
        } else {
            assert(lt_at(b, a, n as int));
        }
    } else {
        let m0 = choose|m: int| 0 <= m < n && a[m] != b[m];
        let k = lemma_first_difference(a, b, m0);
        if a[k] < b[k] {
            assert(lt_at(a, b, k));
        } else {
            assert(b[k] < a[k]);
            assert(lt_at(b, a, k));
        }
    }
}

proof fn lemma_first_difference(a: Seq<char>, b: Seq<char>, m: int) -> (k: int)
    requires
        0 <= m < a.len(),
        m < b.len(),
        a[m] != b[m],
    ensures
        0 <= k <= m,
        a[k] != b[k],
        a.take(k) == b.take(k),
    decreases m,
{
    if forall|j: int| 0 <= j < m ==> a[j] == b[j] {
        assert(a.take(m) =~= b.take(m));
        m
    } else {
        let j = choose|j: int| 0 <= j < m && a[j] != b[j];
        lemma_first_difference(a, b, j)
    }
}

pub proof fn lemma_lt_transitive(a: Seq<char>, b: Seq<char>, c: Seq<char>)
    requires
        seq_lt(a, b),
        seq_lt(b, c),
    ensures
        seq_lt(a, c),
{
    let k = choose|k: int| #[trigger] lt_at(a, b, k);
    let m = choose|m: int| #[trigger] lt_at(b, c, m);
    let n = if k < m { k } else { m };
    assert forall|j: int| 0 <= j < n implies a[j] == c[j] by {
        lemma_lt_at_unique(a, b, k, j);
        lemma_lt_at_unique(b, c, m, j);
    }
    assert(a.take(n) =~= c.take(n));
    if k < m {
        if k < a.len() {
            lemma_lt_at_unique(b, c, m, k);
        }
        assert(lt_at(a, c, k));
    } else if m < k {
        lemma_lt_at_unique(a, b, k, m);
        assert(lt_at(a, c, m));
    } else {
        assert(lt_at(a, c, k));
    }
}

/// Whether `a` comes before `b`.
pub fn str_lt(a: &str, b: &str) -> (r: bool)
    ensures
        r == seq_lt(a@, b@),
{
    let x = chars_of(a);
    let y = chars_of(b);
    let mut i: usize = 0;
    while i < x.len() && i < y.len() && x[i] == y[i]
        invariant
            x@ == a@,
            y@ == b@,
            i <= x@.len(),
            i <= y@.len(),
            x@.take(i as int) == y@.take(i as int),
        decreases x@.len() - i,
    {
        assert(x@.take(i as int + 1) =~= x@.take(i as int).push(x@[i as int]));
        assert(y@.take(i as int + 1) =~= y@.take(i as int).push(y@[i as int]));
        i += 1;
    }
    if i == x.len() && i < y.len() {
        assert(lt_at(a@, b@, i as int));
        true
    } else if i < x.len() && i < y.len() && x[i] < y[i] {
        assert(lt_at(a@, b@, i as int));
        true
    } else {
        proof {
            if seq_lt(a@, b@) {
                let k = choose|k: int| #[trigger] lt_at(a@, b@, k);
                if k < i {
                    assert(x@.take(i as int)[k] == y@.take(i as int)[k]);
                } else if k > i {
                    lemma_lt_at_unique(a@, b@, k, i as int);
                }
            }
        }
        false
    }
}

} // verus!
