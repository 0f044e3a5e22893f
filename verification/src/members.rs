//! Archive-internal member paths: comparing them, cleaning ISO-9660 names, and
//! placing them safely under an extraction directory.
use crate::paths::{join, path_join};
use crate::text::{chars_of, string_of, trim_slashes, trim_slashes_chars};
use vstd::prelude::*;
use vstd::string::StringExecFns;

verus! {

/// Every `\` turned into `/`.
pub open spec fn forward_slashes(s: Seq<char>) -> Seq<char> {
    s.map_values(|c: char| if c == '\\' { '/' } else { c })
}

/// A member path in canonical form: forward slashes, no trailing slash.
pub open spec fn normalized(s: Seq<char>) -> Seq<char> {
    trim_slashes(forward_slashes(s))
}

/// The characters with every `\` turned into `/`.
fn forward_slash_chars(s: &[char]) -> (r: Vec<char>)
    ensures
        r@ == forward_slashes(s@),
{
    let mut r: Vec<char> = Vec::new();
    let mut i: usize = 0;
    while i < s.len()
        invariant
            i <= s@.len(),
            r@ == forward_slashes(s@.take(i as int)),
        decreases s@.len() - i,
    {
        r.push(if s[i] == '\\' { '/' } else { s[i] });
        i += 1;
        assert(r@ =~= forward_slashes(s@.take(i as int)));
    }
    assert(s@.take(s@.len() as int) =~= s@);
    r
}

/// A member path with every `\` turned into `/` (how RAR names are shown).
pub fn with_forward_slashes(name: &str) -> (r: String)
    ensures
        r@ == forward_slashes(name@),
{
    let c = chars_of(name);
    let f = forward_slash_chars(c.as_slice());
    string_of(f.as_slice())
}

/// Canonicalize an archive-internal path for comparison: forward slashes, no
/// trailing slash (archives store paths with platform separators).
pub fn normalize_member(name: &str) -> (r: String)
    ensures
        r@ == normalized(name@),
{
    let c = chars_of(name);
    let f = forward_slash_chars(c.as_slice());
    let t = trim_slashes_chars(f.as_slice());
    string_of(t.as_slice())
}

/// The index of the last `;` before `n`, if any.
pub open spec fn last_semicolon(s: Seq<char>, n: int) -> Option<int>
    decreases n,
{
    if n <= 0 {
        None
    } else if s[n - 1] == ';' {
        Some(n - 1)
    } else {
        last_semicolon(s, n - 1)
    }
}

/// An ISO-9660 identifier without its file-version suffix (`README.TXT;1` to
/// `README.TXT`): the part before the last `;` when what follows it is a
/// non-empty run of ASCII digits.
pub open spec fn cleaned(id: Seq<char>) -> Seq<char> {
    match last_semicolon(id, id.len() as int) {
        Some(i) => if i + 1 < id.len() && (forall|j: int| i + 1 <= j < id.len() ==> '0' <= #[trigger] id[j] && id[j] <= '9') {
            id.take(i)
        } else {
            id
        },
        None => id,
    }
}

/// Strip an ISO-9660 file-version suffix (`README.TXT;1` -> `README.TXT`).
pub fn clean(identifier: &str) -> (r: String)
    ensures
        r@ == cleaned(identifier@),
{
    let c = chars_of(identifier);
    let mut n = c.len();
    while n > 0 && c[n - 1] != ';'
        invariant
            n <= c@.len(),
            c@ == identifier@,
            last_semicolon(c@, c@.len() as int) == last_semicolon(c@, n as int),
        decreases n,
    {
        n -= 1;
    }
    if n == 0 || n == c.len() {
        return String::from_str(identifier);
    }
    let mut j = n;
    while j < c.len()
        invariant
            n <= j <= c@.len(),
            0 < n < c@.len(),
            c@ == identifier@,
            last_semicolon(c@, c@.len() as int) == Some(n - 1),
            forall|k: int| n <= k < j ==> '0' <= #[trigger] c@[k] && c@[k] <= '9',
        decreases c@.len() - j,
    {
        if !('0' <= c[j] && c[j] <= '9') {
            return String::from_str(identifier);
        }
        j += 1;
    }
    string_of(&c[0..n - 1])
}

/// `s` split at every `/` (an empty `s` is one empty part).
pub open spec fn split_slash(s: Seq<char>) -> Seq<Seq<char>>
    decreases s.len(),
{
    if s.len() == 0 {
        seq![Seq::empty()]
    } else {
        let p = split_slash(s.drop_last());
        if s.last() == '/' {
            p.push(Seq::empty())
        } else {
            p.update(p.len() - 1, p.last().push(s.last()))
        }
    }
}

/// Whether two paths are equal component by component (`Path`'s `==`).
pub uninterp spec fn path_eq(a: Seq<char>, b: Seq<char>) -> bool;

/// Whether two paths are equal (`std::path::Path`'s `PartialEq`, which compares
/// their components).
#[verifier::external_body]
pub(crate) fn same_path(a: &str, b: &str) -> (r: bool)
    ensures
        r == path_eq(a@, b@),
{
    std::path::Path::new(a) == std::path::Path::new(b)
}

/// `base` with the parts pushed in order: empty and `.` parts skipped, and no
/// result at all once a `..` part comes.
pub open spec fn push_parts(base: Seq<char>, parts: Seq<Seq<char>>) -> Option<Seq<char>>
    decreases parts.len(),
{
    if parts.len() == 0 {
        Some(base)
    } else {
        match push_parts(base, parts.drop_last()) {
            None => None,
            Some(out) => push_part(out, parts.last()),
        }
    }
}

/// Whether an archive-internal path is absolute: it starts with a `/` or `\`
/// (a root, or a `\\server` UNC share), or with a drive (`C:`).
pub open spec fn absolute_member(inner: Seq<char>) -> bool {
    ||| inner.len() > 0 && (inner[0] == '/' || inner[0] == '\\')
    ||| inner.len() > 1 && inner[1] == ':' && (('a' <= inner[0] && inner[0] <= 'z') || ('A' <= inner[0]
        && inner[0] <= 'Z'))
}

/// An archive-internal path placed under `base`: refused when it is absolute,
/// when a `..` part would climb out, or when nothing is left of it.
pub open spec fn enclosed_spec(base: Seq<char>, inner: Seq<char>) -> Option<Seq<char>> {
    if absolute_member(inner) {
        None
    } else {
        enclosed_parts(base, inner)
    }
}

/// The parts of `inner` placed under `base`, refused when a `..` part would
/// climb out or when nothing is left of it.
pub open spec fn enclosed_parts(base: Seq<char>, inner: Seq<char>) -> Option<Seq<char>> {
    match push_parts(base, split_slash(forward_slashes(inner))) {
        Some(out) => if path_eq(out, base) {
            None
        } else {
            Some(out)
        },
        None => None,
    }
}

/// One part pushed onto `out`: skipped when empty or `.`, refused when `..`.
pub open spec fn push_part(out: Seq<char>, p: Seq<char>) -> Option<Seq<char>> {
    if p.len() == 0 || p == "."@ {
        Some(out)
    } else if p == ".."@ {
        None
    } else {
        Some(path_join(out, p))
    }
}

/// Push one part onto `out`.
fn push_one(out: String, part: &[char]) -> (r: Option<String>)
    ensures
        match push_part(out@, part@) {
            Some(p) => r matches Some(q) && q@ == p,
            None => r is None,
        },
{
    proof {
        reveal_strlit(".");
        reveal_strlit("..");
    }
    let n = part.len();
    if n == 0 {
        return Some(out);
    }
    if n == 1 && part[0] == '.' {
        assert(part@ =~= "."@);
        return Some(out);
    }
    if n == 2 && part[0] == '.' && part[1] == '.' {
        assert(part@ =~= ".."@);
        return None;
    }
    assert(part@ != "."@ && part@ != ".."@) by {
        if part@ == "."@ {
            assert(part@[0] == '.');
        }
        if part@ == ".."@ {
            assert(part@[0] == '.' && part@[1] == '.');
        }
    }
    let p = string_of(part);
    Some(join(out.as_str(), p.as_str()))
}

/// Join an archive-internal path under `base`, rejecting absolute paths (a
/// leading `/` or `\`, or a drive) and any `..` component that would escape
/// `base`.
pub fn enclosed(base: &str, inner: &str) -> (r: Option<String>)
    ensures
        absolute_member(inner@) ==> r is None,
        match enclosed_spec(base@, inner@) {
            Some(p) => r matches Some(q) && q@ == p,
            None => r is None,
        },
{
    let c = chars_of(inner);
    if c.len() > 0 && (c[0] == '/' || c[0] == '\\') {
        return None;
    }
    if c.len() > 1 && c[1] == ':' && (('a' <= c[0] && c[0] <= 'z') || ('A' <= c[0] && c[0] <= 'Z')) {
        return None;
    }
    let f = forward_slash_chars(c.as_slice());
    let ghost s = f@;
    let mut out = String::from_str(base);
    let mut part: Vec<char> = Vec::new();
    let mut i: usize = 0;
    assert(s.take(0) =~= Seq::<char>::empty());
    while i < f.len()
        invariant
            i <= f@.len(),
            s == f@,
            s == forward_slashes(inner@),
            split_slash(s.take(i as int)).len() >= 1,
            push_parts(base@, split_slash(s.take(i as int)).drop_last()) == Some(out@),
            split_slash(s.take(i as int)).last() == part@,
        decreases f@.len() - i,
    {
        let ghost ps = split_slash(s.take(i as int));
        proof {
            assert(s.take(i + 1).drop_last() =~= s.take(i as int));
        }
        if f[i] == '/' {
            proof {
                assert(ps =~= ps.drop_last().push(ps.last()));
                assert(split_slash(s.take(i + 1)) == ps.push(Seq::<char>::empty()));
                assert(split_slash(s.take(i + 1)).drop_last() =~= ps);
            }
            match push_one(out, part.as_slice()) {
                Some(o) => {
                    out = o;
                },
                None => {
                    proof {
                        assert(push_parts(base@, ps) is None);
                        lemma_push_parts_prefix(base@, ps, s, i as int);
                    }
                    return None;
                },
            }
            part = Vec::new();
        } else {
            proof {
                assert(split_slash(s.take(i + 1)).drop_last() =~= ps.drop_last());
            }
            part.push(f[i]);
        }
        i += 1;
    }
    let ghost ps = split_slash(s.take(i as int));
    proof {
        assert(s.take(i as int) =~= s);
        assert(ps =~= ps.drop_last().push(ps.last()));
    }
    match push_one(out, part.as_slice()) {
        Some(o) => {
            if same_path(o.as_str(), base) {
                None
            } else {
                Some(o)
            }
        },
        None => None,
    }
}

/// There is always at least one part.
proof fn lemma_split_nonempty(s: Seq<char>)
    ensures
        split_slash(s).len() >= 1,
    decreases s.len(),
{
    if s.len() > 0 {
        lemma_split_nonempty(s.drop_last());
    }
}

/// Splitting past a `/` at `i` keeps every part made before it.
proof fn lemma_split_stable(s: Seq<char>, i: int, m: int)
    requires
        0 <= i < m <= s.len(),
        s[i] == '/',
    ensures
        split_slash(s.take(m)).len() > split_slash(s.take(i)).len(),
        split_slash(s.take(m)).take(split_slash(s.take(i)).len() as int) == split_slash(s.take(i)),
    decreases m - i,
{
    let ps = split_slash(s.take(i));
    assert(s.take(m).drop_last() =~= s.take(m - 1));
    if m == i + 1 {
        assert(split_slash(s.take(m)) == ps.push(Seq::<char>::empty()));
        assert(ps.push(Seq::<char>::empty()).take(ps.len() as int) =~= ps);
    } else {
        lemma_split_stable(s, i, m - 1);
        let prev = split_slash(s.take(m - 1));
        if s[m - 1] == '/' {
            assert(split_slash(s.take(m)) == prev.push(Seq::<char>::empty()));
            assert(prev.push(Seq::<char>::empty()).take(ps.len() as int) =~= prev.take(ps.len() as int));
        } else {
            let cur = prev.update(prev.len() - 1, prev.last().push(s[m - 1]));
            assert(split_slash(s.take(m)) == cur);
            assert(cur.take(ps.len() as int) =~= prev.take(ps.len() as int));
        }
    }
}

/// No result for the first `k` parts means no result at all.
proof fn lemma_none_prefix(base: Seq<char>, parts: Seq<Seq<char>>, k: int)
    requires
        0 <= k <= parts.len(),
        push_parts(base, parts.take(k)) is None,
    ensures
        push_parts(base, parts) is None,
    decreases parts.len() - k,
{
    if parts.len() == k {
        assert(parts.take(k) =~= parts);
    } else {
        assert(parts.drop_last().take(k) =~= parts.take(k));
        lemma_none_prefix(base, parts.drop_last(), k);
    }
}

/// Once a `..` part is met, no later part brings a result back.
proof fn lemma_push_parts_prefix(base: Seq<char>, ps: Seq<Seq<char>>, s: Seq<char>, i: int)
    requires
        0 <= i < s.len(),
        s[i] == '/',
        ps == split_slash(s.take(i)),
        push_parts(base, ps) is None,
    ensures
        push_parts(base, split_slash(s)) is None,
{
    lemma_split_stable(s, i, s.len() as int);
    assert(s.take(s.len() as int) =~= s);
    lemma_none_prefix(base, split_slash(s), ps.len() as int);
}

/// No member path with a `..` part is ever placed: whatever else it holds, it
/// cannot climb out of the extraction directory.
pub proof fn lemma_dotdot_refused(base: Seq<char>, inner: Seq<char>, k: int)
    requires
        0 <= k < split_slash(forward_slashes(inner)).len(),
        split_slash(forward_slashes(inner))[k] == ".."@,
    ensures
        enclosed_spec(base, inner) is None,
{
    let parts = split_slash(forward_slashes(inner));
    let pre = parts.take(k + 1);
    assert(pre.drop_last() =~= parts.take(k));
    assert(pre.last() == ".."@);
    assert(push_parts(base, pre) is None) by {
        reveal_strlit(".");
        reveal_strlit("..");
        assert(".."@.len() == 2);
        assert(".."@ != "."@);
    }
    lemma_none_prefix(base, parts, k + 1);
}

} // verus!
