//! Deciding whether a published release is newer than the running build.
//!
//! Fetching the latest release is the caller's business; what is decided here
//! is how a version tag reads and whether one version is higher than another.
use crate::text::{chars_of, end_non_ws, first_non_ws, is_ws, string_of, trim, trim_chars};
use vstd::prelude::*;
use vstd::string::StringExecFns;

verus! {

/// A newer release than the one currently running.
#[derive(Clone, Debug)]
pub struct UpdateInfo {
    /// Version string, without a leading `v` (e.g. `0.4.0`).
    pub version: String,
    /// The release's web page, where the installer can be downloaded.
    pub url: String,
}

/// `s` without its leading `v` and `V` characters.
pub open spec fn strip_v(s: Seq<char>) -> Seq<char>
    decreases s.len(),
{
    if s.len() > 0 && (s[0] == 'v' || s[0] == 'V') {
        strip_v(s.drop_first())
    } else {
        s
    }
}

/// The characters a version splits at.
pub open spec fn is_sep(c: char) -> bool {
    c == '.' || c == '-' || c == '+'
}

/// `s` split at every separator (an empty `s` is one empty part).
pub open spec fn split_parts(s: Seq<char>) -> Seq<Seq<char>>
    decreases s.len(),
{
    if s.len() == 0 {
        seq![Seq::empty()]
    } else {
        let p = split_parts(s.drop_last());
        if is_sep(s.last()) {
            p.push(Seq::empty())
        } else {
            p.update(p.len() - 1, p.last().push(s.last()))
        }
    }
}

pub open spec fn is_digit(c: char) -> bool {
    '0' <= c && c <= '9'
}

/// The index of the first non-digit at or after `i`.
pub open spec fn lead_len(p: Seq<char>, i: int) -> int
    decreases p.len() - i,
{
    if i < 0 || i >= p.len() {
        p.len() as int
    } else if is_digit(p[i]) {
        lead_len(p, i + 1)
    } else {
        i
    }
}

/// The decimal value of a run of digits.
pub open spec fn dec_value(d: Seq<char>) -> nat
    decreases d.len(),
{
    if d.len() == 0 {
        0
    } else {
        dec_value(d.drop_last()) * 10 + ((d.last() as int - 48) as nat)
    }
}

/// The number a version part starts with; 0 when it starts with no digit or
/// the number does not fit in a `u64`.
pub open spec fn part_value(p: Seq<char>) -> u64 {
    let d = p.take(lead_len(p, 0));
    if d.len() == 0 || dec_value(d) > u64::MAX {
        0
    } else {
        dec_value(d) as u64
    }
}

/// The value of part `k`, 0 when there is none.
pub open spec fn nth_value(ps: Seq<Seq<char>>, k: int) -> u64 {
    if k < ps.len() {
        part_value(ps[k])
    } else {
        0
    }
}

/// `(major, minor, patch)` of a version string: surrounding whitespace and
/// leading `v`s dropped, split at `.`, `-` and `+`, each of the first three
/// parts read by its leading digits.
pub open spec fn version_spec(s: Seq<char>) -> (u64, u64, u64) {
    let ps = split_parts(strip_v(trim(s)));
    (nth_value(ps, 0), nth_value(ps, 1), nth_value(ps, 2))
}

/// `a` is higher than `b`, comparing major, then minor, then patch.
pub open spec fn higher(a: (u64, u64, u64), b: (u64, u64, u64)) -> bool {
    a.0 > b.0 || (a.0 == b.0 && (a.1 > b.1 || (a.1 == b.1 && a.2 > b.2)))
}

/// What a release with tag `tag` and page `url` means for a build at `current`:
/// an update when its tag is non-empty and higher.
pub open spec fn release_spec(tag: Seq<char>, url: Seq<char>, current: Seq<char>) -> Option<(Seq<char>, Seq<char>)> {
    if tag.len() > 0 && higher(version_spec(tag), version_spec(current)) {
        Some((strip_v(tag), url))
    } else {
        None
    }
}

/// More digits never make the number smaller.
proof fn lemma_dec_value_grows(p: Seq<char>, k: int, m: int)
    requires
        0 <= k <= m <= p.len(),
        forall|i: int| k <= i < m ==> is_digit(#[trigger] p[i]),
    ensures
        dec_value(p.take(k)) <= dec_value(p.take(m)),
    decreases m - k,
{
    if m > k {
        lemma_dec_value_grows(p, k, m - 1);
        assert(p.take(m).drop_last() =~= p.take(m - 1));
    }
}

/// The number a version part starts with.
fn part_number(p: &[char]) -> (r: u64)
    ensures
        r == part_value(p@),
{
    let mut acc: u64 = 0;
    let mut j: usize = 0;
    assert(p@.take(0) =~= Seq::<char>::empty());
    while j < p.len() && '0' <= p[j] && p[j] <= '9'
        invariant
            j <= p@.len(),
            acc == dec_value(p@.take(j as int)),
            lead_len(p@, 0) == lead_len(p@, j as int),
            forall|i: int| 0 <= i < j ==> is_digit(#[trigger] p@[i]),
        decreases p@.len() - j,
    {
        let d = (p[j] as u32 - 48) as u64;
        proof {
            assert(p@.take(j + 1).drop_last() =~= p@.take(j as int));
        }
        match acc.checked_mul(10) {
            Some(x) => match x.checked_add(d) {
                Some(y) => {
                    acc = y;
                },
                None => {
                    proof {
                        lemma_lead(p@, j + 1);
                        lemma_dec_value_grows(p@, j + 1, lead_len(p@, 0));
                    }
                    return 0;
                },
            },
            None => {
                proof {
                    lemma_lead(p@, j + 1);
                    lemma_dec_value_grows(p@, j + 1, lead_len(p@, 0));
                }
                return 0;
            },
        }
        j += 1;
    }
    if j == 0 {
        0
    } else {
        acc
    }
}

/// Digits up to `j` put the end of the leading digits at or past `j`.
proof fn lemma_lead(p: Seq<char>, j: int)
    requires
        0 <= j <= p.len(),
        forall|i: int| 0 <= i < j ==> is_digit(#[trigger] p[i]),
    ensures
        j <= lead_len(p, 0) <= p.len(),
        forall|i: int| 0 <= i < lead_len(p, 0) ==> is_digit(#[trigger] p[i]),
{
    lemma_lead_from(p, 0, j);
}

proof fn lemma_lead_from(p: Seq<char>, i: int, j: int)
    requires
        0 <= i <= j <= p.len(),
        forall|k: int| i <= k < j ==> is_digit(#[trigger] p[k]),
    ensures
        j <= lead_len(p, i) <= p.len(),
        forall|k: int| i <= k < lead_len(p, i) ==> is_digit(#[trigger] p[k]),
    decreases p.len() - i,
{
    if i < p.len() && is_digit(p[i]) {
        lemma_lead_from(p, i + 1, if j > i { j } else { i + 1 });
    }
}

/// Extract `(major, minor, patch)` from a version string, defaulting to 0.
pub fn parse(s: &str) -> (r: (u64, u64, u64))
    ensures
        r == version_spec(s@),
{
    let chars = chars_of(s);
    let t = trim_chars(chars.as_slice());
    let mut a: usize = 0;
    assert(t@.skip(0) =~= t@);
    while a < t.len() && (t[a] == 'v' || t[a] == 'V')
        invariant
            a <= t@.len(),
            strip_v(t@) == strip_v(t@.skip(a as int)),
        decreases t@.len() - a,
    {
        assert(t@.skip(a as int).drop_first() =~= t@.skip(a + 1));
        a += 1;
    }
    let ghost u = t@.skip(a as int);
    assert(t@.skip(0) =~= t@);
    let mut vals: [u64; 3] = [0, 0, 0];
    let mut count: usize = 0;
    let mut cur: Vec<char> = Vec::new();
    let mut i: usize = a;
    assert(u.take(0) =~= Seq::<char>::empty());
    while i < t.len()
        invariant
            a <= i <= t@.len(),
            count <= i - a,
            u == t@.skip(a as int),
            split_parts(u.take(i - a)).len() == count + 1,
            split_parts(u.take(i - a)).last() == cur@,
            forall|j: int| 0 <= j < count && j < 3 ==> vals[j] == part_value(split_parts(u.take(i - a))[j]),
            forall|j: int| count <= j < 3 ==> vals[j] == 0,
        decreases t@.len() - i,
    {
        let ghost ps = split_parts(u.take(i - a));
        proof {
            assert(u.take(i + 1 - a).drop_last() =~= u.take(i - a));
            assert(u.take(i + 1 - a).last() == t@[i as int]);
        }
        let c = t[i];
        if c == '.' || c == '-' || c == '+' {
            if count < 3 {
                vals[count] = part_number(cur.as_slice());
            }
            count += 1;
            cur = Vec::new();
        } else {
            cur.push(c);
        }
        i += 1;
    }
    proof {
        assert(u.take(i - a) =~= u);
    }
    if count < 3 {
        vals[count] = part_number(cur.as_slice());
    }
    (vals[0], vals[1], vals[2])
}

/// Is `latest` a higher version than `current`? Tags may carry a `v` prefix and
/// a pre-release/build suffix, both of which are tolerated.
pub fn is_newer(latest: &str, current: &str) -> (r: bool)
    ensures
        r == higher(version_spec(latest@), version_spec(current@)),
{
    let a = parse(latest);
    let b = parse(current);
    a.0 > b.0 || (a.0 == b.0 && (a.1 > b.1 || (a.1 == b.1 && a.2 > b.2)))
}

/// The update a published release offers a build at `current`, if any: only
/// when its tag is non-empty and a higher version.
pub fn release_update(tag: &str, url: &str, current: &str) -> (r: Option<UpdateInfo>)
    ensures
        match release_spec(tag@, url@, current@) {
            Some((v, u)) => r matches Some(info) && info.version@ == v && info.url@ == u,
            None => r is None,
        },
{
    if tag.is_empty() {
        return None;
    }
    if !is_newer(tag, current) {
        return None;
    }
    let t = chars_of(tag);
    let mut a: usize = 0;
    assert(t@.skip(0) =~= t@);
    while a < t.len() && (t[a] == 'v' || t[a] == 'V')
        invariant
            a <= t@.len(),
            strip_v(t@) == strip_v(t@.skip(a as int)),
        decreases t@.len() - a,
    {
        assert(t@.skip(a as int).drop_first() =~= t@.skip(a + 1));
        a += 1;
    }
    assert(t@.skip(0) =~= t@);
    Some(UpdateInfo { version: string_of(&t[a..t.len()]), url: String::from_str(url) })
}

/// A release document as plain values: its parse error, or the `tag_name` and
/// `html_url` strings it holds (each `None` when absent or not a string).
pub open spec fn document_view(d: Result<(Option<String>, Option<String>), String>) -> Result<
    (Option<Seq<char>>, Option<Seq<char>>),
    Seq<char>,
> {
    match d {
        Ok((t, u)) => Ok(
            (
                match t {
                    Some(x) => Some(x@),
                    None => None,
                },
                match u {
                    Some(x) => Some(x@),
                    None => None,
                },
            ),
        ),
        Err(e) => Err(e@),
    }
}

/// What `serde_json` reads from the text of a release document.
pub uninterp spec fn release_document(body: Seq<char>) -> Result<(Option<Seq<char>>, Option<Seq<char>>), Seq<char>>;

/// Parse `body` as JSON (`serde_json::from_str` into a `serde_json::Value`)
/// and pick the string values of its `tag_name` and `html_url` members, or
/// give the parser's error message. The contract names the outcome: it depends
/// on the text alone.
#[verifier::external_body]
fn read_release_document(body: &str) -> (r: Result<(Option<String>, Option<String>), String>)
    ensures
        document_view(r) == release_document(body@),
{
    match serde_json::from_str::<serde_json::Value>(body) {
        Ok(v) => Ok((
            v.get("tag_name").and_then(|t| t.as_str()).map(|t| t.to_string()),
            v.get("html_url").and_then(|u| u.as_str()).map(|u| u.to_string()),
        )),
        Err(e) => Err(e.to_string()),
    }
}

/// A missing member reads as the empty string.
pub open spec fn or_empty(o: Option<Seq<char>>) -> Seq<char> {
    match o {
        Some(s) => s,
        None => Seq::empty(),
    }
}

/// What a release document means for a build at `current`: its error when it
/// could not be read; else the update its tag and page offer, if any.
pub open spec fn document_release(
    d: Result<(Option<Seq<char>>, Option<Seq<char>>), Seq<char>>,
    current: Seq<char>,
) -> Result<Option<(Seq<char>, Seq<char>)>, Seq<char>> {
    match d {
        Err(e) => Err(e),
        Ok((tag, url)) => Ok(release_spec(or_empty(tag), or_empty(url), current)),
    }
}

/// A release as plain values.
pub open spec fn release_view(r: Result<Option<UpdateInfo>, String>) -> Result<Option<(Seq<char>, Seq<char>)>, Seq<char>> {
    match r {
        Err(e) => Err(e@),
        Ok(Some(info)) => Ok(Some((info.version@, info.url@))),
        Ok(None) => Ok(None),
    }
}

/// The update a read release document offers a build at `current`: the read
/// error passed on; nothing when the tag is missing, empty or not higher; else
/// the release, with its page (empty when missing).
pub fn release_from_document(doc: Result<(Option<String>, Option<String>), String>, current: &str) -> (r: Result<
    Option<UpdateInfo>,
    String,
>)
    ensures
        release_view(r) == document_release(document_view(doc), current@),
{
    match doc {
        Err(e) => Err(e),
        Ok((tag, url)) => {
            let tag = match tag {
                Some(t) => t,
                None => String::new(),
            };
            let url = match url {
                Some(u) => u,
                None => String::new(),
            };
            Ok(release_update(tag.as_str(), url.as_str(), current))
        },
    }
}

/// The update the latest-release document `body` (as GitHub's API serves it)
/// offers a build at `current`.
pub fn check_document(body: &str, current: &str) -> (r: Result<Option<UpdateInfo>, String>)
    ensures
        release_view(r) == document_release(release_document(body@), current@),
{
    release_from_document(read_release_document(body), current)
}

/// "Newer than" is a strict order on version strings: no version is newer than
/// itself, of two versions at most one is newer than the other, and it chains.
pub proof fn lemma_newer_is_strict(a: Seq<char>, b: Seq<char>, c: Seq<char>)
    ensures
        !higher(version_spec(a), version_spec(a)),
        higher(version_spec(a), version_spec(b)) ==> !higher(version_spec(b), version_spec(a)),
        higher(version_spec(a), version_spec(b)) && higher(version_spec(b), version_spec(c)) ==> higher(
            version_spec(a),
            version_spec(c),
        ),
{
}

/// A release tag only counts by its numbers: a leading `v` (or `V`) changes
/// nothing about how it compares.
pub proof fn lemma_v_prefix_ignored(s: Seq<char>)
    requires
        trim(s) == s,
    ensures
        version_spec(seq!['v'] + s) == version_spec(s),
{
    let t = seq!['v'] + s;
    assert(t.drop_first() =~= s);
    lemma_trim_v(s);
}

/// Trimming leaves a leading `v` in place when the rest needs no trimming.
proof fn lemma_trim_v(s: Seq<char>)
    requires
        trim(s) == s,
    ensures
        strip_v(trim(seq!['v'] + s)) == strip_v(s),
{
    let t = seq!['v'] + s;
    assert(first_non_ws(t, 0) == 0);
    if s.len() > 0 {
        lemma_trimmed_ends(s);
        assert(t.last() == s.last());
    }
    assert(end_non_ws(t, t.len() as int, 0) == t.len());
    assert(trim(t) =~= t);
    assert(t.drop_first() =~= s);
}

/// A string that trimming leaves alone does not end in whitespace.
proof fn lemma_trimmed_ends(s: Seq<char>)
    requires
        trim(s) == s,
        s.len() > 0,
    ensures
        !is_ws(s.last()),
{
    let a = first_non_ws(s, 0);
    lemma_first_non_ws_bounds(s, 0);
    lemma_end_non_ws_bounds(s, s.len() as int, a);
    if is_ws(s.last()) {
        assert(end_non_ws(s, s.len() as int, a) == end_non_ws(s, s.len() - 1, a));
        lemma_end_non_ws_bounds(s, s.len() - 1, a);
        assert(trim(s).len() < s.len());
    }
}

proof fn lemma_first_non_ws_bounds(s: Seq<char>, i: int)
    requires
        0 <= i <= s.len(),
    ensures
        i <= first_non_ws(s, i) <= s.len(),
    decreases s.len() - i,
{
    if i < s.len() && is_ws(s[i]) {
        lemma_first_non_ws_bounds(s, i + 1);
    }
}

proof fn lemma_end_non_ws_bounds(s: Seq<char>, j: int, lo: int)
    requires
        0 <= lo <= j <= s.len(),
    ensures
        lo <= end_non_ws(s, j, lo) <= j,
    decreases j - lo,
{
    if j > lo && is_ws(s[j - 1]) {
        lemma_end_non_ws_bounds(s, j - 1, lo);
    }
}

} // verus!
