//! The Commander's map.
//!
//! A [`Location`] is one of three things: the list of drives, a real directory,
//! or a *virtual* position inside an archive. The last lets a user step into a
//! `.tar.zst` as though it were a folder: the archive's flat table of contents
//! (read once and shared) is re-projected into folder-by-folder navigation on
//! demand, without decompressing anything to disk.
//!
//! What the disk holds is read by the caller and handed in as plain values.
use crate::format::{format_by_suffix, Format};
use crate::listing::{Entry, Listing};
use crate::paths::{file_name_of, join, parent_of, path_file_name, path_join, path_parent};
use crate::text::{
    char_lt, chars_lt, lemma_char_lt_asymmetric, lemma_char_lt_total, lemma_char_lt_transitive, chars_of, starts_with, string_of, to_lowercase, trim_slashes, trim_slashes_chars,
    unicode_lower,
};
use std::sync::Arc;
use vstd::prelude::*;
use vstd::string::StringExecFns;

verus! {

/// Where the Commander currently stands.
#[derive(Clone)]
pub enum Location {
    /// The list of drive roots (`C:\`, `D:\`, ...). The top of the world.
    Drives,
    /// A real directory on disk.
    Fs(String),
    /// A virtual position inside an archive at internal path `inner`
    /// (`""` = archive root, otherwise always ends in `/`).
    Archive { path: String, format: Format, listing: Arc<Listing>, inner: String },
}

/// What a row represents; navigation glyph and behaviour follow from it.
#[derive(Clone, Copy, PartialEq, Eq, Debug, Structural)]
pub enum RowKind {
    Parent,
    Drive,
    Dir,
    Archive,
    File,
}

/// One line in the Commander's list.
#[derive(Clone, Debug)]
pub struct BrowseRow {
    pub name: String,
    pub kind: RowKind,
    pub size: Option<u64>,
}

/// One entry of a directory on disk, as the caller read it.
#[derive(Clone, Debug)]
pub struct DirEntry {
    pub name: String,
    pub is_dir: bool,
    /// The file's size, when its metadata could be read.
    pub size: Option<u64>,
}

/// What the caller found on disk for a location: which drive roots `A:\` to
/// `Z:\` exist and whether `/` does (for [`Location::Drives`]), and the entries
/// of the directory (for [`Location::Fs`]).
pub struct Disk {
    pub drives: Vec<bool>,
    pub unix_root: bool,
    pub entries: Vec<DirEntry>,
}

/// The result of activating a row.
pub enum Activated {
    /// Move to a new location.
    Go(Location),
    /// Nothing navigational: the caller just selects the row.
    Stay,
    /// Opening an archive failed.
    Error(String),
    /// An archive row: the caller lists the archive at `path` as `format` and
    /// hands the outcome to [`entered`].
    Open { path: String, format: Format },
}

// --- Rows as values ---------------------------------------------------------------

/// A row as plain values.
pub open spec fn row_view(r: BrowseRow) -> (Seq<char>, RowKind, Option<u64>) {
    (r.name@, r.kind, r.size)
}

/// Rows as plain values.
pub open spec fn rows_view(rs: Seq<BrowseRow>) -> Seq<(Seq<char>, RowKind, Option<u64>)> {
    rs.map_values(|r: BrowseRow| row_view(r))
}

/// The `..` row.
pub open spec fn parent_row() -> (Seq<char>, RowKind, Option<u64>) {
    (".."@, RowKind::Parent, None)
}

/// `x` placed before the first row of `s` whose lower-cased name sorts after its
/// own: inserted into a sorted run, it lands after every row that ties with it.
pub open spec fn insert_row(s: Seq<(Seq<char>, RowKind, Option<u64>)>, x: (Seq<char>, RowKind, Option<u64>)) -> Seq<
    (Seq<char>, RowKind, Option<u64>),
>
    decreases s.len(),
{
    if s.len() == 0 {
        seq![x]
    } else if char_lt(unicode_lower(x.0), unicode_lower(s[0].0)) {
        seq![x] + s
    } else {
        seq![s[0]] + insert_row(s.drop_first(), x)
    }
}

/// The rows stably sorted by lower-cased name (`sort_by_key(to_lowercase)`).
pub open spec fn sort_rows(s: Seq<(Seq<char>, RowKind, Option<u64>)>) -> Seq<(Seq<char>, RowKind, Option<u64>)>
    decreases s.len(),
{
    if s.len() == 0 {
        Seq::empty()
    } else {
        insert_row(sort_rows(s.drop_last()), s.last())
    }
}

/// `x` added to the strictly increasing names `s`, unless already there.
pub open spec fn insert_dir(s: Seq<Seq<char>>, x: Seq<char>) -> Seq<Seq<char>>
    decreases s.len(),
{
    if s.len() == 0 {
        seq![x]
    } else if s[0] == x {
        s
    } else if char_lt(x, s[0]) {
        seq![x] + s
    } else {
        seq![s[0]] + insert_dir(s.drop_first(), x)
    }
}

/// The index of the first `/` in `s` from `i` on, or `s.len()`.
pub open spec fn first_slash(s: Seq<char>, i: int) -> int
    decreases s.len() - i,
{
    if i < 0 || i >= s.len() {
        s.len() as int
    } else if s[i] == '/' {
        i
    } else {
        first_slash(s, i + 1)
    }
}

/// How an archive member shows at `inner`: its first path segment below
/// `inner`, and whether that segment is a folder.
pub open spec fn member_at(name: Seq<char>, is_dir: bool, inner: Seq<char>) -> Option<(Seq<char>, bool)> {
    let full = trim_slashes(name);
    if !starts_with(full, inner) {
        None
    } else {
        let rest = full.skip(inner.len() as int);
        let k = first_slash(rest, 0);
        if rest.len() == 0 {
            None
        } else if k < rest.len() {
            Some((rest.take(k), true))
        } else {
            Some((rest, is_dir))
        }
    }
}

/// The folders one level below `inner`, each once, in increasing order.
pub open spec fn dirs_at(entries: Seq<Entry>, inner: Seq<char>) -> Seq<Seq<char>>
    decreases entries.len(),
{
    if entries.len() == 0 {
        Seq::empty()
    } else {
        let d = dirs_at(entries.drop_last(), inner);
        match member_at(entries.last().name@, entries.last().is_dir, inner) {
            Some((seg, true)) => insert_dir(d, seg),
            _ => d,
        }
    }
}

/// The files directly at `inner`, in entry order.
pub open spec fn files_at(entries: Seq<Entry>, inner: Seq<char>) -> Seq<(Seq<char>, RowKind, Option<u64>)>
    decreases entries.len(),
{
    if entries.len() == 0 {
        Seq::empty()
    } else {
        let f = files_at(entries.drop_last(), inner);
        match member_at(entries.last().name@, entries.last().is_dir, inner) {
            Some((seg, false)) => f.push((seg, RowKind::File, entries.last().size)),
            _ => f,
        }
    }
}

/// The rows inside an archive at `inner`: `..`, the folders in increasing
/// order, then the files by lower-cased name.
pub open spec fn archive_rows_spec(entries: Seq<Entry>, inner: Seq<char>) -> Seq<(Seq<char>, RowKind, Option<u64>)> {
    seq![parent_row()] + dirs_at(entries, inner).map_values(
        |d: Seq<char>| (d, RowKind::Dir, None::<u64>),
    ) + sort_rows(files_at(entries, inner))
}

/// How a directory entry shows: a folder, a recognised archive, or a file.
pub open spec fn entry_row(e: DirEntry) -> (Seq<char>, RowKind, Option<u64>) {
    if e.is_dir {
        (e.name@, RowKind::Dir, None)
    } else if (match path_file_name(e.name@) {
        Some(n) => format_by_suffix(n),
        None => None,
    }) is Some {
        (e.name@, RowKind::Archive, e.size)
    } else {
        (e.name@, RowKind::File, e.size)
    }
}

/// The folders (or, with `dirs` false, the other entries) of a directory, in
/// the order read.
pub open spec fn entries_of(es: Seq<DirEntry>, dirs: bool) -> Seq<(Seq<char>, RowKind, Option<u64>)>
    decreases es.len(),
{
    if es.len() == 0 {
        Seq::empty()
    } else {
        let r = entries_of(es.drop_last(), dirs);
        if es.last().is_dir == dirs {
            r.push(entry_row(es.last()))
        } else {
            r
        }
    }
}

/// The rows of a directory: `..`, the folders, then the other entries, each
/// group by lower-cased name.
pub open spec fn fs_rows_spec(es: Seq<DirEntry>) -> Seq<(Seq<char>, RowKind, Option<u64>)> {
    seq![parent_row()] + sort_rows(entries_of(es, true)) + sort_rows(entries_of(es, false))
}

/// The root of drive number `i` (`A:\` for 0).
pub open spec fn drive_root(i: int) -> Seq<char> {
    seq![((65 + i) as u32) as char, ':', '\\']
}

/// The drive rows for the drives present among the first `n`.
pub open spec fn drives_upto(present: Seq<bool>, n: int) -> Seq<(Seq<char>, RowKind, Option<u64>)>
    decreases n,
{
    if n <= 0 {
        Seq::empty()
    } else {
        let r = drives_upto(present, n - 1);
        if present[n - 1] {
            r.push((drive_root(n - 1), RowKind::Drive, None))
        } else {
            r
        }
    }
}

/// The rows at the top of the world: the drive roots present, else `/` if it is.
pub open spec fn drive_rows_spec(present: Seq<bool>, unix_root: bool) -> Seq<(Seq<char>, RowKind, Option<u64>)> {
    let r = drives_upto(present, 26);
    if r.len() == 0 && unix_root {
        seq![("/"@, RowKind::Drive, None)]
    } else {
        r
    }
}

/// `/` replaced by a breadcrumb separator.
pub open spec fn crumbs(s: Seq<char>) -> Seq<char>
    decreases s.len(),
{
    if s.len() == 0 {
        Seq::empty()
    } else if s.last() == '/' {
        crumbs(s.drop_last()) + "  ›  "@
    } else {
        crumbs(s.drop_last()).push(s.last())
    }
}

/// The location bar's text.
pub open spec fn label_spec(loc: Location) -> Seq<char> {
    match loc {
        Location::Drives => "This PC"@,
        Location::Fs(dir) => dir@,
        Location::Archive { path, inner, .. } => {
            let archive = match path_file_name(path@) {
                Some(n) => n,
                None => Seq::empty(),
            };
            if inner@.len() == 0 {
                archive + "  ›"@
            } else {
                archive + "  ›  "@ + crumbs(trim_slashes(inner@))
            }
        },
    }
}

/// The index of the last `/` in the first `n` characters, if any.
pub open spec fn last_slash(s: Seq<char>, n: int) -> Option<int>
    decreases n,
{
    if n <= 0 {
        None
    } else if s[n - 1] == '/' {
        Some(n - 1)
    } else {
        last_slash(s, n - 1)
    }
}

/// The archive-internal path one level up: `a/b/c/` to `a/b/`, `a/` to ``.
pub open spec fn parent_inner_spec(inner: Seq<char>) -> Seq<char> {
    let t = trim_slashes(inner);
    match last_slash(t, t.len() as int) {
        Some(i) => t.take(i + 1),
        None => Seq::empty(),
    }
}

/// Where a step out of the directory `dir` leads: its parent, or the drives
/// when it has none (or an empty one).
pub open spec fn fs_up(dir: Seq<char>) -> Option<Seq<char>> {
    match path_parent(dir) {
        Some(p) => if p.len() > 0 {
            Some(p)
        } else {
            None
        },
        None => None,
    }
}

// --- Locations ----------------------------------------------------------------------

/// Another handle on the same listing (`Arc::clone`).
#[verifier::external_body]
fn share(listing: &Arc<Listing>) -> (r: Arc<Listing>)
    ensures
        r == *listing,
{
    Arc::clone(listing)
}

/// Append the characters of `s`.
fn push_str(v: &mut Vec<char>, s: &str)
    ensures
        final(v)@ == old(v)@ + s@,
{
    let mut c = chars_of(s);
    v.append(&mut c);
}

impl Location {
    /// A human-readable breadcrumb for the location bar.
    pub fn label(&self) -> (r: String)
        ensures
            r@ == label_spec(*self),
    {
        match self {
            Location::Drives => String::from_str("This PC"),
            Location::Fs(dir) => dir.clone(),
            Location::Archive { path, inner, .. } => {
                let mut out: Vec<char> = match file_name_of(path.as_str()) {
                    Some(n) => chars_of(n.as_str()),
                    None => Vec::new(),
                };
                if inner.as_str().is_empty() {
                    push_str(&mut out, "  ›");
                } else {
                    push_str(&mut out, "  ›  ");
                    let inner_c = chars_of(inner.as_str());
                    let t = trim_slashes_chars(inner_c.as_slice());
                    let ghost base = out@;
                    let mut i: usize = 0;
                    while i < t.len()
                        invariant
                            i <= t@.len(),
                            out@ == base + crumbs(t@.take(i as int)),
                        decreases t@.len() - i,
                    {
                        proof {
                            assert(t@.take(i + 1).drop_last() =~= t@.take(i as int));
                        }
                        if t[i] == '/' {
                            push_str(&mut out, "  ›  ");
                        } else {
                            out.push(t[i]);
                        }
                        i += 1;
                        proof {
                            assert(out@ =~= base + crumbs(t@.take(i as int)));
                        }
                    }
                    assert(t@.take(t@.len() as int) =~= t@);
                }
                string_of(out.as_slice())
            },
        }
    }

    /// Whether a "go up" step is possible from here.
    pub fn can_up(&self) -> (r: bool)
        ensures
            r == !(*self is Drives),
    {
        !matches!(self, Location::Drives)
    }

    /// Whether we are currently peering inside an archive.
    pub fn in_archive(&self) -> (r: bool)
        ensures
            r == (*self is Archive),
    {
        matches!(self, Location::Archive { .. })
    }
}

// --- Row builders -------------------------------------------------------------------

/// The names held in a list of character buffers.
pub open spec fn names_view(v: Seq<Vec<char>>) -> Seq<Seq<char>> {
    v.map_values(|x: Vec<char>| x@)
}

/// Where an archive member shows at `inner`.
fn classify(name: &str, is_dir: bool, inner: &[char]) -> (r: Option<(Vec<char>, bool)>)
    ensures
        match r {
            Some((seg, d)) => member_at(name@, is_dir, inner@) == Some((seg@, d)),
            None => member_at(name@, is_dir, inner@) is None,
        },
{
    let name_c = chars_of(name);
    let full = trim_slashes_chars(name_c.as_slice());
    let k = inner.len();
    if k > full.len() {
        return None;
    }
    let mut j: usize = 0;
    while j < k
        invariant
            j <= k,
            k == inner@.len(),
            k <= full@.len(),
            full@ == trim_slashes(name@),
            forall|i: int| 0 <= i < j ==> full@[i] == inner@[i],
        decreases k - j,
    {
        if full[j] != inner[j] {
            assert(full@.take(k as int)[j as int] != inner@[j as int]);
            assert(!starts_with(full@, inner@));
            return None;
        }
        j += 1;
    }
    assert(full@.take(k as int) =~= inner@);
    let rest = vstd::slice::slice_to_vec(&full[k..full.len()]);
    assert(rest@ =~= full@.skip(k as int));
    if rest.len() == 0 {
        return None;
    }
    let mut i: usize = 0;
    while i < rest.len() && rest[i] != '/'
        invariant
            i <= rest@.len(),
            first_slash(rest@, 0) == first_slash(rest@, i as int),
        decreases rest@.len() - i,
    {
        i += 1;
    }
    if i < rest.len() {
        let seg = vstd::slice::slice_to_vec(&rest[0..i]);
        assert(seg@ =~= rest@.take(i as int));
        Some((seg, true))
    } else {
        Some((rest, is_dir))
    }
}

/// The prefix of `s` before `i` is passed over by `insert_dir`.
proof fn lemma_insert_dir_skip(s: Seq<Seq<char>>, x: Seq<char>, i: int)
    requires
        0 <= i <= s.len(),
        forall|j: int| 0 <= j < i ==> s[j] != x && !char_lt(x, #[trigger] s[j]),
    ensures
        insert_dir(s, x) == s.take(i) + insert_dir(s.skip(i), x),
    decreases i,
{
    if i == 0 {
        assert(s.take(0) + s.skip(0) =~= s);
        assert(s.skip(0) =~= s);
    } else {
        assert(s[0] != x && !char_lt(x, s[0]));
        lemma_insert_dir_skip(s.drop_first(), x, i - 1);
        assert(s.take(i) =~= seq![s[0]] + s.drop_first().take(i - 1));
        assert(s.skip(i) =~= s.drop_first().skip(i - 1));
    }
}

/// Add a folder name to the strictly increasing list, unless it is there.
fn insert_dir_vec(dirs: &mut Vec<Vec<char>>, x: Vec<char>)
    ensures
        names_view(final(dirs)@) == insert_dir(names_view(old(dirs)@), x@),
{
    let ghost s = names_view(dirs@);
    let mut i: usize = 0;
    while i < dirs.len()
        invariant
            i <= dirs@.len(),
            s == names_view(dirs@),
            dirs@ == old(dirs)@,
            forall|j: int| 0 <= j < i ==> s[j] != x@ && !char_lt(x@, #[trigger] s[j]),
        decreases dirs@.len() - i,
    {
        if chars_eq_vec(dirs[i].as_slice(), x.as_slice()) {
            proof {
                lemma_insert_dir_skip(s, x@, i as int);
                assert(s.skip(i as int)[0] == x@);
                assert(s.take(i as int) + s.skip(i as int) =~= s);
            }
            return;
        }
        if chars_lt(x.as_slice(), dirs[i].as_slice()) {
            proof {
                lemma_insert_dir_skip(s, x@, i as int);
            }
            dirs.insert(i, x);
            proof {
                assert(names_view(dirs@) =~= s.take(i as int) + (seq![x@] + s.skip(i as int)));
            }
            return;
        }
        i += 1;
    }
    proof {
        lemma_insert_dir_skip(s, x@, i as int);
        assert(s.skip(i as int) =~= Seq::<Seq<char>>::empty());
        assert(s.take(i as int) =~= s);
    }
    dirs.push(x);
    assert(names_view(dirs@) =~= s + seq![x@]);
}

/// Whether two character buffers are equal.
fn chars_eq_vec(a: &[char], b: &[char]) -> (r: bool)
    ensures
        r == (a@ == b@),
{
    if a.len() != b.len() {
        return false;
    }
    let mut j: usize = 0;
    while j < a.len()
        invariant
            j <= a@.len(),
            a@.len() == b@.len(),
            forall|i: int| 0 <= i < j ==> a@[i] == b@[i],
        decreases a@.len() - j,
    {
        if a[j] != b[j] {
            return false;
        }
        j += 1;
    }
    assert(a@ =~= b@);
    true
}

/// The prefix of `s` before `i` is passed over by `insert_row`.
proof fn lemma_insert_row_skip(
    s: Seq<(Seq<char>, RowKind, Option<u64>)>,
    x: (Seq<char>, RowKind, Option<u64>),
    i: int,
)
    requires
        0 <= i <= s.len(),
        forall|j: int| 0 <= j < i ==> !char_lt(unicode_lower(x.0), unicode_lower(#[trigger] s[j].0)),
    ensures
        insert_row(s, x) == s.take(i) + insert_row(s.skip(i), x),
    decreases i,
{
    if i == 0 {
        assert(s.skip(0) =~= s);
        assert(s.take(0) + s.skip(0) =~= s);
    } else {
        assert(!char_lt(unicode_lower(x.0), unicode_lower(s[0].0)));
        lemma_insert_row_skip(s.drop_first(), x, i - 1);
        assert(s.take(i) =~= seq![s[0]] + s.drop_first().take(i - 1));
        assert(s.skip(i) =~= s.drop_first().skip(i - 1));
    }
}

/// Sort rows stably by lower-cased name.
fn sort_rows_vec(rows: Vec<BrowseRow>) -> (r: Vec<BrowseRow>)
    ensures
        rows_view(r@) == sort_rows(rows_view(rows@)),
{
    let mut out: Vec<BrowseRow> = Vec::new();
    let mut keys: Vec<Vec<char>> = Vec::new();
    let mut k: usize = 0;
    while k < rows.len()
        invariant
            k <= rows@.len(),
            keys@.len() == out@.len(),
            forall|j: int| 0 <= j < keys@.len() ==> (#[trigger] keys@[j])@ == unicode_lower(out@[j].name@),
            rows_view(out@) == sort_rows(rows_view(rows@.take(k as int))),
        decreases rows@.len() - k,
    {
        let row = BrowseRow { name: rows[k].name.clone(), kind: rows[k].kind, size: rows[k].size };
        let lower = to_lowercase(rows[k].name.as_str());
        let key = chars_of(lower.as_str());
        let ghost s = rows_view(out@);
        let ghost x = row_view(rows@[k as int]);
        proof {
            assert(rows_view(rows@.take(k + 1)) =~= rows_view(rows@.take(k as int)).push(x));
            assert(rows_view(rows@.take(k + 1)).drop_last() =~= rows_view(rows@.take(k as int)));
        }
        let mut i: usize = 0;
        while i < out.len() && !chars_lt(key.as_slice(), keys[i].as_slice())
            invariant
                i <= out@.len(),
                keys@.len() == out@.len(),
                forall|j: int| 0 <= j < keys@.len() ==> (#[trigger] keys@[j])@ == unicode_lower(out@[j].name@),
                s == rows_view(out@),
                key@ == unicode_lower(x.0),
                forall|j: int| 0 <= j < i ==> !char_lt(unicode_lower(x.0), unicode_lower(#[trigger] s[j].0)),
            decreases out@.len() - i,
        {
            i += 1;
        }
        proof {
            lemma_insert_row_skip(s, x, i as int);
            if i < out@.len() {
                assert(s.skip(i as int)[0] == s[i as int]);
                assert(insert_row(s.skip(i as int), x) == seq![x] + s.skip(i as int));
            } else {
                assert(s.skip(i as int) =~= Seq::<(Seq<char>, RowKind, Option<u64>)>::empty());
            }
        }
        out.insert(i, row);
        keys.insert(i, key);
        proof {
            assert(rows_view(out@) =~= s.take(i as int) + insert_row(s.skip(i as int), x));
        }
        k += 1;
    }
    assert(rows@.take(rows@.len() as int) =~= rows@);
    out
}

/// The rows visible inside an archive at `inner`.
pub fn archive_rows(listing: &Listing, inner: &str) -> (r: Vec<BrowseRow>)
    ensures
        rows_view(r@) == archive_rows_spec(listing.entries@, inner@),
{
    let inner_c = chars_of(inner);
    let mut dirs: Vec<Vec<char>> = Vec::new();
    let mut files: Vec<BrowseRow> = Vec::new();
    let mut k: usize = 0;
    while k < listing.entries.len()
        invariant
            k <= listing.entries@.len(),
            inner_c@ == inner@,
            names_view(dirs@) == dirs_at(listing.entries@.take(k as int), inner@),
            rows_view(files@) == files_at(listing.entries@.take(k as int), inner@),
        decreases listing.entries@.len() - k,
    {
        let e = &listing.entries[k];
        proof {
            assert(listing.entries@.take(k + 1).drop_last() =~= listing.entries@.take(k as int));
        }
        match classify(e.name.as_str(), e.is_dir, inner_c.as_slice()) {
            Some((seg, true)) => {
                insert_dir_vec(&mut dirs, seg);
            },
            Some((seg, false)) => {
                let ghost f = rows_view(files@);
                files.push(BrowseRow { name: string_of(seg.as_slice()), kind: RowKind::File, size: e.size });
                assert(rows_view(files@) =~= f.push((seg@, RowKind::File, e.size)));
            },
            None => {},
        }
        k += 1;
    }
    proof {
        assert(listing.entries@.take(listing.entries@.len() as int) =~= listing.entries@);
    }
    let sorted = sort_rows_vec(files);
    let mut rows: Vec<BrowseRow> = Vec::new();
    rows.push(BrowseRow { name: String::from_str(".."), kind: RowKind::Parent, size: None });
    let ghost ds = names_view(dirs@);
    let mut i: usize = 0;
    while i < dirs.len()
        invariant
            i <= dirs@.len(),
            ds == names_view(dirs@),
            rows_view(rows@) == seq![parent_row()] + ds.take(i as int).map_values(
                |d: Seq<char>| (d, RowKind::Dir, None::<u64>),
            ),
        decreases dirs@.len() - i,
    {
        let ghost before = rows_view(rows@);
        rows.push(BrowseRow { name: string_of(dirs[i].as_slice()), kind: RowKind::Dir, size: None });
        proof {
            assert(rows_view(rows@) =~= before.push((ds[i as int], RowKind::Dir, None::<u64>)));
            assert(ds.take(i + 1).map_values(|d: Seq<char>| (d, RowKind::Dir, None::<u64>)) =~= ds.take(
                i as int,
            ).map_values(|d: Seq<char>| (d, RowKind::Dir, None::<u64>)).push((ds[i as int], RowKind::Dir, None::<u64>)));
        }
        i += 1;
    }
    proof {
        assert(ds.take(ds.len() as int) =~= ds);
    }
    let ghost head = rows_view(rows@);
    let mut tail = sorted;
    rows.append(&mut tail);
    assert(rows_view(rows@) =~= head + rows_view(sorted@));
    rows
}

/// How a directory entry shows.
fn entry_row_of(e: &DirEntry) -> (r: BrowseRow)
    ensures
        row_view(r) == entry_row(*e),
{
    if e.is_dir {
        BrowseRow { name: e.name.clone(), kind: RowKind::Dir, size: None }
    } else if Format::from_path(e.name.as_str()).is_some() {
        BrowseRow { name: e.name.clone(), kind: RowKind::Archive, size: e.size }
    } else {
        BrowseRow { name: e.name.clone(), kind: RowKind::File, size: e.size }
    }
}

/// The rows of a directory whose entries the caller read.
pub fn fs_rows(entries: &[DirEntry]) -> (r: Vec<BrowseRow>)
    ensures
        rows_view(r@) == fs_rows_spec(entries@),
{
    let mut dirs: Vec<BrowseRow> = Vec::new();
    let mut files: Vec<BrowseRow> = Vec::new();
    let mut k: usize = 0;
    while k < entries.len()
        invariant
            k <= entries@.len(),
            rows_view(dirs@) == entries_of(entries@.take(k as int), true),
            rows_view(files@) == entries_of(entries@.take(k as int), false),
        decreases entries@.len() - k,
    {
        proof {
            assert(entries@.take(k + 1).drop_last() =~= entries@.take(k as int));
        }
        let row = entry_row_of(&entries[k]);
        if entries[k].is_dir {
            let ghost d = rows_view(dirs@);
            dirs.push(row);
            assert(rows_view(dirs@) =~= d.push(row_view(row)));
        } else {
            let ghost f = rows_view(files@);
            files.push(row);
            assert(rows_view(files@) =~= f.push(row_view(row)));
        }
        k += 1;
    }
    assert(entries@.take(entries@.len() as int) =~= entries@);
    let mut sorted_dirs = sort_rows_vec(dirs);
    let mut sorted_files = sort_rows_vec(files);
    let mut rows: Vec<BrowseRow> = Vec::new();
    rows.push(BrowseRow { name: String::from_str(".."), kind: RowKind::Parent, size: None });
    let ghost a = rows_view(sorted_dirs@);
    let ghost b = rows_view(sorted_files@);
    rows.append(&mut sorted_dirs);
    rows.append(&mut sorted_files);
    assert(rows_view(rows@) =~= seq![parent_row()] + a + b);
    rows
}

/// The rows at the top of the world, given which drive roots `A:\` to `Z:\`
/// exist and whether `/` does.
pub fn drive_rows(present: &[bool], unix_root: bool) -> (r: Vec<BrowseRow>)
    requires
        present@.len() == 26,
    ensures
        rows_view(r@) == drive_rows_spec(present@, unix_root),
{
    let mut rows: Vec<BrowseRow> = Vec::new();
    let mut i: usize = 0;
    while i < 26
        invariant
            i <= 26,
            present@.len() == 26,
            rows_view(rows@) == drives_upto(present@, i as int),
        decreases 26 - i,
    {
        if present[i] {
            let letter = (65 + i) as u8;
            let root = vec![letter as char, ':', '\\'];
            let ghost before = rows_view(rows@);
            rows.push(BrowseRow { name: string_of(root.as_slice()), kind: RowKind::Drive, size: None });
            proof {
                assert(root@ =~= drive_root(i as int));
                assert(rows_view(rows@) =~= before.push((drive_root(i as int), RowKind::Drive, None)));
            }
        }
        i += 1;
    }
    if rows.len() == 0 && unix_root {
        rows.push(BrowseRow { name: String::from_str("/"), kind: RowKind::Drive, size: None });
        assert(rows_view(rows@) =~= seq![("/"@, RowKind::Drive, None::<u64>)]);
    }
    rows
}

/// Where the Commander opens: the user's home folder (`USERPROFILE`, given as
/// `home`) when it is a directory, else the working directory `cwd`, else the
/// list of drives.
pub fn initial(home: Option<String>, home_is_dir: bool, cwd: Option<String>) -> (r: Location)
    ensures
        match home {
            Some(h) if home_is_dir => r == Location::Fs(h),
            _ => match cwd {
                Some(d) => r == Location::Fs(d),
                None => r is Drives,
            },
        },
{
    match home {
        Some(h) => {
            if home_is_dir {
                return Location::Fs(h);
            }
        },
        None => {},
    }
    match cwd {
        Some(d) => Location::Fs(d),
        None => Location::Drives,
    }
}

/// The rows visible at `loc`, given what was found on disk there.
pub open spec fn rows_spec(loc: Location, disk: Disk) -> Seq<(Seq<char>, RowKind, Option<u64>)> {
    match loc {
        Location::Drives => drive_rows_spec(disk.drives@, disk.unix_root),
        Location::Fs(_) => fs_rows_spec(disk.entries@),
        Location::Archive { listing, inner, .. } => archive_rows_spec(listing.entries@, inner@),
    }
}

/// The rows visible at `loc`, given what the caller found on disk there.
pub fn rows_for(loc: &Location, disk: &Disk) -> (r: Vec<BrowseRow>)
    requires
        loc is Drives ==> disk.drives@.len() == 26,
    ensures
        rows_view(r@) == rows_spec(*loc, *disk),
{
    match loc {
        Location::Drives => drive_rows(disk.drives.as_slice(), disk.unix_root),
        Location::Fs(_) => fs_rows(disk.entries.as_slice()),
        Location::Archive { listing, inner, .. } => archive_rows(listing, inner.as_str()),
    }
}

/// `"a/b/c/"` -> `"a/b/"`, `"a/"` -> `""`.
pub fn parent_inner(inner: &str) -> (r: String)
    ensures
        r@ == parent_inner_spec(inner@),
{
    let c = chars_of(inner);
    let t = trim_slashes_chars(c.as_slice());
    let mut n = t.len();
    while n > 0 && t[n - 1] != '/'
        invariant
            n <= t@.len(),
            last_slash(t@, t@.len() as int) == last_slash(t@, n as int),
        decreases n,
    {
        n -= 1;
    }
    if n == 0 {
        String::new()
    } else {
        string_of(&t[0..n])
    }
}

/// Where a step out of the directory `dir` leads.
fn dir_up(dir: &str) -> (r: Location)
    ensures
        match fs_up(dir@) {
            Some(p) => r matches Location::Fs(q) && q@ == p,
            None => r is Drives,
        },
{
    match parent_of(dir) {
        Some(p) => {
            if p.as_str().is_empty() {
                Location::Drives
            } else {
                Location::Fs(p)
            }
        },
        None => Location::Drives,
    }
}

/// Whether `l` is the location one step up from `loc`: the parent directory
/// (the drives above a root), or, inside an archive, the parent folder (the
/// archive's own directory above its root).
pub open spec fn up_target(loc: Location, l: Location) -> bool {
    match loc {
        Location::Drives => false,
        Location::Fs(dir) => match fs_up(dir@) {
            Some(p) => l matches Location::Fs(q) && q@ == p,
            None => l is Drives,
        },
        Location::Archive { path, format, listing, inner } => if inner@.len() == 0 {
            match fs_up(path@) {
                Some(p) => l matches Location::Fs(q) && q@ == p,
                None => l is Drives,
            }
        } else {
            l matches Location::Archive { path: p2, format: f2, listing: l2, inner: i2 } && p2@ == path@ && f2
                == format && l2 == listing && i2@ == parent_inner_spec(inner@)
        },
    }
}

/// The location one step up, if any.
pub fn up(loc: &Location) -> (r: Option<Location>)
    ensures
        match r {
            Some(l) => up_target(*loc, l),
            None => *loc is Drives,
        },
{
    match loc {
        Location::Drives => None,
        Location::Fs(dir) => Some(dir_up(dir.as_str())),
        Location::Archive { path, format, listing, inner } => {
            if inner.as_str().is_empty() {
                Some(dir_up(path.as_str()))
            } else {
                Some(
                    Location::Archive {
                        path: path.clone(),
                        format: *format,
                        listing: share(listing),
                        inner: parent_inner(inner.as_str()),
                    },
                )
            }
        },
    }
}

/// Another value of the same location.
pub fn copy_location(loc: &Location) -> (r: Location)
    ensures
        r == *loc,
{
    match loc {
        Location::Drives => Location::Drives,
        Location::Fs(d) => Location::Fs(d.clone()),
        Location::Archive { path, format, listing, inner } => Location::Archive {
            path: path.clone(),
            format: *format,
            listing: share(listing),
            inner: inner.clone(),
        },
    }
}

/// Activate a row at `loc` (a click / open).
pub fn activate(loc: &Location, row: &BrowseRow) -> (r: Activated)
    ensures
        match row.kind {
            RowKind::Parent => match *loc {
                Location::Drives => r is Stay,
                _ => r matches Activated::Go(l) && up_target(*loc, l),
            },
            RowKind::Drive => r matches Activated::Go(Location::Fs(d)) && d@ == row.name@,
            RowKind::Dir => match *loc {
                Location::Fs(dir) => r matches Activated::Go(Location::Fs(d)) && d@ == path_join(dir@, row.name@),
                Location::Archive { path, format, listing, inner } => r matches Activated::Go(
                    Location::Archive { path: p2, format: f2, listing: l2, inner: i2 },
                ) && p2@ == path@ && f2 == format && l2 == listing && i2@ == inner@ + row.name@ + "/"@,
                Location::Drives => r is Stay,
            },
            RowKind::Archive => match *loc {
                Location::Fs(dir) => match path_file_name(path_join(dir@, row.name@)) {
                    Some(n) => match format_by_suffix(n) {
                        Some(f) => r matches Activated::Open { path: p, format: f2 } && p@ == path_join(
                            dir@,
                            row.name@,
                        ) && f2 == f,
                        None => r is Stay,
                    },
                    None => r is Stay,
                },
                _ => r is Stay,
            },
            RowKind::File => r is Stay,
        },
{
    match row.kind {
        RowKind::Parent => match up(loc) {
            Some(l) => Activated::Go(l),
            None => Activated::Stay,
        },
        RowKind::Drive => Activated::Go(Location::Fs(row.name.clone())),
        RowKind::Dir => match loc {
            Location::Fs(dir) => Activated::Go(Location::Fs(join(dir.as_str(), row.name.as_str()))),
            Location::Archive { path, format, listing, inner } => {
                let mut i = inner.clone();
                i.append(row.name.as_str());
                i.append("/");
                Activated::Go(
                    Location::Archive { path: path.clone(), format: *format, listing: share(listing), inner: i },
                )
            },
            Location::Drives => Activated::Stay,
        },
        RowKind::Archive => match loc {
            Location::Fs(dir) => {
                let target = join(dir.as_str(), row.name.as_str());
                match Format::from_path(target.as_str()) {
                    Some(format) => Activated::Open { path: target, format },
                    None => Activated::Stay,
                }
            },
            _ => Activated::Stay,
        },
        RowKind::File => Activated::Stay,
    }
}

/// Step into the archive at `path` once the caller has listed it: its root on
/// success, else the reason it could not be read.
pub fn entered(path: String, format: Format, listing: Result<Listing, String>) -> (r: Activated)
    ensures
        match listing {
            Ok(l) => r matches Activated::Go(Location::Archive { path: p, format: f, listing: l2, inner: i })
                && p == path && f == format && *l2 == l && i@.len() == 0,
            Err(e) => r matches Activated::Error(m) && m@ == "could not read archive: "@ + e@,
        },
{
    match listing {
        Ok(l) => Activated::Go(Location::Archive { path, format, listing: Arc::new(l), inner: String::new() }),
        Err(e) => {
            let mut m = String::from_str("could not read archive: ");
            m.append(e.as_str());
            Activated::Error(m)
        },
    }
}

/// Stepping into a folder inside an archive and then up again comes back to
/// where it started: for a folder name that is non-empty and holds no `/`, and
/// a position that is the root or ends in `/`.
pub proof fn lemma_up_after_enter(inner: Seq<char>, name: Seq<char>)
    requires
        inner.len() == 0 || inner.last() == '/',
        name.len() > 0,
        forall|i: int| 0 <= i < name.len() ==> name[i] != '/',
    ensures
        parent_inner_spec(inner + name + "/"@) == inner,
{
    reveal_strlit("/");
    let s = inner + name + "/"@;
    let t = inner + name;
    assert(s.drop_last() =~= t);
    assert(trim_slashes(t) == t);
    assert(trim_slashes(s) == t);
    lemma_last_slash_skips(t, inner.len() as int, t.len() as int);
    if inner.len() > 0 {
        assert(t[inner.len() - 1] == '/');
        assert(t.take(inner.len() as int) =~= inner);
    }
}

/// No `/` between `lo` and `n` leaves the last one below `lo`.
proof fn lemma_last_slash_skips(t: Seq<char>, lo: int, n: int)
    requires
        0 <= lo <= n <= t.len(),
        forall|i: int| lo <= i < n ==> t[i] != '/',
    ensures
        last_slash(t, n) == last_slash(t, lo),
    decreases n - lo,
{
    if n > lo {
        lemma_last_slash_skips(t, lo, n - 1);
    }
}


/// Names in strictly increasing order: sorted, each once.
pub open spec fn increasing(s: Seq<Seq<char>>) -> bool {
    forall|i: int, j: int| 0 <= i < j < s.len() ==> char_lt(#[trigger] s[i], #[trigger] s[j])
}

/// Rows in order of lower-cased name.
pub open spec fn sorted_by_name(s: Seq<(Seq<char>, RowKind, Option<u64>)>) -> bool {
    forall|i: int, j: int|
        0 <= i < j < s.len() ==> !char_lt(unicode_lower(#[trigger] s[j].0), unicode_lower(#[trigger] s[i].0))
}

/// Adding a name keeps the list increasing, and adds just that name.
proof fn lemma_insert_dir_increasing(s: Seq<Seq<char>>, x: Seq<char>)
    requires
        increasing(s),
    ensures
        increasing(insert_dir(s, x)),
        forall|y: Seq<char>| #[trigger] insert_dir(s, x).contains(y) <==> (y == x || s.contains(y)),
    decreases s.len(),
{
    if s.len() == 0 {
        assert(insert_dir(s, x) =~= seq![x]);
        assert forall|y: Seq<char>| #[trigger] insert_dir(s, x).contains(y) <==> (y == x || s.contains(y)) by {
            if insert_dir(s, x).contains(y) {
                assert(insert_dir(s, x)[0] == x);
            }
            if y == x {
                assert(insert_dir(s, x)[0] == y);
            }
        }
    } else if s[0] == x {
        assert forall|y: Seq<char>| #[trigger] insert_dir(s, x).contains(y) <==> (y == x || s.contains(y)) by {
            if y == x {
                assert(s[0] == y);
            }
        }
    } else if char_lt(x, s[0]) {
        let r = seq![x] + s;
        assert(insert_dir(s, x) == r);
        assert forall|i: int, j: int| 0 <= i < j < r.len() implies char_lt(#[trigger] r[i], #[trigger] r[j]) by {
            if i == 0 {
                if j > 1 {
                    assert(char_lt(s[0], s[j - 1]));
                    lemma_char_lt_transitive(x, s[0], s[j - 1]);
                }
            } else {
                assert(r[i] == s[i - 1] && r[j] == s[j - 1]);
            }
        }
        assert forall|y: Seq<char>| #[trigger] r.contains(y) <==> (y == x || s.contains(y)) by {
            if r.contains(y) {
                let k = choose|k: int| 0 <= k < r.len() && r[k] == y;
                if k > 0 {
                    assert(s[k - 1] == y);
                }
            }
            if y == x {
                assert(r[0] == y);
            }
            if s.contains(y) {
                let k = choose|k: int| 0 <= k < s.len() && s[k] == y;
                assert(r[k + 1] == y);
            }
        }
    } else {
        let t = s.drop_first();
        assert(increasing(t)) by {
            assert forall|i: int, j: int| 0 <= i < j < t.len() implies char_lt(#[trigger] t[i], #[trigger] t[j]) by {
                assert(t[i] == s[i + 1] && t[j] == s[j + 1]);
            }
        }
        lemma_insert_dir_increasing(t, x);
        let rest = insert_dir(t, x);
        let r = seq![s[0]] + rest;
        assert(insert_dir(s, x) == r);
        lemma_char_lt_total(x, s[0]);
        assert forall|i: int, j: int| 0 <= i < j < r.len() implies char_lt(#[trigger] r[i], #[trigger] r[j]) by {
            if i == 0 {
                assert(rest.contains(r[j])) by {
                    assert(rest[j - 1] == r[j]);
                }
                if r[j] != x {
                    let k = choose|k: int| 0 <= k < t.len() && t[k] == r[j];
                    assert(char_lt(s[0], s[k + 1]));
                }
            } else {
                assert(r[i] == rest[i - 1] && r[j] == rest[j - 1]);
            }
        }
        assert forall|y: Seq<char>| #[trigger] r.contains(y) <==> (y == x || s.contains(y)) by {
            if r.contains(y) {
                let k = choose|k: int| 0 <= k < r.len() && r[k] == y;
                if k > 0 {
                    assert(rest.contains(y)) by {
                        assert(rest[k - 1] == y);
                    }
                    if y != x {
                        let m = choose|m: int| 0 <= m < t.len() && t[m] == y;
                        assert(s[m + 1] == y);
                    }
                } else {
                    assert(s[0] == y);
                }
            }
            if y == x {
                assert(rest.contains(y));
                let k = choose|k: int| 0 <= k < rest.len() && rest[k] == y;
                assert(r[k + 1] == y);
            }
            if s.contains(y) {
                let k = choose|k: int| 0 <= k < s.len() && s[k] == y;
                if k == 0 {
                    assert(r[0] == y);
                } else {
                    assert(t[k - 1] == y);
                    assert(rest.contains(y));
                    let m = choose|m: int| 0 <= m < rest.len() && rest[m] == y;
                    assert(r[m + 1] == y);
                }
            }
        }
    }
}

/// Inserting a row is inserting it at some place, and keeps the rows in order.
proof fn lemma_insert_row_sorted(s: Seq<(Seq<char>, RowKind, Option<u64>)>, x: (Seq<char>, RowKind, Option<u64>)) -> (k: int)
    requires
        sorted_by_name(s),
    ensures
        0 <= k <= s.len(),
        insert_row(s, x) == s.insert(k, x),
        sorted_by_name(insert_row(s, x)),
    decreases s.len(),
{
    if s.len() == 0 {
        assert(insert_row(s, x) =~= s.insert(0, x));
        0
    } else if char_lt(unicode_lower(x.0), unicode_lower(s[0].0)) {
        let r = seq![x] + s;
        assert(r =~= s.insert(0, x));
        assert forall|i: int, j: int| 0 <= i < j < r.len() implies !char_lt(
            unicode_lower(#[trigger] r[j].0),
            unicode_lower(#[trigger] r[i].0),
        ) by {
            if i == 0 {
                if j == 1 {
                    lemma_char_lt_asymmetric(unicode_lower(x.0), unicode_lower(s[0].0));
                } else {
                    assert(!char_lt(unicode_lower(s[j - 1].0), unicode_lower(s[0].0)));
                    if char_lt(unicode_lower(s[j - 1].0), unicode_lower(x.0)) {
                        lemma_char_lt_transitive(unicode_lower(s[j - 1].0), unicode_lower(x.0), unicode_lower(s[0].0));
                    }
                }
            } else {
                assert(r[i] == s[i - 1] && r[j] == s[j - 1]);
            }
        }
        0
    } else {
        let t = s.drop_first();
        assert(sorted_by_name(t)) by {
            assert forall|i: int, j: int| 0 <= i < j < t.len() implies !char_lt(
                unicode_lower(#[trigger] t[j].0),
                unicode_lower(#[trigger] t[i].0),
            ) by {
                assert(t[i] == s[i + 1] && t[j] == s[j + 1]);
            }
        }
        let k = lemma_insert_row_sorted(t, x);
        let rest = insert_row(t, x);
        let r = seq![s[0]] + rest;
        assert(r =~= s.insert(k + 1, x));
        assert forall|i: int, j: int| 0 <= i < j < r.len() implies !char_lt(
            unicode_lower(#[trigger] r[j].0),
            unicode_lower(#[trigger] r[i].0),
        ) by {
            if i == 0 {
                if j - 1 == k {
                    assert(r[j] == x);
                } else {
                    let m = if j - 1 < k { j - 1 } else { j - 2 };
                    assert(r[j] == t[m]);
                    assert(!char_lt(unicode_lower(s[m + 1].0), unicode_lower(s[0].0)));
                }
            } else {
                assert(r[i] == rest[i - 1] && r[j] == rest[j - 1]);
            }
        }
        k + 1
    }
}

/// Sorting rows keeps every row, once each, in order of lower-cased name.
pub proof fn lemma_sort_rows(s: Seq<(Seq<char>, RowKind, Option<u64>)>)
    ensures
        sorted_by_name(sort_rows(s)),
        sort_rows(s).to_multiset() == s.to_multiset(),
    decreases s.len(),
{
    broadcast use vstd::seq_lib::group_to_multiset_ensures;

    if s.len() > 0 {
        lemma_sort_rows(s.drop_last());
        let k = lemma_insert_row_sorted(sort_rows(s.drop_last()), s.last());
        assert(s =~= s.drop_last().push(s.last()));
    }
}

/// The rows inside an archive are in order: each folder once, in increasing
/// order, exactly the folders one level below `inner`; then the files, each
/// kept, by lower-cased name.
pub proof fn lemma_archive_rows_ordered(entries: Seq<Entry>, inner: Seq<char>)
    ensures
        increasing(dirs_at(entries, inner)),
        forall|d: Seq<char>|
            #[trigger] dirs_at(entries, inner).contains(d) <==> exists|i: int|
                0 <= i < entries.len() && member_at(entries[i].name@, entries[i].is_dir, inner) == Some((d, true)),
        sorted_by_name(sort_rows(files_at(entries, inner))),
        sort_rows(files_at(entries, inner)).to_multiset() == files_at(entries, inner).to_multiset(),
    decreases entries.len(),
{
    lemma_sort_rows(files_at(entries, inner));
    if entries.len() > 0 {
        let pre = entries.drop_last();
        lemma_archive_rows_ordered(pre, inner);
        let d = dirs_at(pre, inner);
        match member_at(entries.last().name@, entries.last().is_dir, inner) {
            Some((seg, true)) => {
                lemma_insert_dir_increasing(d, seg);
            },
            _ => {},
        }
        assert forall|x: Seq<char>|
            #[trigger] dirs_at(entries, inner).contains(x) <==> exists|i: int|
                0 <= i < entries.len() && member_at(entries[i].name@, entries[i].is_dir, inner) == Some((x, true)) by {
            if exists|i: int| 0 <= i < entries.len() && member_at(entries[i].name@, entries[i].is_dir, inner) == Some((x, true)) {
                let i = choose|i: int| 0 <= i < entries.len() && member_at(entries[i].name@, entries[i].is_dir, inner) == Some((x, true));
                if i < entries.len() - 1 {
                    assert(pre[i] == entries[i]);
                }
            }
            if dirs_at(pre, inner).contains(x) {
                let i = choose|i: int| 0 <= i < pre.len() && member_at(pre[i].name@, pre[i].is_dir, inner) == Some((x, true));
                assert(entries[i] == pre[i]);
            }
        }
    }
}

/// Whether `name` lies directly at `inner` as the row named `x`: once its
/// trailing slashes are dropped it is `inner` followed by a non-empty `x` that
/// holds no `/`.
pub open spec fn lies_at(name: Seq<char>, inner: Seq<char>, x: Seq<char>) -> bool {
    trim_slashes(name) == inner + x && x.len() > 0 && !x.contains('/')
}

/// Without a `/` from `i` on, the first one is at the end; and where the first
/// one is at the end, there is none from `i` on.
proof fn lemma_first_slash_none(s: Seq<char>, i: int)
    requires
        0 <= i <= s.len(),
    ensures
        (forall|m: int| i <= m < s.len() ==> s[m] != '/') <==> first_slash(s, i) == s.len(),
    decreases s.len() - i,
{
    if i < s.len() {
        lemma_first_slash_none(s, i + 1);
        if s[i] == '/' {
            assert(first_slash(s, i) == i);
        }
    }
}

/// The first `/` from `i` on is never past the end.
proof fn lemma_first_slash_bound(s: Seq<char>, i: int)
    requires
        0 <= i,
    ensures
        first_slash(s, i) <= s.len(),
    decreases s.len() - i,
{
    if i < s.len() {
        lemma_first_slash_bound(s, i + 1);
    }
}

/// A member lying directly at `inner` shows there under its own name, as what
/// it is; a member that shows as a file lies directly at `inner` and is no
/// folder.
proof fn lemma_member_at_direct(name: Seq<char>, is_dir: bool, inner: Seq<char>, x: Seq<char>)
    ensures
        lies_at(name, inner, x) ==> member_at(name, is_dir, inner) == Some((x, is_dir)),
        member_at(name, is_dir, inner) == Some((x, false)) ==> !is_dir && lies_at(name, inner, x),
{
    let full = trim_slashes(name);
    if lies_at(name, inner, x) {
        assert(full.take(inner.len() as int) =~= inner);
        assert(full.skip(inner.len() as int) =~= x);
        lemma_first_slash_none(x, 0);
        assert forall|m: int| 0 <= m < x.len() implies x[m] != '/' by {
            if x[m] == '/' {
                assert(x.contains('/'));
            }
        }
    }
    if member_at(name, is_dir, inner) == Some((x, false)) {
        let rest = full.skip(inner.len() as int);
        lemma_first_slash_none(rest, 0);
        lemma_first_slash_bound(rest, 0);
        assert(first_slash(rest, 0) == rest.len());
        assert(rest == x);
        assert(!x.contains('/')) by {
            if x.contains('/') {
                let m = choose|m: int| 0 <= m < x.len() && x[m] == '/';
                assert(rest[m] == '/');
            }
        }
        assert(full =~= inner + x) by {
            assert(full.take(inner.len() as int) == inner);
            assert(full =~= full.take(inner.len() as int) + full.skip(inner.len() as int));
        }
    }
}

/// The file rows at `inner` are exactly the members that show there as files,
/// each with its size.
proof fn lemma_files_at_members(entries: Seq<Entry>, inner: Seq<char>)
    ensures
        forall|r: (Seq<char>, RowKind, Option<u64>)|
            #[trigger] files_at(entries, inner).contains(r) ==> exists|i: int|
                0 <= i < entries.len() && member_at(entries[i].name@, entries[i].is_dir, inner) == Some((r.0, false))
                    && r.1 == RowKind::File && r.2 == entries[i].size,
        forall|i: int|
            0 <= i < entries.len() && (#[trigger] member_at(entries[i].name@, entries[i].is_dir, inner)) is Some
                && !(member_at(entries[i].name@, entries[i].is_dir, inner)->0).1 ==> files_at(entries, inner).contains(
                ((member_at(entries[i].name@, entries[i].is_dir, inner)->0).0, RowKind::File, entries[i].size),
            ),
    decreases entries.len(),
{
    if entries.len() > 0 {
        let pre = entries.drop_last();
        lemma_files_at_members(pre, inner);
        let f = files_at(pre, inner);
        let e = entries.last();
        assert forall|r: (Seq<char>, RowKind, Option<u64>)|
            #[trigger] files_at(entries, inner).contains(r) implies exists|i: int|
                0 <= i < entries.len() && member_at(entries[i].name@, entries[i].is_dir, inner) == Some((r.0, false))
                    && r.1 == RowKind::File && r.2 == entries[i].size by {
            let k = choose|k: int| 0 <= k < files_at(entries, inner).len() && files_at(entries, inner)[k] == r;
            if k < f.len() {
                assert(f[k] == r);
                assert(f.contains(r));
                let i = choose|i: int|
                    0 <= i < pre.len() && member_at(pre[i].name@, pre[i].is_dir, inner) == Some((r.0, false))
                        && r.1 == RowKind::File && r.2 == pre[i].size;
                assert(entries[i] == pre[i]);
            } else {
                assert(entries[entries.len() - 1] == e);
            }
        }
        assert forall|i: int|
            0 <= i < entries.len() && (#[trigger] member_at(entries[i].name@, entries[i].is_dir, inner)) is Some
                && !(member_at(entries[i].name@, entries[i].is_dir, inner)->0).1 implies files_at(
                entries,
                inner,
            ).contains(((member_at(entries[i].name@, entries[i].is_dir, inner)->0).0, RowKind::File, entries[i].size))
            by {
            let x = (member_at(entries[i].name@, entries[i].is_dir, inner)->0).0;
            if i < pre.len() {
                assert(entries[i] == pre[i]);
                assert(f.contains((x, RowKind::File, pre[i].size)));
                let k = choose|k: int| 0 <= k < f.len() && f[k] == (x, RowKind::File, pre[i].size);
                match member_at(e.name@, e.is_dir, inner) {
                    Some((seg, false)) => {
                        assert(files_at(entries, inner)[k] == f[k]);
                    },
                    _ => {},
                }
            } else {
                assert(entries[i] == e);
                let g = files_at(entries, inner);
                assert(g[g.len() - 1] == (x, RowKind::File, e.size));
            }
        }
    }
}

/// Browsing inside an archive shows each member lying directly at `inner` as
/// what it is: a folder member as a folder row (whether or not its name ends in
/// `/`), never as a file; a file member as a file row with its size. And every
/// file row is such a file member.
pub proof fn lemma_archive_rows_members(entries: Seq<Entry>, inner: Seq<char>)
    ensures
        forall|i: int, x: Seq<char>|
            0 <= i < entries.len() && entries[i].is_dir && #[trigger] lies_at(entries[i].name@, inner, x)
                ==> archive_rows_spec(entries, inner).contains((x, RowKind::Dir, None::<u64>)),
        forall|i: int, x: Seq<char>|
            0 <= i < entries.len() && !entries[i].is_dir && #[trigger] lies_at(entries[i].name@, inner, x)
                ==> archive_rows_spec(entries, inner).contains((x, RowKind::File, entries[i].size)),
        forall|p: int|
            0 <= p < archive_rows_spec(entries, inner).len() && (#[trigger] archive_rows_spec(entries, inner)[p]).1
                == RowKind::File ==> exists|i: int|
                0 <= i < entries.len() && !entries[i].is_dir && lies_at(
                    entries[i].name@,
                    inner,
                    archive_rows_spec(entries, inner)[p].0,
                ) && archive_rows_spec(entries, inner)[p].2 == entries[i].size,
{
    broadcast use vstd::seq_lib::group_to_multiset_ensures;

    let rows = archive_rows_spec(entries, inner);
    let dirs = dirs_at(entries, inner);
    let dm = dirs.map_values(|d: Seq<char>| (d, RowKind::Dir, None::<u64>));
    let files = files_at(entries, inner);
    let sf = sort_rows(files);
    lemma_archive_rows_ordered(entries, inner);
    lemma_files_at_members(entries, inner);
    assert(rows == seq![parent_row()] + dm + sf);
    assert forall|i: int, x: Seq<char>|
        0 <= i < entries.len() && entries[i].is_dir && #[trigger] lies_at(entries[i].name@, inner, x)
            implies rows.contains((x, RowKind::Dir, None::<u64>)) by {
        lemma_member_at_direct(entries[i].name@, entries[i].is_dir, inner, x);
        assert(dirs.contains(x));
        let k = choose|k: int| 0 <= k < dirs.len() && dirs[k] == x;
        assert(rows[1 + k] == dm[k]);
    }
    assert forall|i: int, x: Seq<char>|
        0 <= i < entries.len() && !entries[i].is_dir && #[trigger] lies_at(entries[i].name@, inner, x)
            implies rows.contains((x, RowKind::File, entries[i].size)) by {
        lemma_member_at_direct(entries[i].name@, entries[i].is_dir, inner, x);
        let r = (x, RowKind::File, entries[i].size);
        assert(member_at(entries[i].name@, entries[i].is_dir, inner) == Some((x, false)));
        assert(files.contains(r));
        assert(files.to_multiset().count(r) > 0);
        assert(sf.contains(r));
        let k = choose|k: int| 0 <= k < sf.len() && sf[k] == r;
        assert(rows[1 + dm.len() + k] == sf[k]);
    }
    assert forall|p: int|
        0 <= p < rows.len() && (#[trigger] rows[p]).1 == RowKind::File implies exists|i: int|
            0 <= i < entries.len() && !entries[i].is_dir && lies_at(entries[i].name@, inner, rows[p].0) && rows[p].2
                == entries[i].size by {
        if p == 0 {
            assert(rows[0] == parent_row());
        } else if p < 1 + dm.len() {
            assert(rows[p] == dm[p - 1]);
        } else {
            let r = rows[p];
            assert(r == sf[p - 1 - dm.len()]);
            assert(sf.contains(r));
            assert(sf.to_multiset().count(r) > 0);
            assert(files.contains(r));
            let i = choose|i: int|
                0 <= i < entries.len() && member_at(entries[i].name@, entries[i].is_dir, inner) == Some((r.0, false))
                    && r.1 == RowKind::File && r.2 == entries[i].size;
            lemma_member_at_direct(entries[i].name@, entries[i].is_dir, inner, r.0);
        }
    }
}

/// Where the first `/` from `i` on is: nothing before it is a `/`, and it is
/// one unless it is the end.
proof fn lemma_first_slash_at(s: Seq<char>, i: int)
    requires
        0 <= i <= s.len(),
    ensures
        i <= first_slash(s, i) <= s.len(),
        forall|m: int| i <= m < first_slash(s, i) ==> s[m] != '/',
        first_slash(s, i) < s.len() ==> s[first_slash(s, i)] == '/',
    decreases s.len() - i,
{
    if i < s.len() {
        lemma_first_slash_at(s, i + 1);
    }
}

/// Whether `name` lies below `inner` inside the folder `x`: once its trailing
/// slashes are dropped it starts with `inner`, then `x` without `/`, then a `/`.
pub open spec fn lies_under(name: Seq<char>, inner: Seq<char>, x: Seq<char>) -> bool {
    starts_with(trim_slashes(name), inner + x + seq!['/']) && !x.contains('/')
}

/// A member deeper below `inner` shows as the folder it lies in; a member that
/// shows as a folder is a folder member lying directly at `inner` or a member
/// lying below it inside that folder.
proof fn lemma_member_at_folder(name: Seq<char>, is_dir: bool, inner: Seq<char>, x: Seq<char>)
    ensures
        lies_under(name, inner, x) ==> member_at(name, is_dir, inner) == Some((x, true)),
        member_at(name, is_dir, inner) == Some((x, true)) ==> (is_dir && lies_at(name, inner, x)) || lies_under(
            name,
            inner,
            x,
        ),
{
    let full = trim_slashes(name);
    let p = inner + x + seq!['/'];
    if lies_under(name, inner, x) {
        assert(full.take(p.len() as int) == p);
        assert(full.take(inner.len() as int) =~= inner) by {
            assert forall|m: int| 0 <= m < inner.len() implies full.take(inner.len() as int)[m] == inner[m] by {
                assert(full.take(p.len() as int)[m] == p[m]);
            }
        }
        let rest = full.skip(inner.len() as int);
        lemma_first_slash_at(rest, 0);
        assert(rest[x.len() as int] == '/') by {
            assert(full.take(p.len() as int)[(inner.len() + x.len()) as int] == p[(inner.len() + x.len()) as int]);
        }
        assert forall|m: int| 0 <= m < x.len() implies rest[m] != '/' by {
            assert(full.take(p.len() as int)[inner.len() + m] == p[inner.len() + m]);
            assert(rest[m] == x[m]);
            if x[m] == '/' {
                assert(x.contains('/'));
            }
        }
        assert(first_slash(rest, 0) == x.len()) by {
            if first_slash(rest, 0) < x.len() {
                assert(rest[first_slash(rest, 0)] == '/');
            }
        }
        assert(rest.take(x.len() as int) =~= x) by {
            assert forall|m: int| 0 <= m < x.len() implies rest.take(x.len() as int)[m] == x[m] by {
                assert(full.take(p.len() as int)[inner.len() + m] == p[inner.len() + m]);
            }
        }
    }
    if member_at(name, is_dir, inner) == Some((x, true)) {
        let rest = full.skip(inner.len() as int);
        lemma_first_slash_at(rest, 0);
        let k = first_slash(rest, 0);
        assert(full =~= inner + rest) by {
            assert(full.take(inner.len() as int) == inner);
            assert(full =~= full.take(inner.len() as int) + full.skip(inner.len() as int));
        }
        if k < rest.len() {
            assert(rest.take(k) == x);
            assert(!x.contains('/')) by {
                if x.contains('/') {
                    let m = choose|m: int| 0 <= m < x.len() && x[m] == '/';
                    assert(rest[m] == '/');
                }
            }
            assert(full.take(p.len() as int) =~= p) by {
                assert forall|m: int| 0 <= m < p.len() implies full.take(p.len() as int)[m] == p[m] by {
                    if m < inner.len() {
                    } else if m < inner.len() + x.len() {
                        assert(rest[m - inner.len()] == x[m - inner.len()]);
                    } else {
                        assert(rest[k] == '/');
                    }
                }
            }
        } else {
            assert(rest == x);
            assert(!x.contains('/')) by {
                if x.contains('/') {
                    let m = choose|m: int| 0 <= m < x.len() && x[m] == '/';
                    assert(rest[m] == '/');
                }
            }
        }
    }
}

/// The folder rows inside an archive are exactly the folders at `inner`: each
/// folder member lying directly there, and each folder that holds a member
/// lying below it; every folder row is one of these.
pub proof fn lemma_archive_rows_folders(entries: Seq<Entry>, inner: Seq<char>)
    ensures
        forall|i: int, x: Seq<char>|
            0 <= i < entries.len() && #[trigger] lies_under(entries[i].name@, inner, x)
                ==> archive_rows_spec(entries, inner).contains((x, RowKind::Dir, None::<u64>)),
        forall|p: int|
            0 <= p < archive_rows_spec(entries, inner).len() && (#[trigger] archive_rows_spec(entries, inner)[p]).1
                == RowKind::Dir ==> archive_rows_spec(entries, inner)[p].2 is None && exists|i: int|
                0 <= i < entries.len() && ((entries[i].is_dir && lies_at(
                    entries[i].name@,
                    inner,
                    archive_rows_spec(entries, inner)[p].0,
                )) || lies_under(entries[i].name@, inner, archive_rows_spec(entries, inner)[p].0)),
{
    broadcast use vstd::seq_lib::group_to_multiset_ensures;

    let rows = archive_rows_spec(entries, inner);
    let dirs = dirs_at(entries, inner);
    let dm = dirs.map_values(|d: Seq<char>| (d, RowKind::Dir, None::<u64>));
    let files = files_at(entries, inner);
    let sf = sort_rows(files);
    lemma_archive_rows_ordered(entries, inner);
    lemma_files_at_members(entries, inner);
    assert(rows == seq![parent_row()] + dm + sf);
    assert forall|i: int, x: Seq<char>|
        0 <= i < entries.len() && #[trigger] lies_under(entries[i].name@, inner, x) implies rows.contains(
            (x, RowKind::Dir, None::<u64>),
        ) by {
        lemma_member_at_folder(entries[i].name@, entries[i].is_dir, inner, x);
        assert(dirs.contains(x));
        let k = choose|k: int| 0 <= k < dirs.len() && dirs[k] == x;
        assert(rows[1 + k] == dm[k]);
    }
    assert forall|p: int| 0 <= p < rows.len() && (#[trigger] rows[p]).1 == RowKind::Dir implies rows[p].2 is None
        && exists|i: int|
        0 <= i < entries.len() && ((entries[i].is_dir && lies_at(entries[i].name@, inner, rows[p].0)) || lies_under(
            entries[i].name@,
            inner,
            rows[p].0,
        )) by {
        if p == 0 {
            assert(rows[0] == parent_row());
        } else if p < 1 + dm.len() {
            let x = dirs[p - 1];
            assert(rows[p] == dm[p - 1]);
            assert(dirs.contains(x));
            let i = choose|i: int|
                0 <= i < entries.len() && member_at(entries[i].name@, entries[i].is_dir, inner) == Some((x, true));
            lemma_member_at_folder(entries[i].name@, entries[i].is_dir, inner, x);
        } else {
            let r = rows[p];
            assert(r == sf[p - 1 - dm.len()]);
            assert(sf.contains(r));
            assert(sf.to_multiset().count(r) > 0);
            assert(files.contains(r));
        }
    }
}

} // verus!
