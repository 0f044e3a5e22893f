//! How the desktop front-end is launched, and how it names its output.
use crate::format::{format_by_suffix, Format};
use crate::paths::{file_name_of, join, parent_of, path_file_name, path_join, path_parent};
use crate::text::{chars_of, ends_with, ends_with_lower, lower_seq, string_of};
use vstd::prelude::*;
use vstd::string::{StrSliceExecFns, StringExecFns};

verus! {

/// What the front-end was asked to do at launch.
#[derive(Clone, Debug)]
pub enum Launch {
    /// Open normally.
    Normal,
    /// Open in compress mode with this input.
    Compress(String),
    /// Open in extract mode with this archive.
    Extract(String),
    /// Open the Commander at this path.
    Browse(String),
}

impl Launch {
    /// Paths to forward to an already-running instance.
    pub fn forward_paths(&self) -> (r: Vec<String>)
        ensures
            match *self {
                Launch::Compress(p) => r@.len() == 1 && r@[0]@ == p@,
                _ => r@.len() == 0,
            },
    {
        match self {
            Launch::Compress(p) => vec![p.clone()],
            _ => Vec::new(),
        }
    }
}

/// What the arguments ask for: `--compress`/`-c`, `--extract`/`-x` or
/// `--browse`/`-b` with a path, or a bare path (an existing archive file opens
/// for extraction, anything else that exists for compression). `exists` and
/// `is_dir` describe `first` as a path.
pub open spec fn launch_spec(first: Option<Seq<char>>, second: Option<Seq<char>>, exists: bool, is_dir: bool) -> Option<(int, Seq<char>)> {
    match first {
        None => None,
        Some(f) => if f == "--compress"@ || f == "-c"@ {
            match second {
                Some(p) => Some((1, p)),
                None => None,
            }
        } else if f == "--extract"@ || f == "-x"@ {
            match second {
                Some(p) => Some((2, p)),
                None => None,
            }
        } else if f == "--browse"@ || f == "-b"@ {
            match second {
                Some(p) => Some((3, p)),
                None => None,
            }
        } else if !exists {
            None
        } else if !is_dir && (match path_file_name(f) {
            Some(n) => format_by_suffix(n),
            None => None,
        }) is Some {
            Some((2, f))
        } else {
            Some((1, f))
        },
    }
}

/// A launch as plain values: 0 normal, 1 compress, 2 extract, 3 browse.
pub open spec fn launch_view(l: Launch) -> Option<(int, Seq<char>)> {
    match l {
        Launch::Normal => None,
        Launch::Compress(p) => Some((1, p@)),
        Launch::Extract(p) => Some((2, p@)),
        Launch::Browse(p) => Some((3, p@)),
    }
}

/// The launch of kind `k` (1 compress, 2 extract, 3 browse) with the path, if given.
fn with_path(k: u8, second: Option<&str>) -> (l: Launch)
    requires
        1 <= k <= 3,
    ensures
        match second {
            Some(p) => launch_view(l) == Some((k as int, p@)),
            None => l is Normal,
        },
{
    match second {
        Some(p) => if k == 1 {
            Launch::Compress(String::from_str(p))
        } else if k == 2 {
            Launch::Extract(String::from_str(p))
        } else {
            Launch::Browse(String::from_str(p))
        },
        None => Launch::Normal,
    }
}

/// Decide the launch from the first two arguments.
pub fn launch_from(first: Option<&str>, second: Option<&str>, exists: bool, is_dir: bool) -> (r: Launch)
    ensures
        launch_view(r) == launch_spec(
            match first {
                Some(f) => Some(f@),
                None => None,
            },
            match second {
                Some(s) => Some(s@),
                None => None,
            },
            exists,
            is_dir,
        ),
{
    let f = match first {
        Some(f) => f,
        None => return Launch::Normal,
    };
    let fc = chars_of(f);
    if crate::text::chars_eq(fc.as_slice(), "--compress") || crate::text::chars_eq(fc.as_slice(), "-c") {
        return with_path(1, second);
    }
    if crate::text::chars_eq(fc.as_slice(), "--extract") || crate::text::chars_eq(fc.as_slice(), "-x") {
        return with_path(2, second);
    }
    if crate::text::chars_eq(fc.as_slice(), "--browse") || crate::text::chars_eq(fc.as_slice(), "-b") {
        return with_path(3, second);
    }
    if !exists {
        Launch::Normal
    } else if !is_dir && Format::from_path(f).is_some() {
        Launch::Extract(String::from_str(f))
    } else {
        Launch::Compress(String::from_str(f))
    }
}

/// How many archive suffixes an output name is checked for.
pub const KNOWN: usize = 19;

/// The archive suffixes an output name may already carry.
pub open spec fn known_at(i: int) -> Seq<char> {
    if i == 0 {
        ".tar.zst"@
    } else if i == 1 {
        ".tar.lz4"@
    } else if i == 2 {
        ".tar.xz"@
    } else if i == 3 {
        ".tar.gz"@
    } else if i == 4 {
        ".tar.bz2"@
    } else if i == 5 {
        ".tar.br"@
    } else if i == 6 {
        ".tgz"@
    } else if i == 7 {
        ".tzst"@
    } else if i == 8 {
        ".txz"@
    } else if i == 9 {
        ".tbz2"@
    } else if i == 10 {
        ".tbz"@
    } else if i == 11 {
        ".zip"@
    } else if i == 12 {
        ".tar"@
    } else if i == 13 {
        ".zst"@
    } else if i == 14 {
        ".gz"@
    } else if i == 15 {
        ".lz4"@
    } else if i == 16 {
        ".xz"@
    } else if i == 17 {
        ".bz2"@
    } else if i == 18 {
        ".br"@
    } else {
        Seq::empty()
    }
}

fn known_entry(i: usize) -> (r: &'static str)
    requires
        i < KNOWN,
    ensures
        r@ == known_at(i as int),
{
    match i {
        0 => ".tar.zst",
        1 => ".tar.lz4",
        2 => ".tar.xz",
        3 => ".tar.gz",
        4 => ".tar.bz2",
        5 => ".tar.br",
        6 => ".tgz",
        7 => ".tzst",
        8 => ".txz",
        9 => ".tbz2",
        10 => ".tbz",
        11 => ".zip",
        12 => ".tar",
        13 => ".zst",
        14 => ".gz",
        15 => ".lz4",
        16 => ".xz",
        17 => ".bz2",
        18 => ".br",
        _ => "",
    }
}

/// The first known suffix from entry `i` on that the lower-cased name ends with.
pub open spec fn known_match(name: Seq<char>, i: int) -> Option<Seq<char>>
    decreases KNOWN - i,
{
    if i < 0 || i >= KNOWN {
        None
    } else if ends_with(name, known_at(i)) {
        Some(known_at(i))
    } else {
        known_match(name, i + 1)
    }
}

/// `path` with its archive suffix, if any, replaced by `new_ext`, in the same
/// folder.
pub open spec fn reext_spec(path: Seq<char>, new_ext: Seq<char>) -> Seq<char> {
    let name = match path_file_name(path) {
        Some(n) => n,
        None => Seq::empty(),
    };
    let stem = match known_match(lower_seq(name), 0) {
        Some(ext) => name.take(name.len() - ext.len()),
        None => name,
    };
    let new_name = stem + new_ext;
    match path_parent(path) {
        Some(dir) => if dir.len() > 0 {
            path_join(dir, new_name)
        } else {
            new_name
        },
        None => new_name,
    }
}

/// Replace a known archive suffix of `path`'s file name with `new_ext`.
pub fn reext(path: &str, new_ext: &str) -> (r: String)
    ensures
        r@ == reext_spec(path@, new_ext@),
{
    let name: String = match file_name_of(path) {
        Some(n) => n,
        None => String::new(),
    };
    let nc = chars_of(name.as_str());
    let mut i: usize = 0;
    let mut cut: usize = nc.len();
    let mut found = false;
    while i < KNOWN && !found
        invariant
            i <= KNOWN,
            nc@ == name@,
            !found ==> cut == nc@.len(),
            !found ==> known_match(lower_seq(name@), 0) == known_match(lower_seq(name@), i as int),
            found ==> i < KNOWN && known_match(lower_seq(name@), 0) == Some(known_at(i as int)) && cut
                == nc@.len() - known_at(i as int).len(),
        decreases KNOWN - i + (if found { 0int } else { 1int }),
    {
        let ext = known_entry(i);
        if ends_with_lower(nc.as_slice(), ext) {
            cut = nc.len() - ext.unicode_len();
            found = true;
        } else {
            i += 1;
        }
    }
    let mut stem = vstd::slice::slice_to_vec(&nc[0..cut]);
    let mut tail = chars_of(new_ext);
    proof {
        if !found {
            assert(nc@.take(cut as int) =~= nc@);
        }
    }
    stem.append(&mut tail);
    let new_name = string_of(stem.as_slice());
    match parent_of(path) {
        Some(dir) => {
            if dir.as_str().is_empty() {
                new_name
            } else {
                join(dir.as_str(), new_name.as_str())
            }
        },
        None => new_name,
    }
}

/// What the shell verbs ask for. `--compress`/`-c`, `--extract`/`-x` and
/// `--browse`/`-b` followed by a path open that path for compression,
/// extraction or browsing, whatever the path is; a verb without a path opens
/// normally. Any other first argument is a bare path: nothing when it does not
/// exist, extraction for an existing file with a known archive extension, and
/// compression for anything else that exists. No arguments open normally.
pub proof fn lemma_launch_verbs(l: Launch, first: Option<Seq<char>>, second: Option<Seq<char>>, present: bool, is_dir: bool)
    requires
        launch_view(l) == launch_spec(first, second, present, is_dir),
    ensures
        first is None ==> l is Normal,
        first matches Some(f) && (f == "--compress"@ || f == "-c"@) ==> match second {
            Some(p) => l matches Launch::Compress(q) && q@ == p,
            None => l is Normal,
        },
        first matches Some(f) && (f == "--extract"@ || f == "-x"@) ==> match second {
            Some(p) => l matches Launch::Extract(q) && q@ == p,
            None => l is Normal,
        },
        first matches Some(f) && (f == "--browse"@ || f == "-b"@) ==> match second {
            Some(p) => l matches Launch::Browse(q) && q@ == p,
            None => l is Normal,
        },
        forall|f: Seq<char>|
            first == Some(f) && f != "--compress"@ && f != "-c"@ && f != "--extract"@ && f != "-x"@ && f
                != "--browse"@ && f != "-b"@ ==> if !present {
                l is Normal
            } else if !is_dir && (match path_file_name(f) {
                Some(n) => format_by_suffix(n) is Some,
                None => false,
            }) {
                l matches Launch::Extract(q) && q@ == f
            } else {
                l matches Launch::Compress(q) && q@ == f
            },
{
    reveal_strlit("--compress");
    reveal_strlit("-c");
    reveal_strlit("--extract");
    reveal_strlit("-x");
    reveal_strlit("--browse");
    reveal_strlit("-b");
    assert("-c"@[1] == 'c' && "-x"@[1] == 'x' && "-b"@[1] == 'b');
    assert("--compress"@.len() == 10 && "--extract"@.len() == 9 && "--browse"@.len() == 8);
    if let Some(f) = first {
        if f == "-x"@ {
            assert(f[1] == 'x');
        }
        if f == "-b"@ {
            assert(f[1] == 'b');
        }
    }
}

} // verus!
