//! Archive format = a container (how files are laid out) + a codec (how bytes
//! are compressed). Formats are detected from file names so the command line
//! can stay a thin dispatcher.
use crate::codec::{codec_extensions, codec_name, Codec};
use crate::paths::{file_name_of, path_file_name};
use crate::text::{
    chars_eq, chars_of, end_non_ws, ends_with, ends_with_lower, first_non_ws, is_ws, lower_chars, lower_seq, trim, trim_chars,
};
use vstd::prelude::*;
use vstd::string::{StrSliceExecFns, StringExecFns};

verus! {

/// How the payload is laid out before/after the codec runs.
#[derive(Clone, Copy, Debug, PartialEq, Eq, Structural)]
pub enum Container {
    /// A single compressed stream (`.gz`, `.zst`, ...). Exactly one input file.
    Raw,
    /// A tar stream wrapped in a codec (`.tar.zst`, ...). Any number of files/dirs.
    Tar,
    /// A ZIP archive (compression handled per entry).
    Zip,
    /// The sealed `.abyss` form: a tar bundle, ANS-coded, optionally encrypted.
    Abyss,
    /// A 7-Zip (`.7z`) archive. Read-only.
    SevenZip,
    /// A RAR (`.rar`) archive. Read-only.
    Rar,
    /// An ISO-9660 (`.iso`) disc image. Read-only.
    Iso,
}

impl Container {
    /// Whether this container can be created by the engine. Foreign formats
    /// (`.7z`, `.rar`, `.iso`) are read-only.
    pub fn writable(self) -> (r: bool)
        ensures
            r == !(self == Container::SevenZip || self == Container::Rar || self == Container::Iso),
    {
        !matches!(self, Container::SevenZip | Container::Rar | Container::Iso)
    }
}

/// A fully-resolved archive format.
#[derive(Clone, Copy, Debug, PartialEq, Eq, Structural)]
pub struct Format {
    pub container: Container,
    pub codec: Codec,
}

/// How many file-name suffixes are recognised.
pub const SUFFIXES: usize = 30;

/// How many format names are recognised.
pub const NAMES: usize = 37;

/// The file-name suffixes and their formats, longest first where one suffix ends
/// another (`.tar.gz` before `.gz`).
pub open spec fn suffix_at(i: int) -> (Seq<char>, Format) {
    if i == 0 {
        (".tar.gz"@, Format { container: Container::Tar, codec: Codec::Gzip })
    } else if i == 1 {
        (".tgz"@, Format { container: Container::Tar, codec: Codec::Gzip })
    } else if i == 2 {
        (".tar.zst"@, Format { container: Container::Tar, codec: Codec::Zstd })
    } else if i == 3 {
        (".tzst"@, Format { container: Container::Tar, codec: Codec::Zstd })
    } else if i == 4 {
        (".tar.xz"@, Format { container: Container::Tar, codec: Codec::Xz })
    } else if i == 5 {
        (".txz"@, Format { container: Container::Tar, codec: Codec::Xz })
    } else if i == 6 {
        (".tar.bz2"@, Format { container: Container::Tar, codec: Codec::Bzip2 })
    } else if i == 7 {
        (".tbz2"@, Format { container: Container::Tar, codec: Codec::Bzip2 })
    } else if i == 8 {
        (".tbz"@, Format { container: Container::Tar, codec: Codec::Bzip2 })
    } else if i == 9 {
        (".tar.lz4"@, Format { container: Container::Tar, codec: Codec::Lz4 })
    } else if i == 10 {
        (".tar.br"@, Format { container: Container::Tar, codec: Codec::Brotli })
    } else if i == 11 {
        (".tar.ans"@, Format { container: Container::Tar, codec: Codec::Ans })
    } else if i == 12 {
        (".tar"@, Format { container: Container::Tar, codec: Codec::Store })
    } else if i == 13 {
        (".abyss"@, Format { container: Container::Abyss, codec: Codec::Ans })
    } else if i == 14 {
        (".zip"@, Format { container: Container::Zip, codec: Codec::Store })
    } else if i == 15 {
        (".jar"@, Format { container: Container::Zip, codec: Codec::Store })
    } else if i == 16 {
        (".war"@, Format { container: Container::Zip, codec: Codec::Store })
    } else if i == 17 {
        (".ear"@, Format { container: Container::Zip, codec: Codec::Store })
    } else if i == 18 {
        (".apk"@, Format { container: Container::Zip, codec: Codec::Store })
    } else if i == 19 {
        (".zipx"@, Format { container: Container::Zip, codec: Codec::Store })
    } else if i == 20 {
        (".7z"@, Format { container: Container::SevenZip, codec: Codec::Store })
    } else if i == 21 {
        (".rar"@, Format { container: Container::Rar, codec: Codec::Store })
    } else if i == 22 {
        (".iso"@, Format { container: Container::Iso, codec: Codec::Store })
    } else if i == 23 {
        (".gz"@, Format { container: Container::Raw, codec: Codec::Gzip })
    } else if i == 24 {
        (".zst"@, Format { container: Container::Raw, codec: Codec::Zstd })
    } else if i == 25 {
        (".lz4"@, Format { container: Container::Raw, codec: Codec::Lz4 })
    } else if i == 26 {
        (".xz"@, Format { container: Container::Raw, codec: Codec::Xz })
    } else if i == 27 {
        (".bz2"@, Format { container: Container::Raw, codec: Codec::Bzip2 })
    } else if i == 28 {
        (".br"@, Format { container: Container::Raw, codec: Codec::Brotli })
    } else if i == 29 {
        (".ans"@, Format { container: Container::Raw, codec: Codec::Ans })
    } else {
        (Seq::empty(), Format { container: Container::Raw, codec: Codec::Store })
    }
}

/// The format names (as given to a `--format` override) and their formats.
pub open spec fn name_at(i: int) -> (Seq<char>, Format) {
    if i == 0 {
        ("abyss"@, Format { container: Container::Abyss, codec: Codec::Ans })
    } else if i == 1 {
        ("ans"@, Format { container: Container::Raw, codec: Codec::Ans })
    } else if i == 2 {
        ("tar.ans"@, Format { container: Container::Tar, codec: Codec::Ans })
    } else if i == 3 {
        ("zip"@, Format { container: Container::Zip, codec: Codec::Store })
    } else if i == 4 {
        ("jar"@, Format { container: Container::Zip, codec: Codec::Store })
    } else if i == 5 {
        ("war"@, Format { container: Container::Zip, codec: Codec::Store })
    } else if i == 6 {
        ("ear"@, Format { container: Container::Zip, codec: Codec::Store })
    } else if i == 7 {
        ("apk"@, Format { container: Container::Zip, codec: Codec::Store })
    } else if i == 8 {
        ("zipx"@, Format { container: Container::Zip, codec: Codec::Store })
    } else if i == 9 {
        ("7z"@, Format { container: Container::SevenZip, codec: Codec::Store })
    } else if i == 10 {
        ("7zip"@, Format { container: Container::SevenZip, codec: Codec::Store })
    } else if i == 11 {
        ("sevenzip"@, Format { container: Container::SevenZip, codec: Codec::Store })
    } else if i == 12 {
        ("rar"@, Format { container: Container::Rar, codec: Codec::Store })
    } else if i == 13 {
        ("iso"@, Format { container: Container::Iso, codec: Codec::Store })
    } else if i == 14 {
        ("tar"@, Format { container: Container::Tar, codec: Codec::Store })
    } else if i == 15 {
        ("gz"@, Format { container: Container::Raw, codec: Codec::Gzip })
    } else if i == 16 {
        ("gzip"@, Format { container: Container::Raw, codec: Codec::Gzip })
    } else if i == 17 {
        ("zst"@, Format { container: Container::Raw, codec: Codec::Zstd })
    } else if i == 18 {
        ("zstd"@, Format { container: Container::Raw, codec: Codec::Zstd })
    } else if i == 19 {
        ("lz4"@, Format { container: Container::Raw, codec: Codec::Lz4 })
    } else if i == 20 {
        ("xz"@, Format { container: Container::Raw, codec: Codec::Xz })
    } else if i == 21 {
        ("lzma"@, Format { container: Container::Raw, codec: Codec::Xz })
    } else if i == 22 {
        ("bz2"@, Format { container: Container::Raw, codec: Codec::Bzip2 })
    } else if i == 23 {
        ("bzip2"@, Format { container: Container::Raw, codec: Codec::Bzip2 })
    } else if i == 24 {
        ("br"@, Format { container: Container::Raw, codec: Codec::Brotli })
    } else if i == 25 {
        ("brotli"@, Format { container: Container::Raw, codec: Codec::Brotli })
    } else if i == 26 {
        ("tgz"@, Format { container: Container::Tar, codec: Codec::Gzip })
    } else if i == 27 {
        ("tar.gz"@, Format { container: Container::Tar, codec: Codec::Gzip })
    } else if i == 28 {
        ("tzst"@, Format { container: Container::Tar, codec: Codec::Zstd })
    } else if i == 29 {
        ("tar.zst"@, Format { container: Container::Tar, codec: Codec::Zstd })
    } else if i == 30 {
        ("txz"@, Format { container: Container::Tar, codec: Codec::Xz })
    } else if i == 31 {
        ("tar.xz"@, Format { container: Container::Tar, codec: Codec::Xz })
    } else if i == 32 {
        ("tbz2"@, Format { container: Container::Tar, codec: Codec::Bzip2 })
    } else if i == 33 {
        ("tbz"@, Format { container: Container::Tar, codec: Codec::Bzip2 })
    } else if i == 34 {
        ("tar.bz2"@, Format { container: Container::Tar, codec: Codec::Bzip2 })
    } else if i == 35 {
        ("tar.lz4"@, Format { container: Container::Tar, codec: Codec::Lz4 })
    } else if i == 36 {
        ("tar.br"@, Format { container: Container::Tar, codec: Codec::Brotli })
    } else {
        (Seq::empty(), Format { container: Container::Raw, codec: Codec::Store })
    }
}

/// The first suffix from entry `i` on that the (lower-cased) file name ends with.
pub open spec fn suffix_match(name: Seq<char>, i: int) -> Option<Format>
    decreases SUFFIXES - i,
{
    if i < 0 || i >= SUFFIXES {
        None
    } else if ends_with(name, suffix_at(i).0) {
        Some(suffix_at(i).1)
    } else {
        suffix_match(name, i + 1)
    }
}

/// The format a file name stands for, ignoring ASCII case.
pub open spec fn format_by_suffix(name: Seq<char>) -> Option<Format> {
    suffix_match(lower_seq(name), 0)
}

/// The first format name from entry `i` on that equals `s`.
pub open spec fn name_match(s: Seq<char>, i: int) -> Option<Format>
    decreases NAMES - i,
{
    if i < 0 || i >= NAMES {
        None
    } else if s == name_at(i).0 {
        Some(name_at(i).1)
    } else {
        name_match(s, i + 1)
    }
}

/// The format a path's file name announces.
pub open spec fn format_of_path(p: Seq<char>) -> Option<Format> {
    match path_file_name(p) {
        Some(n) => format_by_suffix(n),
        None => None,
    }
}

/// The format an explicit name stands for, ignoring surrounding whitespace and
/// ASCII case.
pub open spec fn format_by_name(s: Seq<char>) -> Option<Format> {
    name_match(lower_seq(trim(s)), 0)
}

/// The human-readable label of a format, such as `tar.zst` or `zip`.
pub open spec fn format_label(f: Format) -> Seq<char> {
    match f.container {
        Container::Zip => "zip"@,
        Container::Abyss => "abyss"@,
        Container::SevenZip => "7z"@,
        Container::Rar => "rar"@,
        Container::Iso => "iso"@,
        Container::Raw => codec_name(f.codec),
        Container::Tar => if f.codec == Codec::Store {
            "tar"@
        } else {
            "tar."@ + codec_name(f.codec)
        },
    }
}

fn suffix_entry(i: usize) -> (r: (&'static str, Format))
    requires
        i < SUFFIXES,
    ensures
        r.0@ == suffix_at(i as int).0,
        r.1 == suffix_at(i as int).1,
{
    match i {
        0 => (".tar.gz", Format { container: Container::Tar, codec: Codec::Gzip }),
        1 => (".tgz", Format { container: Container::Tar, codec: Codec::Gzip }),
        2 => (".tar.zst", Format { container: Container::Tar, codec: Codec::Zstd }),
        3 => (".tzst", Format { container: Container::Tar, codec: Codec::Zstd }),
        4 => (".tar.xz", Format { container: Container::Tar, codec: Codec::Xz }),
        5 => (".txz", Format { container: Container::Tar, codec: Codec::Xz }),
        6 => (".tar.bz2", Format { container: Container::Tar, codec: Codec::Bzip2 }),
        7 => (".tbz2", Format { container: Container::Tar, codec: Codec::Bzip2 }),
        8 => (".tbz", Format { container: Container::Tar, codec: Codec::Bzip2 }),
        9 => (".tar.lz4", Format { container: Container::Tar, codec: Codec::Lz4 }),
        10 => (".tar.br", Format { container: Container::Tar, codec: Codec::Brotli }),
        11 => (".tar.ans", Format { container: Container::Tar, codec: Codec::Ans }),
        12 => (".tar", Format { container: Container::Tar, codec: Codec::Store }),
        13 => (".abyss", Format { container: Container::Abyss, codec: Codec::Ans }),
        14 => (".zip", Format { container: Container::Zip, codec: Codec::Store }),
        15 => (".jar", Format { container: Container::Zip, codec: Codec::Store }),
        16 => (".war", Format { container: Container::Zip, codec: Codec::Store }),
        17 => (".ear", Format { container: Container::Zip, codec: Codec::Store }),
        18 => (".apk", Format { container: Container::Zip, codec: Codec::Store }),
        19 => (".zipx", Format { container: Container::Zip, codec: Codec::Store }),
        20 => (".7z", Format { container: Container::SevenZip, codec: Codec::Store }),
        21 => (".rar", Format { container: Container::Rar, codec: Codec::Store }),
        22 => (".iso", Format { container: Container::Iso, codec: Codec::Store }),
        23 => (".gz", Format { container: Container::Raw, codec: Codec::Gzip }),
        24 => (".zst", Format { container: Container::Raw, codec: Codec::Zstd }),
        25 => (".lz4", Format { container: Container::Raw, codec: Codec::Lz4 }),
        26 => (".xz", Format { container: Container::Raw, codec: Codec::Xz }),
        27 => (".bz2", Format { container: Container::Raw, codec: Codec::Bzip2 }),
        28 => (".br", Format { container: Container::Raw, codec: Codec::Brotli }),
        29 => (".ans", Format { container: Container::Raw, codec: Codec::Ans }),
        _ => ("", Format { container: Container::Raw, codec: Codec::Store }),
    }
}

fn name_entry(i: usize) -> (r: (&'static str, Format))
    requires
        i < NAMES,
    ensures
        r.0@ == name_at(i as int).0,
        r.1 == name_at(i as int).1,
{
    match i {
        0 => ("abyss", Format { container: Container::Abyss, codec: Codec::Ans }),
        1 => ("ans", Format { container: Container::Raw, codec: Codec::Ans }),
        2 => ("tar.ans", Format { container: Container::Tar, codec: Codec::Ans }),
        3 => ("zip", Format { container: Container::Zip, codec: Codec::Store }),
        4 => ("jar", Format { container: Container::Zip, codec: Codec::Store }),
        5 => ("war", Format { container: Container::Zip, codec: Codec::Store }),
        6 => ("ear", Format { container: Container::Zip, codec: Codec::Store }),
        7 => ("apk", Format { container: Container::Zip, codec: Codec::Store }),
        8 => ("zipx", Format { container: Container::Zip, codec: Codec::Store }),
        9 => ("7z", Format { container: Container::SevenZip, codec: Codec::Store }),
        10 => ("7zip", Format { container: Container::SevenZip, codec: Codec::Store }),
        11 => ("sevenzip", Format { container: Container::SevenZip, codec: Codec::Store }),
        12 => ("rar", Format { container: Container::Rar, codec: Codec::Store }),
        13 => ("iso", Format { container: Container::Iso, codec: Codec::Store }),
        14 => ("tar", Format { container: Container::Tar, codec: Codec::Store }),
        15 => ("gz", Format { container: Container::Raw, codec: Codec::Gzip }),
        16 => ("gzip", Format { container: Container::Raw, codec: Codec::Gzip }),
        17 => ("zst", Format { container: Container::Raw, codec: Codec::Zstd }),
        18 => ("zstd", Format { container: Container::Raw, codec: Codec::Zstd }),
        19 => ("lz4", Format { container: Container::Raw, codec: Codec::Lz4 }),
        20 => ("xz", Format { container: Container::Raw, codec: Codec::Xz }),
        21 => ("lzma", Format { container: Container::Raw, codec: Codec::Xz }),
        22 => ("bz2", Format { container: Container::Raw, codec: Codec::Bzip2 }),
        23 => ("bzip2", Format { container: Container::Raw, codec: Codec::Bzip2 }),
        24 => ("br", Format { container: Container::Raw, codec: Codec::Brotli }),
        25 => ("brotli", Format { container: Container::Raw, codec: Codec::Brotli }),
        26 => ("tgz", Format { container: Container::Tar, codec: Codec::Gzip }),
        27 => ("tar.gz", Format { container: Container::Tar, codec: Codec::Gzip }),
        28 => ("tzst", Format { container: Container::Tar, codec: Codec::Zstd }),
        29 => ("tar.zst", Format { container: Container::Tar, codec: Codec::Zstd }),
        30 => ("txz", Format { container: Container::Tar, codec: Codec::Xz }),
        31 => ("tar.xz", Format { container: Container::Tar, codec: Codec::Xz }),
        32 => ("tbz2", Format { container: Container::Tar, codec: Codec::Bzip2 }),
        33 => ("tbz", Format { container: Container::Tar, codec: Codec::Bzip2 }),
        34 => ("tar.bz2", Format { container: Container::Tar, codec: Codec::Bzip2 }),
        35 => ("tar.lz4", Format { container: Container::Tar, codec: Codec::Lz4 }),
        36 => ("tar.br", Format { container: Container::Tar, codec: Codec::Brotli }),
        _ => ("", Format { container: Container::Raw, codec: Codec::Store }),
    }
}

impl Format {
    pub fn new(container: Container, codec: Codec) -> (r: Format)
        ensures
            r.container == container,
            r.codec == codec,
    {
        Format { container, codec }
    }

    /// Detect a format from a file name, ignoring ASCII case. Longer/double
    /// suffixes (`.tar.gz`) are matched before single ones (`.gz`).
    pub fn from_filename(name: &str) -> (r: Option<Format>)
        ensures
            r == format_by_suffix(name@),
    {
        let chars = chars_of(name);
        let mut i: usize = 0;
        while i < SUFFIXES
            invariant
                i <= SUFFIXES,
                chars@ == name@,
                suffix_match(lower_seq(name@), 0) == suffix_match(lower_seq(name@), i as int),
            decreases SUFFIXES - i,
        {
            let (ext, format) = suffix_entry(i);
            if ends_with_lower(chars.as_slice(), ext) {
                return Some(format);
            }
            i += 1;
        }
        None
    }

    /// Detect a format from a path's file name (case-insensitive).
    pub fn from_path(path: &str) -> (r: Option<Format>)
        ensures
            r == format_of_path(path@),
    {
        match file_name_of(path) {
            Some(n) => Format::from_filename(n.as_str()),
            None => None,
        }
    }

    /// Parse an explicit format name (a `--format` override), ignoring
    /// surrounding whitespace and ASCII case.
    pub fn from_name(s: &str) -> (r: Option<Format>)
        ensures
            r == format_by_name(s@),
    {
        let chars = chars_of(s);
        let trimmed = trim_chars(chars.as_slice());
        let key = lower_chars(trimmed.as_slice());
        let mut i: usize = 0;
        while i < NAMES
            invariant
                i <= NAMES,
                key@ == lower_seq(trim(s@)),
                name_match(key@, 0) == name_match(key@, i as int),
            decreases NAMES - i,
        {
            let (alias, format) = name_entry(i);
            if chars_eq(key.as_slice(), alias) {
                return Some(format);
            }
            i += 1;
        }
        None
    }

    /// Human-readable label such as `"tar.zst"` or `"zip"`.
    pub fn label(&self) -> (r: String)
        ensures
            r@ == format_label(*self),
    {
        match self.container {
            Container::Zip => String::from_str("zip"),
            Container::Abyss => String::from_str("abyss"),
            Container::SevenZip => String::from_str("7z"),
            Container::Rar => String::from_str("rar"),
            Container::Iso => String::from_str("iso"),
            Container::Raw => String::from_str(self.codec.name()),
            Container::Tar => {
                if self.codec == Codec::Store {
                    String::from_str("tar")
                } else {
                    let mut s = String::from_str("tar.");
                    s.append(self.codec.name());
                    s
                }
            },
        }
    }
}

/// A name whose last characters differ from `b`'s does not end with `b`.
proof fn lemma_differs_at_end(a: Seq<char>, b: Seq<char>, k: int)
    requires
        0 <= k < b.len(),
        k < a.len(),
        a[a.len() - 1 - k] != b[b.len() - 1 - k],
    ensures
        !ends_with(a, b),
{
    if ends_with(a, b) {
        assert(a.subrange(a.len() - b.len(), a.len() as int)[b.len() - 1 - k] == b[b.len() - 1 - k]);
    }
}

/// Skipping entries that do not match.
proof fn lemma_suffix_match_from(name: Seq<char>, j: int)
    requires
        0 <= j <= SUFFIXES,
        forall|i: int| 0 <= i < j ==> !ends_with(name, #[trigger] suffix_at(i).0),
    ensures
        suffix_match(name, 0) == suffix_match(name, j),
    decreases j,
{
    if j > 0 {
        lemma_suffix_match_from(name, j - 1);
        assert(!ends_with(name, suffix_at(j - 1).0));
    }
}

/// Longer and double extensions are matched before the shorter ones they end
/// with: every listed suffix, as a file name of its own in any letter case,
/// is detected as its own format.
pub proof fn lemma_every_suffix_detected(j: int)
    requires
        0 <= j < SUFFIXES,
    ensures
        format_by_suffix(suffix_at(j).0) == Some(suffix_at(j).1),
        lower_seq(suffix_at(j).0) == suffix_at(j).0,
{
    let name = suffix_at(j).0;
    reveal_strlit(".tar.gz");
    reveal_strlit(".tgz");
    reveal_strlit(".tar.zst");
    reveal_strlit(".tzst");
    reveal_strlit(".tar.xz");
    reveal_strlit(".txz");
    reveal_strlit(".tar.bz2");
    reveal_strlit(".tbz2");
    reveal_strlit(".tbz");
    reveal_strlit(".tar.lz4");
    reveal_strlit(".tar.br");
    reveal_strlit(".tar.ans");
    reveal_strlit(".tar");
    reveal_strlit(".abyss");
    reveal_strlit(".zip");
    reveal_strlit(".jar");
    reveal_strlit(".war");
    reveal_strlit(".ear");
    reveal_strlit(".apk");
    reveal_strlit(".zipx");
    reveal_strlit(".7z");
    reveal_strlit(".rar");
    reveal_strlit(".iso");
    reveal_strlit(".gz");
    reveal_strlit(".zst");
    reveal_strlit(".lz4");
    reveal_strlit(".xz");
    reveal_strlit(".bz2");
    reveal_strlit(".br");
    reveal_strlit(".ans");
    assert(lower_seq(name) =~= name);
    assert(ends_with(name, name)) by {
        assert(name.subrange(0, name.len() as int) =~= name);
    }
    if j == 0 {
        assert forall|i: int| 0 <= i < 0 implies !ends_with(name, #[trigger] suffix_at(i).0) by {
        }
    } else if j == 1 {
        assert forall|i: int| 0 <= i < 1 implies !ends_with(name, #[trigger] suffix_at(i).0) by {
        }
    } else if j == 2 {
        lemma_differs_at_end(name, ".tar.gz"@, 0);
        lemma_differs_at_end(name, ".tgz"@, 0);
        assert forall|i: int| 0 <= i < 2 implies !ends_with(name, #[trigger] suffix_at(i).0) by {
        }
    } else if j == 3 {
        lemma_differs_at_end(name, ".tgz"@, 0);
        assert forall|i: int| 0 <= i < 3 implies !ends_with(name, #[trigger] suffix_at(i).0) by {
        }
    } else if j == 4 {
        lemma_differs_at_end(name, ".tar.gz"@, 1);
        lemma_differs_at_end(name, ".tgz"@, 1);
        lemma_differs_at_end(name, ".tzst"@, 0);
        assert forall|i: int| 0 <= i < 4 implies !ends_with(name, #[trigger] suffix_at(i).0) by {
        }
    } else if j == 5 {
        lemma_differs_at_end(name, ".tgz"@, 1);
        assert forall|i: int| 0 <= i < 5 implies !ends_with(name, #[trigger] suffix_at(i).0) by {
        }
    } else if j == 6 {
        lemma_differs_at_end(name, ".tar.gz"@, 0);
        lemma_differs_at_end(name, ".tgz"@, 0);
        lemma_differs_at_end(name, ".tar.zst"@, 0);
        lemma_differs_at_end(name, ".tzst"@, 0);
        lemma_differs_at_end(name, ".tar.xz"@, 0);
        lemma_differs_at_end(name, ".txz"@, 0);
        assert forall|i: int| 0 <= i < 6 implies !ends_with(name, #[trigger] suffix_at(i).0) by {
        }
    } else if j == 7 {
        lemma_differs_at_end(name, ".tgz"@, 0);
        lemma_differs_at_end(name, ".tzst"@, 0);
        lemma_differs_at_end(name, ".txz"@, 0);
        assert forall|i: int| 0 <= i < 7 implies !ends_with(name, #[trigger] suffix_at(i).0) by {
        }
    } else if j == 8 {
        lemma_differs_at_end(name, ".tgz"@, 1);
        lemma_differs_at_end(name, ".txz"@, 1);
        assert forall|i: int| 0 <= i < 8 implies !ends_with(name, #[trigger] suffix_at(i).0) by {
        }
    } else if j == 9 {
        lemma_differs_at_end(name, ".tar.gz"@, 0);
        lemma_differs_at_end(name, ".tgz"@, 0);
        lemma_differs_at_end(name, ".tar.zst"@, 0);
        lemma_differs_at_end(name, ".tzst"@, 0);
        lemma_differs_at_end(name, ".tar.xz"@, 0);
        lemma_differs_at_end(name, ".txz"@, 0);
        lemma_differs_at_end(name, ".tar.bz2"@, 0);
        lemma_differs_at_end(name, ".tbz2"@, 0);
        lemma_differs_at_end(name, ".tbz"@, 0);
        assert forall|i: int| 0 <= i < 9 implies !ends_with(name, #[trigger] suffix_at(i).0) by {
        }
    } else if j == 10 {
        lemma_differs_at_end(name, ".tar.gz"@, 0);
        lemma_differs_at_end(name, ".tgz"@, 0);
        lemma_differs_at_end(name, ".tzst"@, 0);
        lemma_differs_at_end(name, ".tar.xz"@, 0);
        lemma_differs_at_end(name, ".txz"@, 0);
        lemma_differs_at_end(name, ".tbz2"@, 0);
        lemma_differs_at_end(name, ".tbz"@, 0);
        assert forall|i: int| 0 <= i < 10 implies !ends_with(name, #[trigger] suffix_at(i).0) by {
        }
    } else if j == 11 {
        lemma_differs_at_end(name, ".tar.gz"@, 0);
        lemma_differs_at_end(name, ".tgz"@, 0);
        lemma_differs_at_end(name, ".tar.zst"@, 0);
        lemma_differs_at_end(name, ".tzst"@, 0);
        lemma_differs_at_end(name, ".tar.xz"@, 0);
        lemma_differs_at_end(name, ".txz"@, 0);
        lemma_differs_at_end(name, ".tar.bz2"@, 0);
        lemma_differs_at_end(name, ".tbz2"@, 0);
        lemma_differs_at_end(name, ".tbz"@, 0);
        lemma_differs_at_end(name, ".tar.lz4"@, 0);
        lemma_differs_at_end(name, ".tar.br"@, 0);
        assert forall|i: int| 0 <= i < 11 implies !ends_with(name, #[trigger] suffix_at(i).0) by {
        }
    } else if j == 12 {
        lemma_differs_at_end(name, ".tgz"@, 0);
        lemma_differs_at_end(name, ".txz"@, 0);
        lemma_differs_at_end(name, ".tbz"@, 0);
        assert forall|i: int| 0 <= i < 12 implies !ends_with(name, #[trigger] suffix_at(i).0) by {
        }
    } else if j == 13 {
        lemma_differs_at_end(name, ".tgz"@, 0);
        lemma_differs_at_end(name, ".tzst"@, 0);
        lemma_differs_at_end(name, ".txz"@, 0);
        lemma_differs_at_end(name, ".tbz2"@, 0);
        lemma_differs_at_end(name, ".tbz"@, 0);
        lemma_differs_at_end(name, ".tar"@, 0);
        assert forall|i: int| 0 <= i < 13 implies !ends_with(name, #[trigger] suffix_at(i).0) by {
        }
    } else if j == 14 {
        lemma_differs_at_end(name, ".tgz"@, 0);
        lemma_differs_at_end(name, ".txz"@, 0);
        lemma_differs_at_end(name, ".tbz"@, 0);
        lemma_differs_at_end(name, ".tar"@, 0);
        assert forall|i: int| 0 <= i < 14 implies !ends_with(name, #[trigger] suffix_at(i).0) by {
        }
    } else if j == 15 {
        lemma_differs_at_end(name, ".tgz"@, 0);
        lemma_differs_at_end(name, ".txz"@, 0);
        lemma_differs_at_end(name, ".tbz"@, 0);
        lemma_differs_at_end(name, ".tar"@, 2);
        lemma_differs_at_end(name, ".zip"@, 0);
        assert forall|i: int| 0 <= i < 15 implies !ends_with(name, #[trigger] suffix_at(i).0) by {
        }
    } else if j == 16 {
        lemma_differs_at_end(name, ".tgz"@, 0);
        lemma_differs_at_end(name, ".txz"@, 0);
        lemma_differs_at_end(name, ".tbz"@, 0);
        lemma_differs_at_end(name, ".tar"@, 2);
        lemma_differs_at_end(name, ".zip"@, 0);
        lemma_differs_at_end(name, ".jar"@, 2);
        assert forall|i: int| 0 <= i < 16 implies !ends_with(name, #[trigger] suffix_at(i).0) by {
        }
    } else if j == 17 {
        lemma_differs_at_end(name, ".tgz"@, 0);
        lemma_differs_at_end(name, ".txz"@, 0);
        lemma_differs_at_end(name, ".tbz"@, 0);
        lemma_differs_at_end(name, ".tar"@, 2);
        lemma_differs_at_end(name, ".zip"@, 0);
        lemma_differs_at_end(name, ".jar"@, 2);
        lemma_differs_at_end(name, ".war"@, 2);
        assert forall|i: int| 0 <= i < 17 implies !ends_with(name, #[trigger] suffix_at(i).0) by {
        }
    } else if j == 18 {
        lemma_differs_at_end(name, ".tgz"@, 0);
        lemma_differs_at_end(name, ".txz"@, 0);
        lemma_differs_at_end(name, ".tbz"@, 0);
        lemma_differs_at_end(name, ".tar"@, 0);
        lemma_differs_at_end(name, ".zip"@, 0);
        lemma_differs_at_end(name, ".jar"@, 0);
        lemma_differs_at_end(name, ".war"@, 0);
        lemma_differs_at_end(name, ".ear"@, 0);
        assert forall|i: int| 0 <= i < 18 implies !ends_with(name, #[trigger] suffix_at(i).0) by {
        }
    } else if j == 19 {
        lemma_differs_at_end(name, ".tgz"@, 0);
        lemma_differs_at_end(name, ".tzst"@, 0);
        lemma_differs_at_end(name, ".txz"@, 0);
        lemma_differs_at_end(name, ".tbz2"@, 0);
        lemma_differs_at_end(name, ".tbz"@, 0);
        lemma_differs_at_end(name, ".tar"@, 0);
        lemma_differs_at_end(name, ".zip"@, 0);
        lemma_differs_at_end(name, ".jar"@, 0);
        lemma_differs_at_end(name, ".war"@, 0);
        lemma_differs_at_end(name, ".ear"@, 0);
        lemma_differs_at_end(name, ".apk"@, 0);
        assert forall|i: int| 0 <= i < 19 implies !ends_with(name, #[trigger] suffix_at(i).0) by {
        }
    } else if j == 20 {
        assert forall|i: int| 0 <= i < 20 implies !ends_with(name, #[trigger] suffix_at(i).0) by {
        }
    } else if j == 21 {
        lemma_differs_at_end(name, ".tgz"@, 0);
        lemma_differs_at_end(name, ".txz"@, 0);
        lemma_differs_at_end(name, ".tbz"@, 0);
        lemma_differs_at_end(name, ".tar"@, 2);
        lemma_differs_at_end(name, ".zip"@, 0);
        lemma_differs_at_end(name, ".jar"@, 2);
        lemma_differs_at_end(name, ".war"@, 2);
        lemma_differs_at_end(name, ".ear"@, 2);
        lemma_differs_at_end(name, ".apk"@, 0);
        lemma_differs_at_end(name, ".7z"@, 0);
        assert forall|i: int| 0 <= i < 21 implies !ends_with(name, #[trigger] suffix_at(i).0) by {
        }
    } else if j == 22 {
        lemma_differs_at_end(name, ".tgz"@, 0);
        lemma_differs_at_end(name, ".txz"@, 0);
        lemma_differs_at_end(name, ".tbz"@, 0);
        lemma_differs_at_end(name, ".tar"@, 0);
        lemma_differs_at_end(name, ".zip"@, 0);
        lemma_differs_at_end(name, ".jar"@, 0);
        lemma_differs_at_end(name, ".war"@, 0);
        lemma_differs_at_end(name, ".ear"@, 0);
        lemma_differs_at_end(name, ".apk"@, 0);
        lemma_differs_at_end(name, ".7z"@, 0);
        lemma_differs_at_end(name, ".rar"@, 0);
        assert forall|i: int| 0 <= i < 22 implies !ends_with(name, #[trigger] suffix_at(i).0) by {
        }
    } else if j == 23 {
        lemma_differs_at_end(name, ".7z"@, 1);
        assert forall|i: int| 0 <= i < 23 implies !ends_with(name, #[trigger] suffix_at(i).0) by {
        }
    } else if j == 24 {
        lemma_differs_at_end(name, ".tgz"@, 0);
        lemma_differs_at_end(name, ".txz"@, 0);
        lemma_differs_at_end(name, ".tbz"@, 0);
        lemma_differs_at_end(name, ".tar"@, 0);
        lemma_differs_at_end(name, ".zip"@, 0);
        lemma_differs_at_end(name, ".jar"@, 0);
        lemma_differs_at_end(name, ".war"@, 0);
        lemma_differs_at_end(name, ".ear"@, 0);
        lemma_differs_at_end(name, ".apk"@, 0);
        lemma_differs_at_end(name, ".7z"@, 0);
        lemma_differs_at_end(name, ".rar"@, 0);
        lemma_differs_at_end(name, ".iso"@, 0);
        lemma_differs_at_end(name, ".gz"@, 0);
        assert forall|i: int| 0 <= i < 24 implies !ends_with(name, #[trigger] suffix_at(i).0) by {
        }
    } else if j == 25 {
        lemma_differs_at_end(name, ".tgz"@, 0);
        lemma_differs_at_end(name, ".txz"@, 0);
        lemma_differs_at_end(name, ".tbz"@, 0);
        lemma_differs_at_end(name, ".tar"@, 0);
        lemma_differs_at_end(name, ".zip"@, 0);
        lemma_differs_at_end(name, ".jar"@, 0);
        lemma_differs_at_end(name, ".war"@, 0);
        lemma_differs_at_end(name, ".ear"@, 0);
        lemma_differs_at_end(name, ".apk"@, 0);
        lemma_differs_at_end(name, ".7z"@, 0);
        lemma_differs_at_end(name, ".rar"@, 0);
        lemma_differs_at_end(name, ".iso"@, 0);
        lemma_differs_at_end(name, ".gz"@, 0);
        lemma_differs_at_end(name, ".zst"@, 0);
        assert forall|i: int| 0 <= i < 25 implies !ends_with(name, #[trigger] suffix_at(i).0) by {
        }
    } else if j == 26 {
        lemma_differs_at_end(name, ".7z"@, 1);
        lemma_differs_at_end(name, ".gz"@, 1);
        assert forall|i: int| 0 <= i < 26 implies !ends_with(name, #[trigger] suffix_at(i).0) by {
        }
    } else if j == 27 {
        lemma_differs_at_end(name, ".tgz"@, 0);
        lemma_differs_at_end(name, ".txz"@, 0);
        lemma_differs_at_end(name, ".tbz"@, 0);
        lemma_differs_at_end(name, ".tar"@, 0);
        lemma_differs_at_end(name, ".zip"@, 0);
        lemma_differs_at_end(name, ".jar"@, 0);
        lemma_differs_at_end(name, ".war"@, 0);
        lemma_differs_at_end(name, ".ear"@, 0);
        lemma_differs_at_end(name, ".apk"@, 0);
        lemma_differs_at_end(name, ".7z"@, 0);
        lemma_differs_at_end(name, ".rar"@, 0);
        lemma_differs_at_end(name, ".iso"@, 0);
        lemma_differs_at_end(name, ".gz"@, 0);
        lemma_differs_at_end(name, ".zst"@, 0);
        lemma_differs_at_end(name, ".lz4"@, 0);
        lemma_differs_at_end(name, ".xz"@, 0);
        assert forall|i: int| 0 <= i < 27 implies !ends_with(name, #[trigger] suffix_at(i).0) by {
        }
    } else if j == 28 {
        lemma_differs_at_end(name, ".7z"@, 0);
        lemma_differs_at_end(name, ".gz"@, 0);
        lemma_differs_at_end(name, ".xz"@, 0);
        assert forall|i: int| 0 <= i < 28 implies !ends_with(name, #[trigger] suffix_at(i).0) by {
        }
    } else if j == 29 {
        lemma_differs_at_end(name, ".tgz"@, 0);
        lemma_differs_at_end(name, ".txz"@, 0);
        lemma_differs_at_end(name, ".tbz"@, 0);
        lemma_differs_at_end(name, ".tar"@, 0);
        lemma_differs_at_end(name, ".zip"@, 0);
        lemma_differs_at_end(name, ".jar"@, 0);
        lemma_differs_at_end(name, ".war"@, 0);
        lemma_differs_at_end(name, ".ear"@, 0);
        lemma_differs_at_end(name, ".apk"@, 0);
        lemma_differs_at_end(name, ".7z"@, 0);
        lemma_differs_at_end(name, ".rar"@, 0);
        lemma_differs_at_end(name, ".iso"@, 0);
        lemma_differs_at_end(name, ".gz"@, 0);
        lemma_differs_at_end(name, ".zst"@, 0);
        lemma_differs_at_end(name, ".lz4"@, 0);
        lemma_differs_at_end(name, ".xz"@, 0);
        lemma_differs_at_end(name, ".bz2"@, 0);
        lemma_differs_at_end(name, ".br"@, 0);
        assert forall|i: int| 0 <= i < 29 implies !ends_with(name, #[trigger] suffix_at(i).0) by {
        }
    }
    lemma_suffix_match_from(name, j);
}

/// Every listed suffix starts with a dot.
proof fn lemma_suffix_dotted(i: int)
    requires
        0 <= i < SUFFIXES,
    ensures
        suffix_at(i).0.len() > 0,
        suffix_at(i).0[0] == '.',
{
    reveal_strlit(".tar.gz");
    reveal_strlit(".tgz");
    reveal_strlit(".tar.zst");
    reveal_strlit(".tzst");
    reveal_strlit(".tar.xz");
    reveal_strlit(".txz");
    reveal_strlit(".tar.bz2");
    reveal_strlit(".tbz2");
    reveal_strlit(".tbz");
    reveal_strlit(".tar.lz4");
    reveal_strlit(".tar.br");
    reveal_strlit(".tar.ans");
    reveal_strlit(".tar");
    reveal_strlit(".abyss");
    reveal_strlit(".zip");
    reveal_strlit(".jar");
    reveal_strlit(".war");
    reveal_strlit(".ear");
    reveal_strlit(".apk");
    reveal_strlit(".zipx");
    reveal_strlit(".7z");
    reveal_strlit(".rar");
    reveal_strlit(".iso");
    reveal_strlit(".gz");
    reveal_strlit(".zst");
    reveal_strlit(".lz4");
    reveal_strlit(".xz");
    reveal_strlit(".bz2");
    reveal_strlit(".br");
    reveal_strlit(".ans");
}

/// Behind a stem without dots, a suffix that starts with a dot is at the end
/// exactly when it is at the end of what follows the stem.
proof fn lemma_tail_after_stem(pre: Seq<char>, s: Seq<char>, t: Seq<char>)
    requires
        !pre.contains('.'),
        t.len() > 0,
        t[0] == '.',
    ensures
        ends_with(pre + s, t) == ends_with(s, t),
{
    let x = pre + s;
    if t.len() <= s.len() {
        assert(x.subrange(x.len() - t.len(), x.len() as int) =~= s.subrange(s.len() - t.len(), s.len() as int));
    } else if ends_with(x, t) {
        let k = x.len() - t.len();
        assert(x.subrange(k, x.len() as int)[0] == t[0]);
        assert(x[k] == pre[k]);
        assert(pre.contains('.'));
    }
}

/// The suffix table reads a name behind a dot-free stem as it reads the rest.
proof fn lemma_match_after_stem(pre: Seq<char>, s: Seq<char>, i: int)
    requires
        !pre.contains('.'),
        0 <= i <= SUFFIXES,
    ensures
        suffix_match(pre + s, i) == suffix_match(s, i),
    decreases SUFFIXES - i,
{
    if i < SUFFIXES {
        lemma_suffix_dotted(i);
        lemma_tail_after_stem(pre, s, suffix_at(i).0);
        lemma_match_after_stem(pre, s, i + 1);
    }
}

/// A file name made of a stem without dots and one of the listed suffixes, in
/// any letter case, is detected as that suffix's format.
pub proof fn lemma_suffix_after_stem(stem: Seq<char>, j: int)
    requires
        0 <= j < SUFFIXES,
        !stem.contains('.'),
    ensures
        format_by_suffix(stem + suffix_at(j).0) == Some(suffix_at(j).1),
{
    let s = suffix_at(j).0;
    let ls = lower_seq(stem);
    assert(lower_seq(stem + s) =~= ls + lower_seq(s));
    assert(!ls.contains('.')) by {
        if ls.contains('.') {
            let k = choose|k: int| 0 <= k < ls.len() && ls[k] == '.';
            assert(stem[k] == '.');
        }
    }
    lemma_match_after_stem(ls, lower_seq(s), 0);
    lemma_every_suffix_detected(j);
}

/// A raw single stream's suffix is detected back as its codec: `Store` has no
/// suffix of its own, every other codec exactly one, and a stem without dots
/// followed by it, in any case, is a raw stream of that codec.
pub proof fn lemma_codec_suffix_detected(c: Codec, stem: Seq<char>)
    requires
        !stem.contains('.'),
    ensures
        codec_extensions(c).len() == if c == Codec::Store {
            0int
        } else {
            1int
        },
        c != Codec::Store ==> format_by_suffix(stem + codec_extensions(c)[0]) == Some(
            Format { container: Container::Raw, codec: c },
        ),
{
    let j: int = match c {
        Codec::Store => 0,
        Codec::Gzip => 23,
        Codec::Zstd => 24,
        Codec::Lz4 => 25,
        Codec::Xz => 26,
        Codec::Bzip2 => 27,
        Codec::Brotli => 28,
        Codec::Ans => 29,
    };
    if c != Codec::Store {
        assert(suffix_at(j).0 == codec_extensions(c)[0]);
        assert(suffix_at(j).1 == Format { container: Container::Raw, codec: c });
        lemma_suffix_after_stem(stem, j);
    }
}

/// The listed suffix that is a format name with a dot before it, if any.
pub open spec fn name_suffix(k: int) -> Option<int> {
    if k == 0 {
        Some(13int)
    } else if k == 1 {
        Some(29int)
    } else if k == 2 {
        Some(11int)
    } else if k == 3 {
        Some(14int)
    } else if k == 4 {
        Some(15int)
    } else if k == 5 {
        Some(16int)
    } else if k == 6 {
        Some(17int)
    } else if k == 7 {
        Some(18int)
    } else if k == 8 {
        Some(19int)
    } else if k == 9 {
        Some(20int)
    } else if k == 12 {
        Some(21int)
    } else if k == 13 {
        Some(22int)
    } else if k == 14 {
        Some(12int)
    } else if k == 15 {
        Some(23int)
    } else if k == 17 {
        Some(24int)
    } else if k == 19 {
        Some(25int)
    } else if k == 20 {
        Some(26int)
    } else if k == 22 {
        Some(27int)
    } else if k == 24 {
        Some(28int)
    } else if k == 26 {
        Some(1int)
    } else if k == 27 {
        Some(0int)
    } else if k == 28 {
        Some(3int)
    } else if k == 29 {
        Some(2int)
    } else if k == 30 {
        Some(5int)
    } else if k == 31 {
        Some(4int)
    } else if k == 32 {
        Some(7int)
    } else if k == 33 {
        Some(8int)
    } else if k == 34 {
        Some(6int)
    } else if k == 35 {
        Some(9int)
    } else if k == 36 {
        Some(10int)
    } else {
        None
    }
}

/// No format name is listed twice.
proof fn lemma_names_distinct(k: int)
    requires
        0 <= k < NAMES,
    ensures
        forall|i: int| 0 <= i < k ==> name_at(i).0 != name_at(k).0,
{
    reveal_strlit("abyss");
    reveal_strlit("ans");
    reveal_strlit("tar.ans");
    reveal_strlit("zip");
    reveal_strlit("jar");
    reveal_strlit("war");
    reveal_strlit("ear");
    reveal_strlit("apk");
    reveal_strlit("zipx");
    reveal_strlit("7z");
    reveal_strlit("7zip");
    reveal_strlit("sevenzip");
    reveal_strlit("rar");
    reveal_strlit("iso");
    reveal_strlit("tar");
    reveal_strlit("gz");
    reveal_strlit("gzip");
    reveal_strlit("zst");
    reveal_strlit("zstd");
    reveal_strlit("lz4");
    reveal_strlit("xz");
    reveal_strlit("lzma");
    reveal_strlit("bz2");
    reveal_strlit("bzip2");
    reveal_strlit("br");
    reveal_strlit("brotli");
    reveal_strlit("tgz");
    reveal_strlit("tar.gz");
    reveal_strlit("tzst");
    reveal_strlit("tar.zst");
    reveal_strlit("txz");
    reveal_strlit("tar.xz");
    reveal_strlit("tbz2");
    reveal_strlit("tbz");
    reveal_strlit("tar.bz2");
    reveal_strlit("tar.lz4");
    reveal_strlit("tar.br");
    assert forall|i: int| 0 <= i < k implies name_at(i).0 != name_at(k).0 by {
        let a = name_at(i).0;
        let b = name_at(k).0;
        if a == b {
            assert(a.len() == b.len());
            assert(a[0] == b[0]);
            if a.len() > 1 {
                assert(a[1] == b[1]);
            }
            if a.len() > 2 {
                assert(a[2] == b[2]);
            }
            if a.len() > 3 {
                assert(a[3] == b[3]);
            }
            if a.len() > 4 {
                assert(a[4] == b[4]);
            }
            if a.len() > 5 {
                assert(a[5] == b[5]);
            }
            if a.len() > 6 {
                assert(a[6] == b[6]);
            }
        }
    }
}

/// Skipping format names that differ.
proof fn lemma_name_match_from(s: Seq<char>, k: int)
    requires
        0 <= k <= NAMES,
        forall|i: int| 0 <= i < k ==> s != #[trigger] name_at(i).0,
    ensures
        name_match(s, 0) == name_match(s, k),
    decreases k,
{
    if k > 0 {
        lemma_name_match_from(s, k - 1);
        assert(s != name_at(k - 1).0);
    }
}

/// Every format name, written as listed, resolves to its own format.
proof fn lemma_name_resolves(k: int)
    requires
        0 <= k < NAMES,
    ensures
        format_by_name(name_at(k).0) == Some(name_at(k).1),
        name_match(name_at(k).0, 0) == Some(name_at(k).1),
{
    reveal_strlit("abyss");
    reveal_strlit("ans");
    reveal_strlit("tar.ans");
    reveal_strlit("zip");
    reveal_strlit("jar");
    reveal_strlit("war");
    reveal_strlit("ear");
    reveal_strlit("apk");
    reveal_strlit("zipx");
    reveal_strlit("7z");
    reveal_strlit("7zip");
    reveal_strlit("sevenzip");
    reveal_strlit("rar");
    reveal_strlit("iso");
    reveal_strlit("tar");
    reveal_strlit("gz");
    reveal_strlit("gzip");
    reveal_strlit("zst");
    reveal_strlit("zstd");
    reveal_strlit("lz4");
    reveal_strlit("xz");
    reveal_strlit("lzma");
    reveal_strlit("bz2");
    reveal_strlit("bzip2");
    reveal_strlit("br");
    reveal_strlit("brotli");
    reveal_strlit("tgz");
    reveal_strlit("tar.gz");
    reveal_strlit("tzst");
    reveal_strlit("tar.zst");
    reveal_strlit("txz");
    reveal_strlit("tar.xz");
    reveal_strlit("tbz2");
    reveal_strlit("tbz");
    reveal_strlit("tar.bz2");
    reveal_strlit("tar.lz4");
    reveal_strlit("tar.br");
    let n = name_at(k).0;
    assert(n.len() > 0 && !is_ws(n[0]) && !is_ws(n[n.len() - 1]));
    assert(first_non_ws(n, 0) == 0);
    assert(end_non_ws(n, n.len() as int, 0) == n.len());
    assert(trim(n) =~= n);
    assert(lower_seq(n) =~= n);
    lemma_names_distinct(k);
    lemma_name_match_from(n, k);
}

/// An explicit format name agrees with what the suffix table detects for a
/// file named with it (a stem without dots, a dot, then the name): for every
/// name that is also a listed suffix.
pub proof fn lemma_name_agrees_with_suffix(k: int, stem: Seq<char>)
    requires
        0 <= k < NAMES,
        name_suffix(k) is Some,
        !stem.contains('.'),
    ensures
        suffix_at(name_suffix(k)->0).0 == "."@ + name_at(k).0,
        format_by_name(name_at(k).0) is Some,
        format_by_suffix(stem + "."@ + name_at(k).0) == format_by_name(name_at(k).0),
{
    reveal_strlit(".");
    reveal_strlit("abyss");
    reveal_strlit("ans");
    reveal_strlit("tar.ans");
    reveal_strlit("zip");
    reveal_strlit("jar");
    reveal_strlit("war");
    reveal_strlit("ear");
    reveal_strlit("apk");
    reveal_strlit("zipx");
    reveal_strlit("7z");
    reveal_strlit("7zip");
    reveal_strlit("sevenzip");
    reveal_strlit("rar");
    reveal_strlit("iso");
    reveal_strlit("tar");
    reveal_strlit("gz");
    reveal_strlit("gzip");
    reveal_strlit("zst");
    reveal_strlit("zstd");
    reveal_strlit("lz4");
    reveal_strlit("xz");
    reveal_strlit("lzma");
    reveal_strlit("bz2");
    reveal_strlit("bzip2");
    reveal_strlit("br");
    reveal_strlit("brotli");
    reveal_strlit("tgz");
    reveal_strlit("tar.gz");
    reveal_strlit("tzst");
    reveal_strlit("tar.zst");
    reveal_strlit("txz");
    reveal_strlit("tar.xz");
    reveal_strlit("tbz2");
    reveal_strlit("tbz");
    reveal_strlit("tar.bz2");
    reveal_strlit("tar.lz4");
    reveal_strlit("tar.br");
    reveal_strlit(".tar.gz");
    reveal_strlit(".tgz");
    reveal_strlit(".tar.zst");
    reveal_strlit(".tzst");
    reveal_strlit(".tar.xz");
    reveal_strlit(".txz");
    reveal_strlit(".tar.bz2");
    reveal_strlit(".tbz2");
    reveal_strlit(".tbz");
    reveal_strlit(".tar.lz4");
    reveal_strlit(".tar.br");
    reveal_strlit(".tar.ans");
    reveal_strlit(".tar");
    reveal_strlit(".abyss");
    reveal_strlit(".zip");
    reveal_strlit(".jar");
    reveal_strlit(".war");
    reveal_strlit(".ear");
    reveal_strlit(".apk");
    reveal_strlit(".zipx");
    reveal_strlit(".7z");
    reveal_strlit(".rar");
    reveal_strlit(".iso");
    reveal_strlit(".gz");
    reveal_strlit(".zst");
    reveal_strlit(".lz4");
    reveal_strlit(".xz");
    reveal_strlit(".bz2");
    reveal_strlit(".br");
    reveal_strlit(".ans");
    let j = name_suffix(k)->0;
    assert(suffix_at(j).0 =~= "."@ + name_at(k).0);
    assert(suffix_at(j).1 == name_at(k).1);
    lemma_name_resolves(k);
    assert(stem + "."@ + name_at(k).0 =~= stem + suffix_at(j).0);
    lemma_suffix_after_stem(stem, j);
}

/// The longer listed suffix that ends with suffix `j`, or `-1`: the tar
/// variant of a raw codec's suffix.
pub open spec fn nested_suffix(j: int) -> int {
    if j == 23 {
        0
    }     else if j == 24 {
        2
    }     else if j == 25 {
        9
    }     else if j == 26 {
        4
    }     else if j == 27 {
        6
    }     else if j == 28 {
        10
    }     else if j == 29 {
        11
    } else {
        -1
    }
}

/// Which listed suffixes end with a shorter listed one: only the tar variants
/// of the raw codecs' suffixes.
proof fn lemma_nested_suffixes(j: int)
    requires
        0 <= j < SUFFIXES,
    ensures
        forall|k: int|
            0 <= k < SUFFIXES && (#[trigger] suffix_at(k).0).len() > suffix_at(j).0.len() && ends_with(
                suffix_at(k).0,
                suffix_at(j).0,
            ) ==> k == nested_suffix(j),
{
    reveal_strlit(".tar.gz");
    reveal_strlit(".tgz");
    reveal_strlit(".tar.zst");
    reveal_strlit(".tzst");
    reveal_strlit(".tar.xz");
    reveal_strlit(".txz");
    reveal_strlit(".tar.bz2");
    reveal_strlit(".tbz2");
    reveal_strlit(".tbz");
    reveal_strlit(".tar.lz4");
    reveal_strlit(".tar.br");
    reveal_strlit(".tar.ans");
    reveal_strlit(".tar");
    reveal_strlit(".abyss");
    reveal_strlit(".zip");
    reveal_strlit(".jar");
    reveal_strlit(".war");
    reveal_strlit(".ear");
    reveal_strlit(".apk");
    reveal_strlit(".zipx");
    reveal_strlit(".7z");
    reveal_strlit(".rar");
    reveal_strlit(".iso");
    reveal_strlit(".gz");
    reveal_strlit(".zst");
    reveal_strlit(".lz4");
    reveal_strlit(".xz");
    reveal_strlit(".bz2");
    reveal_strlit(".br");
    reveal_strlit(".ans");
    if j == 0 {
        lemma_differs_at_end(".tar.zst"@, ".tar.gz"@, 0);
        lemma_differs_at_end(".tar.bz2"@, ".tar.gz"@, 0);
        lemma_differs_at_end(".tar.lz4"@, ".tar.gz"@, 0);
        lemma_differs_at_end(".tar.ans"@, ".tar.gz"@, 0);
    } else if j == 1 {
        lemma_differs_at_end(".tar.gz"@, ".tgz"@, 2);
        lemma_differs_at_end(".tar.zst"@, ".tgz"@, 0);
        lemma_differs_at_end(".tzst"@, ".tgz"@, 0);
        lemma_differs_at_end(".tar.xz"@, ".tgz"@, 1);
        lemma_differs_at_end(".tar.bz2"@, ".tgz"@, 0);
        lemma_differs_at_end(".tbz2"@, ".tgz"@, 0);
        lemma_differs_at_end(".tar.lz4"@, ".tgz"@, 0);
        lemma_differs_at_end(".tar.br"@, ".tgz"@, 0);
        lemma_differs_at_end(".tar.ans"@, ".tgz"@, 0);
        lemma_differs_at_end(".abyss"@, ".tgz"@, 0);
        lemma_differs_at_end(".zipx"@, ".tgz"@, 0);
    } else if j == 2 {

    } else if j == 3 {
        lemma_differs_at_end(".tar.gz"@, ".tzst"@, 0);
        lemma_differs_at_end(".tar.zst"@, ".tzst"@, 3);
        lemma_differs_at_end(".tar.xz"@, ".tzst"@, 0);
        lemma_differs_at_end(".tar.bz2"@, ".tzst"@, 0);
        lemma_differs_at_end(".tar.lz4"@, ".tzst"@, 0);
        lemma_differs_at_end(".tar.br"@, ".tzst"@, 0);
        lemma_differs_at_end(".tar.ans"@, ".tzst"@, 0);
        lemma_differs_at_end(".abyss"@, ".tzst"@, 0);
    } else if j == 4 {
        lemma_differs_at_end(".tar.zst"@, ".tar.xz"@, 0);
        lemma_differs_at_end(".tar.bz2"@, ".tar.xz"@, 0);
        lemma_differs_at_end(".tar.lz4"@, ".tar.xz"@, 0);
        lemma_differs_at_end(".tar.ans"@, ".tar.xz"@, 0);
    } else if j == 5 {
        lemma_differs_at_end(".tar.gz"@, ".txz"@, 1);
        lemma_differs_at_end(".tar.zst"@, ".txz"@, 0);
        lemma_differs_at_end(".tzst"@, ".txz"@, 0);
        lemma_differs_at_end(".tar.xz"@, ".txz"@, 2);
        lemma_differs_at_end(".tar.bz2"@, ".txz"@, 0);
        lemma_differs_at_end(".tbz2"@, ".txz"@, 0);
        lemma_differs_at_end(".tar.lz4"@, ".txz"@, 0);
        lemma_differs_at_end(".tar.br"@, ".txz"@, 0);
        lemma_differs_at_end(".tar.ans"@, ".txz"@, 0);
        lemma_differs_at_end(".abyss"@, ".txz"@, 0);
        lemma_differs_at_end(".zipx"@, ".txz"@, 0);
    } else if j == 6 {

    } else if j == 7 {
        lemma_differs_at_end(".tar.gz"@, ".tbz2"@, 0);
        lemma_differs_at_end(".tar.zst"@, ".tbz2"@, 0);
        lemma_differs_at_end(".tar.xz"@, ".tbz2"@, 0);
        lemma_differs_at_end(".tar.bz2"@, ".tbz2"@, 3);
        lemma_differs_at_end(".tar.lz4"@, ".tbz2"@, 0);
        lemma_differs_at_end(".tar.br"@, ".tbz2"@, 0);
        lemma_differs_at_end(".tar.ans"@, ".tbz2"@, 0);
        lemma_differs_at_end(".abyss"@, ".tbz2"@, 0);
    } else if j == 8 {
        lemma_differs_at_end(".tar.gz"@, ".tbz"@, 1);
        lemma_differs_at_end(".tar.zst"@, ".tbz"@, 0);
        lemma_differs_at_end(".tzst"@, ".tbz"@, 0);
        lemma_differs_at_end(".tar.xz"@, ".tbz"@, 1);
        lemma_differs_at_end(".tar.bz2"@, ".tbz"@, 0);
        lemma_differs_at_end(".tbz2"@, ".tbz"@, 0);
        lemma_differs_at_end(".tar.lz4"@, ".tbz"@, 0);
        lemma_differs_at_end(".tar.br"@, ".tbz"@, 0);
        lemma_differs_at_end(".tar.ans"@, ".tbz"@, 0);
        lemma_differs_at_end(".abyss"@, ".tbz"@, 0);
        lemma_differs_at_end(".zipx"@, ".tbz"@, 0);
    } else if j == 9 {

    } else if j == 10 {
        lemma_differs_at_end(".tar.zst"@, ".tar.br"@, 0);
        lemma_differs_at_end(".tar.bz2"@, ".tar.br"@, 0);
        lemma_differs_at_end(".tar.lz4"@, ".tar.br"@, 0);
        lemma_differs_at_end(".tar.ans"@, ".tar.br"@, 0);
    } else if j == 11 {

    } else if j == 12 {
        lemma_differs_at_end(".tar.gz"@, ".tar"@, 0);
        lemma_differs_at_end(".tar.zst"@, ".tar"@, 0);
        lemma_differs_at_end(".tzst"@, ".tar"@, 0);
        lemma_differs_at_end(".tar.xz"@, ".tar"@, 0);
        lemma_differs_at_end(".tar.bz2"@, ".tar"@, 0);
        lemma_differs_at_end(".tbz2"@, ".tar"@, 0);
        lemma_differs_at_end(".tar.lz4"@, ".tar"@, 0);
        lemma_differs_at_end(".tar.br"@, ".tar"@, 1);
        lemma_differs_at_end(".tar.ans"@, ".tar"@, 0);
        lemma_differs_at_end(".abyss"@, ".tar"@, 0);
        lemma_differs_at_end(".zipx"@, ".tar"@, 0);
    } else if j == 13 {
        lemma_differs_at_end(".tar.gz"@, ".abyss"@, 0);
        lemma_differs_at_end(".tar.zst"@, ".abyss"@, 0);
        lemma_differs_at_end(".tar.xz"@, ".abyss"@, 0);
        lemma_differs_at_end(".tar.bz2"@, ".abyss"@, 0);
        lemma_differs_at_end(".tar.lz4"@, ".abyss"@, 0);
        lemma_differs_at_end(".tar.br"@, ".abyss"@, 0);
        lemma_differs_at_end(".tar.ans"@, ".abyss"@, 1);
    } else if j == 14 {
        lemma_differs_at_end(".tar.gz"@, ".zip"@, 0);
        lemma_differs_at_end(".tar.zst"@, ".zip"@, 0);
        lemma_differs_at_end(".tzst"@, ".zip"@, 0);
        lemma_differs_at_end(".tar.xz"@, ".zip"@, 0);
        lemma_differs_at_end(".tar.bz2"@, ".zip"@, 0);
        lemma_differs_at_end(".tbz2"@, ".zip"@, 0);
        lemma_differs_at_end(".tar.lz4"@, ".zip"@, 0);
        lemma_differs_at_end(".tar.br"@, ".zip"@, 0);
        lemma_differs_at_end(".tar.ans"@, ".zip"@, 0);
        lemma_differs_at_end(".abyss"@, ".zip"@, 0);
        lemma_differs_at_end(".zipx"@, ".zip"@, 0);
    } else if j == 15 {
        lemma_differs_at_end(".tar.gz"@, ".jar"@, 0);
        lemma_differs_at_end(".tar.zst"@, ".jar"@, 0);
        lemma_differs_at_end(".tzst"@, ".jar"@, 0);
        lemma_differs_at_end(".tar.xz"@, ".jar"@, 0);
        lemma_differs_at_end(".tar.bz2"@, ".jar"@, 0);
        lemma_differs_at_end(".tbz2"@, ".jar"@, 0);
        lemma_differs_at_end(".tar.lz4"@, ".jar"@, 0);
        lemma_differs_at_end(".tar.br"@, ".jar"@, 1);
        lemma_differs_at_end(".tar.ans"@, ".jar"@, 0);
        lemma_differs_at_end(".abyss"@, ".jar"@, 0);
        lemma_differs_at_end(".zipx"@, ".jar"@, 0);
    } else if j == 16 {
        lemma_differs_at_end(".tar.gz"@, ".war"@, 0);
        lemma_differs_at_end(".tar.zst"@, ".war"@, 0);
        lemma_differs_at_end(".tzst"@, ".war"@, 0);
        lemma_differs_at_end(".tar.xz"@, ".war"@, 0);
        lemma_differs_at_end(".tar.bz2"@, ".war"@, 0);
        lemma_differs_at_end(".tbz2"@, ".war"@, 0);
        lemma_differs_at_end(".tar.lz4"@, ".war"@, 0);
        lemma_differs_at_end(".tar.br"@, ".war"@, 1);
        lemma_differs_at_end(".tar.ans"@, ".war"@, 0);
        lemma_differs_at_end(".abyss"@, ".war"@, 0);
        lemma_differs_at_end(".zipx"@, ".war"@, 0);
    } else if j == 17 {
        lemma_differs_at_end(".tar.gz"@, ".ear"@, 0);
        lemma_differs_at_end(".tar.zst"@, ".ear"@, 0);
        lemma_differs_at_end(".tzst"@, ".ear"@, 0);
        lemma_differs_at_end(".tar.xz"@, ".ear"@, 0);
        lemma_differs_at_end(".tar.bz2"@, ".ear"@, 0);
        lemma_differs_at_end(".tbz2"@, ".ear"@, 0);
        lemma_differs_at_end(".tar.lz4"@, ".ear"@, 0);
        lemma_differs_at_end(".tar.br"@, ".ear"@, 1);
        lemma_differs_at_end(".tar.ans"@, ".ear"@, 0);
        lemma_differs_at_end(".abyss"@, ".ear"@, 0);
        lemma_differs_at_end(".zipx"@, ".ear"@, 0);
    } else if j == 18 {
        lemma_differs_at_end(".tar.gz"@, ".apk"@, 0);
        lemma_differs_at_end(".tar.zst"@, ".apk"@, 0);
        lemma_differs_at_end(".tzst"@, ".apk"@, 0);
        lemma_differs_at_end(".tar.xz"@, ".apk"@, 0);
        lemma_differs_at_end(".tar.bz2"@, ".apk"@, 0);
        lemma_differs_at_end(".tbz2"@, ".apk"@, 0);
        lemma_differs_at_end(".tar.lz4"@, ".apk"@, 0);
        lemma_differs_at_end(".tar.br"@, ".apk"@, 0);
        lemma_differs_at_end(".tar.ans"@, ".apk"@, 0);
        lemma_differs_at_end(".abyss"@, ".apk"@, 0);
        lemma_differs_at_end(".zipx"@, ".apk"@, 0);
    } else if j == 19 {
        lemma_differs_at_end(".tar.gz"@, ".zipx"@, 0);
        lemma_differs_at_end(".tar.zst"@, ".zipx"@, 0);
        lemma_differs_at_end(".tar.xz"@, ".zipx"@, 0);
        lemma_differs_at_end(".tar.bz2"@, ".zipx"@, 0);
        lemma_differs_at_end(".tar.lz4"@, ".zipx"@, 0);
        lemma_differs_at_end(".tar.br"@, ".zipx"@, 0);
        lemma_differs_at_end(".tar.ans"@, ".zipx"@, 0);
        lemma_differs_at_end(".abyss"@, ".zipx"@, 0);
    } else if j == 20 {
        lemma_differs_at_end(".tar.gz"@, ".7z"@, 1);
        lemma_differs_at_end(".tgz"@, ".7z"@, 1);
        lemma_differs_at_end(".tar.zst"@, ".7z"@, 0);
        lemma_differs_at_end(".tzst"@, ".7z"@, 0);
        lemma_differs_at_end(".tar.xz"@, ".7z"@, 1);
        lemma_differs_at_end(".txz"@, ".7z"@, 1);
        lemma_differs_at_end(".tar.bz2"@, ".7z"@, 0);
        lemma_differs_at_end(".tbz2"@, ".7z"@, 0);
        lemma_differs_at_end(".tbz"@, ".7z"@, 1);
        lemma_differs_at_end(".tar.lz4"@, ".7z"@, 0);
        lemma_differs_at_end(".tar.br"@, ".7z"@, 0);
        lemma_differs_at_end(".tar.ans"@, ".7z"@, 0);
        lemma_differs_at_end(".tar"@, ".7z"@, 0);
        lemma_differs_at_end(".abyss"@, ".7z"@, 0);
        lemma_differs_at_end(".zip"@, ".7z"@, 0);
        lemma_differs_at_end(".jar"@, ".7z"@, 0);
        lemma_differs_at_end(".war"@, ".7z"@, 0);
        lemma_differs_at_end(".ear"@, ".7z"@, 0);
        lemma_differs_at_end(".apk"@, ".7z"@, 0);
        lemma_differs_at_end(".zipx"@, ".7z"@, 0);
        lemma_differs_at_end(".rar"@, ".7z"@, 0);
        lemma_differs_at_end(".iso"@, ".7z"@, 0);
        lemma_differs_at_end(".zst"@, ".7z"@, 0);
        lemma_differs_at_end(".lz4"@, ".7z"@, 0);
        lemma_differs_at_end(".bz2"@, ".7z"@, 0);
        lemma_differs_at_end(".ans"@, ".7z"@, 0);
    } else if j == 21 {
        lemma_differs_at_end(".tar.gz"@, ".rar"@, 0);
        lemma_differs_at_end(".tar.zst"@, ".rar"@, 0);
        lemma_differs_at_end(".tzst"@, ".rar"@, 0);
        lemma_differs_at_end(".tar.xz"@, ".rar"@, 0);
        lemma_differs_at_end(".tar.bz2"@, ".rar"@, 0);
        lemma_differs_at_end(".tbz2"@, ".rar"@, 0);
        lemma_differs_at_end(".tar.lz4"@, ".rar"@, 0);
        lemma_differs_at_end(".tar.br"@, ".rar"@, 1);
        lemma_differs_at_end(".tar.ans"@, ".rar"@, 0);
        lemma_differs_at_end(".abyss"@, ".rar"@, 0);
        lemma_differs_at_end(".zipx"@, ".rar"@, 0);
    } else if j == 22 {
        lemma_differs_at_end(".tar.gz"@, ".iso"@, 0);
        lemma_differs_at_end(".tar.zst"@, ".iso"@, 0);
        lemma_differs_at_end(".tzst"@, ".iso"@, 0);
        lemma_differs_at_end(".tar.xz"@, ".iso"@, 0);
        lemma_differs_at_end(".tar.bz2"@, ".iso"@, 0);
        lemma_differs_at_end(".tbz2"@, ".iso"@, 0);
        lemma_differs_at_end(".tar.lz4"@, ".iso"@, 0);
        lemma_differs_at_end(".tar.br"@, ".iso"@, 0);
        lemma_differs_at_end(".tar.ans"@, ".iso"@, 0);
        lemma_differs_at_end(".abyss"@, ".iso"@, 0);
        lemma_differs_at_end(".zipx"@, ".iso"@, 0);
    } else if j == 23 {
        lemma_differs_at_end(".tgz"@, ".gz"@, 2);
        lemma_differs_at_end(".tar.zst"@, ".gz"@, 0);
        lemma_differs_at_end(".tzst"@, ".gz"@, 0);
        lemma_differs_at_end(".tar.xz"@, ".gz"@, 1);
        lemma_differs_at_end(".txz"@, ".gz"@, 1);
        lemma_differs_at_end(".tar.bz2"@, ".gz"@, 0);
        lemma_differs_at_end(".tbz2"@, ".gz"@, 0);
        lemma_differs_at_end(".tbz"@, ".gz"@, 1);
        lemma_differs_at_end(".tar.lz4"@, ".gz"@, 0);
        lemma_differs_at_end(".tar.br"@, ".gz"@, 0);
        lemma_differs_at_end(".tar.ans"@, ".gz"@, 0);
        lemma_differs_at_end(".tar"@, ".gz"@, 0);
        lemma_differs_at_end(".abyss"@, ".gz"@, 0);
        lemma_differs_at_end(".zip"@, ".gz"@, 0);
        lemma_differs_at_end(".jar"@, ".gz"@, 0);
        lemma_differs_at_end(".war"@, ".gz"@, 0);
        lemma_differs_at_end(".ear"@, ".gz"@, 0);
        lemma_differs_at_end(".apk"@, ".gz"@, 0);
        lemma_differs_at_end(".zipx"@, ".gz"@, 0);
        lemma_differs_at_end(".rar"@, ".gz"@, 0);
        lemma_differs_at_end(".iso"@, ".gz"@, 0);
        lemma_differs_at_end(".zst"@, ".gz"@, 0);
        lemma_differs_at_end(".lz4"@, ".gz"@, 0);
        lemma_differs_at_end(".bz2"@, ".gz"@, 0);
        lemma_differs_at_end(".ans"@, ".gz"@, 0);
    } else if j == 24 {
        lemma_differs_at_end(".tar.gz"@, ".zst"@, 0);
        lemma_differs_at_end(".tzst"@, ".zst"@, 3);
        lemma_differs_at_end(".tar.xz"@, ".zst"@, 0);
        lemma_differs_at_end(".tar.bz2"@, ".zst"@, 0);
        lemma_differs_at_end(".tbz2"@, ".zst"@, 0);
        lemma_differs_at_end(".tar.lz4"@, ".zst"@, 0);
        lemma_differs_at_end(".tar.br"@, ".zst"@, 0);
        lemma_differs_at_end(".tar.ans"@, ".zst"@, 0);
        lemma_differs_at_end(".abyss"@, ".zst"@, 0);
        lemma_differs_at_end(".zipx"@, ".zst"@, 0);
    } else if j == 25 {
        lemma_differs_at_end(".tar.gz"@, ".lz4"@, 0);
        lemma_differs_at_end(".tar.zst"@, ".lz4"@, 0);
        lemma_differs_at_end(".tzst"@, ".lz4"@, 0);
        lemma_differs_at_end(".tar.xz"@, ".lz4"@, 0);
        lemma_differs_at_end(".tar.bz2"@, ".lz4"@, 0);
        lemma_differs_at_end(".tbz2"@, ".lz4"@, 0);
        lemma_differs_at_end(".tar.br"@, ".lz4"@, 0);
        lemma_differs_at_end(".tar.ans"@, ".lz4"@, 0);
        lemma_differs_at_end(".abyss"@, ".lz4"@, 0);
        lemma_differs_at_end(".zipx"@, ".lz4"@, 0);
    } else if j == 26 {
        lemma_differs_at_end(".tar.gz"@, ".xz"@, 1);
        lemma_differs_at_end(".tgz"@, ".xz"@, 1);
        lemma_differs_at_end(".tar.zst"@, ".xz"@, 0);
        lemma_differs_at_end(".tzst"@, ".xz"@, 0);
        lemma_differs_at_end(".txz"@, ".xz"@, 2);
        lemma_differs_at_end(".tar.bz2"@, ".xz"@, 0);
        lemma_differs_at_end(".tbz2"@, ".xz"@, 0);
        lemma_differs_at_end(".tbz"@, ".xz"@, 1);
        lemma_differs_at_end(".tar.lz4"@, ".xz"@, 0);
        lemma_differs_at_end(".tar.br"@, ".xz"@, 0);
        lemma_differs_at_end(".tar.ans"@, ".xz"@, 0);
        lemma_differs_at_end(".tar"@, ".xz"@, 0);
        lemma_differs_at_end(".abyss"@, ".xz"@, 0);
        lemma_differs_at_end(".zip"@, ".xz"@, 0);
        lemma_differs_at_end(".jar"@, ".xz"@, 0);
        lemma_differs_at_end(".war"@, ".xz"@, 0);
        lemma_differs_at_end(".ear"@, ".xz"@, 0);
        lemma_differs_at_end(".apk"@, ".xz"@, 0);
        lemma_differs_at_end(".zipx"@, ".xz"@, 0);
        lemma_differs_at_end(".rar"@, ".xz"@, 0);
        lemma_differs_at_end(".iso"@, ".xz"@, 0);
        lemma_differs_at_end(".zst"@, ".xz"@, 0);
        lemma_differs_at_end(".lz4"@, ".xz"@, 0);
        lemma_differs_at_end(".bz2"@, ".xz"@, 0);
        lemma_differs_at_end(".ans"@, ".xz"@, 0);
    } else if j == 27 {
        lemma_differs_at_end(".tar.gz"@, ".bz2"@, 0);
        lemma_differs_at_end(".tar.zst"@, ".bz2"@, 0);
        lemma_differs_at_end(".tzst"@, ".bz2"@, 0);
        lemma_differs_at_end(".tar.xz"@, ".bz2"@, 0);
        lemma_differs_at_end(".tbz2"@, ".bz2"@, 3);
        lemma_differs_at_end(".tar.lz4"@, ".bz2"@, 0);
        lemma_differs_at_end(".tar.br"@, ".bz2"@, 0);
        lemma_differs_at_end(".tar.ans"@, ".bz2"@, 0);
        lemma_differs_at_end(".abyss"@, ".bz2"@, 0);
        lemma_differs_at_end(".zipx"@, ".bz2"@, 0);
    } else if j == 28 {
        lemma_differs_at_end(".tar.gz"@, ".br"@, 0);
        lemma_differs_at_end(".tgz"@, ".br"@, 0);
        lemma_differs_at_end(".tar.zst"@, ".br"@, 0);
        lemma_differs_at_end(".tzst"@, ".br"@, 0);
        lemma_differs_at_end(".tar.xz"@, ".br"@, 0);
        lemma_differs_at_end(".txz"@, ".br"@, 0);
        lemma_differs_at_end(".tar.bz2"@, ".br"@, 0);
        lemma_differs_at_end(".tbz2"@, ".br"@, 0);
        lemma_differs_at_end(".tbz"@, ".br"@, 0);
        lemma_differs_at_end(".tar.lz4"@, ".br"@, 0);
        lemma_differs_at_end(".tar.ans"@, ".br"@, 0);
        lemma_differs_at_end(".tar"@, ".br"@, 1);
        lemma_differs_at_end(".abyss"@, ".br"@, 0);
        lemma_differs_at_end(".zip"@, ".br"@, 0);
        lemma_differs_at_end(".jar"@, ".br"@, 1);
        lemma_differs_at_end(".war"@, ".br"@, 1);
        lemma_differs_at_end(".ear"@, ".br"@, 1);
        lemma_differs_at_end(".apk"@, ".br"@, 0);
        lemma_differs_at_end(".zipx"@, ".br"@, 0);
        lemma_differs_at_end(".rar"@, ".br"@, 1);
        lemma_differs_at_end(".iso"@, ".br"@, 0);
        lemma_differs_at_end(".zst"@, ".br"@, 0);
        lemma_differs_at_end(".lz4"@, ".br"@, 0);
        lemma_differs_at_end(".bz2"@, ".br"@, 0);
        lemma_differs_at_end(".ans"@, ".br"@, 0);
    } else if j == 29 {
        lemma_differs_at_end(".tar.gz"@, ".ans"@, 0);
        lemma_differs_at_end(".tar.zst"@, ".ans"@, 0);
        lemma_differs_at_end(".tzst"@, ".ans"@, 0);
        lemma_differs_at_end(".tar.xz"@, ".ans"@, 0);
        lemma_differs_at_end(".tar.bz2"@, ".ans"@, 0);
        lemma_differs_at_end(".tbz2"@, ".ans"@, 0);
        lemma_differs_at_end(".tar.lz4"@, ".ans"@, 0);
        lemma_differs_at_end(".tar.br"@, ".ans"@, 0);
        lemma_differs_at_end(".abyss"@, ".ans"@, 1);
        lemma_differs_at_end(".zipx"@, ".ans"@, 0);
    }
    assert forall|k: int|
        0 <= k < SUFFIXES && (#[trigger] suffix_at(k).0).len() > suffix_at(j).0.len() && ends_with(
            suffix_at(k).0,
            suffix_at(j).0,
        ) implies k == nested_suffix(j) by {
        if k == nested_suffix(j) {
        }
    }
}

/// Read from entry `i` on, a name that ends with `s` is read as `s` itself,
/// unless a longer listed suffix that ends with `s` also ends the name.
proof fn lemma_match_ending(x: Seq<char>, s: Seq<char>, i: int)
    requires
        ends_with(x, s),
        0 <= i <= SUFFIXES,
        forall|k: int|
            i <= k < SUFFIXES && (#[trigger] suffix_at(k).0).len() > s.len() && ends_with(suffix_at(k).0, s)
                ==> !ends_with(x, suffix_at(k).0),
    ensures
        suffix_match(x, i) == suffix_match(s, i),
    decreases SUFFIXES - i,
{
    if i < SUFFIXES {
        let t = suffix_at(i).0;
        if t.len() <= s.len() {
            assert(x.subrange(x.len() - t.len(), x.len() as int) =~= s.subrange(s.len() - t.len(), s.len() as int))
                by {
                assert(x.subrange(x.len() - s.len(), x.len() as int) == s);
                assert forall|m: int| 0 <= m < t.len() implies #[trigger] x.subrange(x.len() - t.len(), x.len() as int)[m]
                    == s.subrange(s.len() - t.len(), s.len() as int)[m] by {
                    assert(x.subrange(x.len() - s.len(), x.len() as int)[s.len() - t.len() + m] == s[s.len()
                        - t.len() + m]);
                }
            }
        } else if ends_with(x, t) {
            assert(t.subrange(t.len() - s.len(), t.len() as int) =~= s) by {
                assert(x.subrange(x.len() - t.len(), x.len() as int) == t);
                assert(x.subrange(x.len() - s.len(), x.len() as int) == s);
                assert forall|m: int| 0 <= m < s.len() implies #[trigger] t.subrange(t.len() - s.len(), t.len() as int)[m]
                    == s[m] by {
                    assert(x.subrange(x.len() - t.len(), x.len() as int)[t.len() - s.len() + m] == t[t.len()
                        - s.len() + m]);
                    assert(x.subrange(x.len() - s.len(), x.len() as int)[m] == s[m]);
                }
            }
        }
        lemma_match_ending(x, s, i + 1);
    }
}

/// A name whose lower case ends with listed suffix `j` is detected as that
/// suffix's format, unless it ends with the longer tar variant of it.
proof fn lemma_ending_detected(name: Seq<char>, j: int)
    requires
        0 <= j < SUFFIXES,
        ends_with(lower_seq(name), suffix_at(j).0),
        nested_suffix(j) >= 0 ==> !ends_with(lower_seq(name), suffix_at(nested_suffix(j)).0),
    ensures
        format_by_suffix(name) == Some(suffix_at(j).1),
{
    lemma_nested_suffixes(j);
    lemma_match_ending(lower_seq(name), suffix_at(j).0, 0);
    lemma_every_suffix_detected(j);
}

/// No listed suffix ends the name: nothing is detected.
proof fn lemma_no_ending(x: Seq<char>, i: int)
    requires
        0 <= i <= SUFFIXES,
        forall|k: int| i <= k < SUFFIXES ==> !ends_with(x, #[trigger] suffix_at(k).0),
    ensures
        suffix_match(x, i) is None,
    decreases SUFFIXES - i,
{
    if i < SUFFIXES {
        lemma_no_ending(x, i + 1);
    }
}

/// Whether `name`, in lower case, ends with `s`.
pub open spec fn ends_ci(name: Seq<char>, s: Seq<char>) -> bool {
    ends_with(lower_seq(name), s)
}

/// What a file name's extension, in any letter case, is detected as: each
/// listed extension gives its own format; a single stream's extension gives a
/// raw stream unless the name ends with the tar variant (`.tar.gz` is a tar,
/// `.gz` a raw gzip stream); a name with none of them gives nothing.
pub proof fn lemma_detected_formats(name: Seq<char>)
    ensures
        ends_ci(name, ".tar.gz"@) ==> format_by_suffix(name) == Some(Format { container: Container::Tar, codec: Codec::Gzip }),
        ends_ci(name, ".tgz"@) ==> format_by_suffix(name) == Some(Format { container: Container::Tar, codec: Codec::Gzip }),
        ends_ci(name, ".tar.zst"@) ==> format_by_suffix(name) == Some(Format { container: Container::Tar, codec: Codec::Zstd }),
        ends_ci(name, ".tzst"@) ==> format_by_suffix(name) == Some(Format { container: Container::Tar, codec: Codec::Zstd }),
        ends_ci(name, ".tar.xz"@) ==> format_by_suffix(name) == Some(Format { container: Container::Tar, codec: Codec::Xz }),
        ends_ci(name, ".txz"@) ==> format_by_suffix(name) == Some(Format { container: Container::Tar, codec: Codec::Xz }),
        ends_ci(name, ".tar.bz2"@) ==> format_by_suffix(name) == Some(Format { container: Container::Tar, codec: Codec::Bzip2 }),
        ends_ci(name, ".tbz2"@) ==> format_by_suffix(name) == Some(Format { container: Container::Tar, codec: Codec::Bzip2 }),
        ends_ci(name, ".tbz"@) ==> format_by_suffix(name) == Some(Format { container: Container::Tar, codec: Codec::Bzip2 }),
        ends_ci(name, ".tar.lz4"@) ==> format_by_suffix(name) == Some(Format { container: Container::Tar, codec: Codec::Lz4 }),
        ends_ci(name, ".tar.br"@) ==> format_by_suffix(name) == Some(Format { container: Container::Tar, codec: Codec::Brotli }),
        ends_ci(name, ".tar.ans"@) ==> format_by_suffix(name) == Some(Format { container: Container::Tar, codec: Codec::Ans }),
        ends_ci(name, ".tar"@) ==> format_by_suffix(name) == Some(Format { container: Container::Tar, codec: Codec::Store }),
        ends_ci(name, ".abyss"@) ==> format_by_suffix(name) == Some(Format { container: Container::Abyss, codec: Codec::Ans }),
        ends_ci(name, ".zip"@) ==> format_by_suffix(name) == Some(Format { container: Container::Zip, codec: Codec::Store }),
        ends_ci(name, ".jar"@) ==> format_by_suffix(name) == Some(Format { container: Container::Zip, codec: Codec::Store }),
        ends_ci(name, ".war"@) ==> format_by_suffix(name) == Some(Format { container: Container::Zip, codec: Codec::Store }),
        ends_ci(name, ".ear"@) ==> format_by_suffix(name) == Some(Format { container: Container::Zip, codec: Codec::Store }),
        ends_ci(name, ".apk"@) ==> format_by_suffix(name) == Some(Format { container: Container::Zip, codec: Codec::Store }),
        ends_ci(name, ".zipx"@) ==> format_by_suffix(name) == Some(Format { container: Container::Zip, codec: Codec::Store }),
        ends_ci(name, ".7z"@) ==> format_by_suffix(name) == Some(Format { container: Container::SevenZip, codec: Codec::Store }),
        ends_ci(name, ".rar"@) ==> format_by_suffix(name) == Some(Format { container: Container::Rar, codec: Codec::Store }),
        ends_ci(name, ".iso"@) ==> format_by_suffix(name) == Some(Format { container: Container::Iso, codec: Codec::Store }),
        ends_ci(name, ".gz"@) && !ends_ci(name, ".tar.gz"@) ==> format_by_suffix(name) == Some(Format { container: Container::Raw, codec: Codec::Gzip }),
        ends_ci(name, ".zst"@) && !ends_ci(name, ".tar.zst"@) ==> format_by_suffix(name) == Some(Format { container: Container::Raw, codec: Codec::Zstd }),
        ends_ci(name, ".lz4"@) && !ends_ci(name, ".tar.lz4"@) ==> format_by_suffix(name) == Some(Format { container: Container::Raw, codec: Codec::Lz4 }),
        ends_ci(name, ".xz"@) && !ends_ci(name, ".tar.xz"@) ==> format_by_suffix(name) == Some(Format { container: Container::Raw, codec: Codec::Xz }),
        ends_ci(name, ".bz2"@) && !ends_ci(name, ".tar.bz2"@) ==> format_by_suffix(name) == Some(Format { container: Container::Raw, codec: Codec::Bzip2 }),
        ends_ci(name, ".br"@) && !ends_ci(name, ".tar.br"@) ==> format_by_suffix(name) == Some(Format { container: Container::Raw, codec: Codec::Brotli }),
        ends_ci(name, ".ans"@) && !ends_ci(name, ".tar.ans"@) ==> format_by_suffix(name) == Some(Format { container: Container::Raw, codec: Codec::Ans }),
        (!ends_ci(name, ".tar.gz"@) && !ends_ci(name, ".tgz"@) && !ends_ci(name, ".tar.zst"@) && !ends_ci(name, ".tzst"@) && !ends_ci(name, ".tar.xz"@) && !ends_ci(name, ".txz"@) && !ends_ci(name, ".tar.bz2"@) && !ends_ci(name, ".tbz2"@) && !ends_ci(name, ".tbz"@) && !ends_ci(name, ".tar.lz4"@) && !ends_ci(name, ".tar.br"@) && !ends_ci(name, ".tar.ans"@) && !ends_ci(name, ".tar"@) && !ends_ci(name, ".abyss"@) && !ends_ci(name, ".zip"@) && !ends_ci(name, ".jar"@) && !ends_ci(name, ".war"@) && !ends_ci(name, ".ear"@) && !ends_ci(name, ".apk"@) && !ends_ci(name, ".zipx"@) && !ends_ci(name, ".7z"@) && !ends_ci(name, ".rar"@) && !ends_ci(name, ".iso"@) && !ends_ci(name, ".gz"@) && !ends_ci(name, ".zst"@) && !ends_ci(name, ".lz4"@) && !ends_ci(name, ".xz"@) && !ends_ci(name, ".bz2"@) && !ends_ci(name, ".br"@) && !ends_ci(name, ".ans"@)) ==> format_by_suffix(name) is None,
{
    reveal_strlit(".tar.gz");
    reveal_strlit(".tgz");
    reveal_strlit(".tar.zst");
    reveal_strlit(".tzst");
    reveal_strlit(".tar.xz");
    reveal_strlit(".txz");
    reveal_strlit(".tar.bz2");
    reveal_strlit(".tbz2");
    reveal_strlit(".tbz");
    reveal_strlit(".tar.lz4");
    reveal_strlit(".tar.br");
    reveal_strlit(".tar.ans");
    reveal_strlit(".tar");
    reveal_strlit(".abyss");
    reveal_strlit(".zip");
    reveal_strlit(".jar");
    reveal_strlit(".war");
    reveal_strlit(".ear");
    reveal_strlit(".apk");
    reveal_strlit(".zipx");
    reveal_strlit(".7z");
    reveal_strlit(".rar");
    reveal_strlit(".iso");
    reveal_strlit(".gz");
    reveal_strlit(".zst");
    reveal_strlit(".lz4");
    reveal_strlit(".xz");
    reveal_strlit(".bz2");
    reveal_strlit(".br");
    reveal_strlit(".ans");
    if ends_ci(name, ".tar.gz"@) {
        lemma_ending_detected(name, 0);
    }
    if ends_ci(name, ".tgz"@) {
        lemma_ending_detected(name, 1);
    }
    if ends_ci(name, ".tar.zst"@) {
        lemma_ending_detected(name, 2);
    }
    if ends_ci(name, ".tzst"@) {
        lemma_ending_detected(name, 3);
    }
    if ends_ci(name, ".tar.xz"@) {
        lemma_ending_detected(name, 4);
    }
    if ends_ci(name, ".txz"@) {
        lemma_ending_detected(name, 5);
    }
    if ends_ci(name, ".tar.bz2"@) {
        lemma_ending_detected(name, 6);
    }
    if ends_ci(name, ".tbz2"@) {
        lemma_ending_detected(name, 7);
    }
    if ends_ci(name, ".tbz"@) {
        lemma_ending_detected(name, 8);
    }
    if ends_ci(name, ".tar.lz4"@) {
        lemma_ending_detected(name, 9);
    }
    if ends_ci(name, ".tar.br"@) {
        lemma_ending_detected(name, 10);
    }
    if ends_ci(name, ".tar.ans"@) {
        lemma_ending_detected(name, 11);
    }
    if ends_ci(name, ".tar"@) {
        lemma_ending_detected(name, 12);
    }
    if ends_ci(name, ".abyss"@) {
        lemma_ending_detected(name, 13);
    }
    if ends_ci(name, ".zip"@) {
        lemma_ending_detected(name, 14);
    }
    if ends_ci(name, ".jar"@) {
        lemma_ending_detected(name, 15);
    }
    if ends_ci(name, ".war"@) {
        lemma_ending_detected(name, 16);
    }
    if ends_ci(name, ".ear"@) {
        lemma_ending_detected(name, 17);
    }
    if ends_ci(name, ".apk"@) {
        lemma_ending_detected(name, 18);
    }
    if ends_ci(name, ".zipx"@) {
        lemma_ending_detected(name, 19);
    }
    if ends_ci(name, ".7z"@) {
        lemma_ending_detected(name, 20);
    }
    if ends_ci(name, ".rar"@) {
        lemma_ending_detected(name, 21);
    }
    if ends_ci(name, ".iso"@) {
        lemma_ending_detected(name, 22);
    }
    if ends_ci(name, ".gz"@) && !ends_ci(name, ".tar.gz"@) {
        lemma_ending_detected(name, 23);
    }
    if ends_ci(name, ".zst"@) && !ends_ci(name, ".tar.zst"@) {
        lemma_ending_detected(name, 24);
    }
    if ends_ci(name, ".lz4"@) && !ends_ci(name, ".tar.lz4"@) {
        lemma_ending_detected(name, 25);
    }
    if ends_ci(name, ".xz"@) && !ends_ci(name, ".tar.xz"@) {
        lemma_ending_detected(name, 26);
    }
    if ends_ci(name, ".bz2"@) && !ends_ci(name, ".tar.bz2"@) {
        lemma_ending_detected(name, 27);
    }
    if ends_ci(name, ".br"@) && !ends_ci(name, ".tar.br"@) {
        lemma_ending_detected(name, 28);
    }
    if ends_ci(name, ".ans"@) && !ends_ci(name, ".tar.ans"@) {
        lemma_ending_detected(name, 29);
    }
    if (!ends_ci(name, ".tar.gz"@) && !ends_ci(name, ".tgz"@) && !ends_ci(name, ".tar.zst"@) && !ends_ci(name, ".tzst"@) && !ends_ci(name, ".tar.xz"@) && !ends_ci(name, ".txz"@) && !ends_ci(name, ".tar.bz2"@) && !ends_ci(name, ".tbz2"@) && !ends_ci(name, ".tbz"@) && !ends_ci(name, ".tar.lz4"@) && !ends_ci(name, ".tar.br"@) && !ends_ci(name, ".tar.ans"@) && !ends_ci(name, ".tar"@) && !ends_ci(name, ".abyss"@) && !ends_ci(name, ".zip"@) && !ends_ci(name, ".jar"@) && !ends_ci(name, ".war"@) && !ends_ci(name, ".ear"@) && !ends_ci(name, ".apk"@) && !ends_ci(name, ".zipx"@) && !ends_ci(name, ".7z"@) && !ends_ci(name, ".rar"@) && !ends_ci(name, ".iso"@) && !ends_ci(name, ".gz"@) && !ends_ci(name, ".zst"@) && !ends_ci(name, ".lz4"@) && !ends_ci(name, ".xz"@) && !ends_ci(name, ".bz2"@) && !ends_ci(name, ".br"@) && !ends_ci(name, ".ans"@)) {
        lemma_no_ending(lower_seq(name), 0);
    }
}

/// Which format an explicit name stands for, whatever its letter case and
/// surrounding whitespace; any other name stands for none.
pub proof fn lemma_named_formats(s: Seq<char>)
    ensures
        lower_seq(trim(s)) == "abyss"@ ==> format_by_name(s) == Some(Format { container: Container::Abyss, codec: Codec::Ans }),
        lower_seq(trim(s)) == "ans"@ ==> format_by_name(s) == Some(Format { container: Container::Raw, codec: Codec::Ans }),
        lower_seq(trim(s)) == "tar.ans"@ ==> format_by_name(s) == Some(Format { container: Container::Tar, codec: Codec::Ans }),
        lower_seq(trim(s)) == "zip"@ ==> format_by_name(s) == Some(Format { container: Container::Zip, codec: Codec::Store }),
        lower_seq(trim(s)) == "jar"@ ==> format_by_name(s) == Some(Format { container: Container::Zip, codec: Codec::Store }),
        lower_seq(trim(s)) == "war"@ ==> format_by_name(s) == Some(Format { container: Container::Zip, codec: Codec::Store }),
        lower_seq(trim(s)) == "ear"@ ==> format_by_name(s) == Some(Format { container: Container::Zip, codec: Codec::Store }),
        lower_seq(trim(s)) == "apk"@ ==> format_by_name(s) == Some(Format { container: Container::Zip, codec: Codec::Store }),
        lower_seq(trim(s)) == "zipx"@ ==> format_by_name(s) == Some(Format { container: Container::Zip, codec: Codec::Store }),
        lower_seq(trim(s)) == "7z"@ ==> format_by_name(s) == Some(Format { container: Container::SevenZip, codec: Codec::Store }),
        lower_seq(trim(s)) == "7zip"@ ==> format_by_name(s) == Some(Format { container: Container::SevenZip, codec: Codec::Store }),
        lower_seq(trim(s)) == "sevenzip"@ ==> format_by_name(s) == Some(Format { container: Container::SevenZip, codec: Codec::Store }),
        lower_seq(trim(s)) == "rar"@ ==> format_by_name(s) == Some(Format { container: Container::Rar, codec: Codec::Store }),
        lower_seq(trim(s)) == "iso"@ ==> format_by_name(s) == Some(Format { container: Container::Iso, codec: Codec::Store }),
        lower_seq(trim(s)) == "tar"@ ==> format_by_name(s) == Some(Format { container: Container::Tar, codec: Codec::Store }),
        lower_seq(trim(s)) == "gz"@ ==> format_by_name(s) == Some(Format { container: Container::Raw, codec: Codec::Gzip }),
        lower_seq(trim(s)) == "gzip"@ ==> format_by_name(s) == Some(Format { container: Container::Raw, codec: Codec::Gzip }),
        lower_seq(trim(s)) == "zst"@ ==> format_by_name(s) == Some(Format { container: Container::Raw, codec: Codec::Zstd }),
        lower_seq(trim(s)) == "zstd"@ ==> format_by_name(s) == Some(Format { container: Container::Raw, codec: Codec::Zstd }),
        lower_seq(trim(s)) == "lz4"@ ==> format_by_name(s) == Some(Format { container: Container::Raw, codec: Codec::Lz4 }),
        lower_seq(trim(s)) == "xz"@ ==> format_by_name(s) == Some(Format { container: Container::Raw, codec: Codec::Xz }),
        lower_seq(trim(s)) == "lzma"@ ==> format_by_name(s) == Some(Format { container: Container::Raw, codec: Codec::Xz }),
        lower_seq(trim(s)) == "bz2"@ ==> format_by_name(s) == Some(Format { container: Container::Raw, codec: Codec::Bzip2 }),
        lower_seq(trim(s)) == "bzip2"@ ==> format_by_name(s) == Some(Format { container: Container::Raw, codec: Codec::Bzip2 }),
        lower_seq(trim(s)) == "br"@ ==> format_by_name(s) == Some(Format { container: Container::Raw, codec: Codec::Brotli }),
        lower_seq(trim(s)) == "brotli"@ ==> format_by_name(s) == Some(Format { container: Container::Raw, codec: Codec::Brotli }),
        lower_seq(trim(s)) == "tgz"@ ==> format_by_name(s) == Some(Format { container: Container::Tar, codec: Codec::Gzip }),
        lower_seq(trim(s)) == "tar.gz"@ ==> format_by_name(s) == Some(Format { container: Container::Tar, codec: Codec::Gzip }),
        lower_seq(trim(s)) == "tzst"@ ==> format_by_name(s) == Some(Format { container: Container::Tar, codec: Codec::Zstd }),
        lower_seq(trim(s)) == "tar.zst"@ ==> format_by_name(s) == Some(Format { container: Container::Tar, codec: Codec::Zstd }),
        lower_seq(trim(s)) == "txz"@ ==> format_by_name(s) == Some(Format { container: Container::Tar, codec: Codec::Xz }),
        lower_seq(trim(s)) == "tar.xz"@ ==> format_by_name(s) == Some(Format { container: Container::Tar, codec: Codec::Xz }),
        lower_seq(trim(s)) == "tbz2"@ ==> format_by_name(s) == Some(Format { container: Container::Tar, codec: Codec::Bzip2 }),
        lower_seq(trim(s)) == "tbz"@ ==> format_by_name(s) == Some(Format { container: Container::Tar, codec: Codec::Bzip2 }),
        lower_seq(trim(s)) == "tar.bz2"@ ==> format_by_name(s) == Some(Format { container: Container::Tar, codec: Codec::Bzip2 }),
        lower_seq(trim(s)) == "tar.lz4"@ ==> format_by_name(s) == Some(Format { container: Container::Tar, codec: Codec::Lz4 }),
        lower_seq(trim(s)) == "tar.br"@ ==> format_by_name(s) == Some(Format { container: Container::Tar, codec: Codec::Brotli }),
        (lower_seq(trim(s)) != "abyss"@ && lower_seq(trim(s)) != "ans"@ && lower_seq(trim(s)) != "tar.ans"@ && lower_seq(trim(s)) != "zip"@ && lower_seq(trim(s)) != "jar"@ && lower_seq(trim(s)) != "war"@ && lower_seq(trim(s)) != "ear"@ && lower_seq(trim(s)) != "apk"@ && lower_seq(trim(s)) != "zipx"@ && lower_seq(trim(s)) != "7z"@ && lower_seq(trim(s)) != "7zip"@ && lower_seq(trim(s)) != "sevenzip"@ && lower_seq(trim(s)) != "rar"@ && lower_seq(trim(s)) != "iso"@ && lower_seq(trim(s)) != "tar"@ && lower_seq(trim(s)) != "gz"@ && lower_seq(trim(s)) != "gzip"@ && lower_seq(trim(s)) != "zst"@ && lower_seq(trim(s)) != "zstd"@ && lower_seq(trim(s)) != "lz4"@ && lower_seq(trim(s)) != "xz"@ && lower_seq(trim(s)) != "lzma"@ && lower_seq(trim(s)) != "bz2"@ && lower_seq(trim(s)) != "bzip2"@ && lower_seq(trim(s)) != "br"@ && lower_seq(trim(s)) != "brotli"@ && lower_seq(trim(s)) != "tgz"@ && lower_seq(trim(s)) != "tar.gz"@ && lower_seq(trim(s)) != "tzst"@ && lower_seq(trim(s)) != "tar.zst"@ && lower_seq(trim(s)) != "txz"@ && lower_seq(trim(s)) != "tar.xz"@ && lower_seq(trim(s)) != "tbz2"@ && lower_seq(trim(s)) != "tbz"@ && lower_seq(trim(s)) != "tar.bz2"@ && lower_seq(trim(s)) != "tar.lz4"@ && lower_seq(trim(s)) != "tar.br"@) ==> format_by_name(s) is None,
{
    reveal_strlit("abyss");
    reveal_strlit("ans");
    reveal_strlit("tar.ans");
    reveal_strlit("zip");
    reveal_strlit("jar");
    reveal_strlit("war");
    reveal_strlit("ear");
    reveal_strlit("apk");
    reveal_strlit("zipx");
    reveal_strlit("7z");
    reveal_strlit("7zip");
    reveal_strlit("sevenzip");
    reveal_strlit("rar");
    reveal_strlit("iso");
    reveal_strlit("tar");
    reveal_strlit("gz");
    reveal_strlit("gzip");
    reveal_strlit("zst");
    reveal_strlit("zstd");
    reveal_strlit("lz4");
    reveal_strlit("xz");
    reveal_strlit("lzma");
    reveal_strlit("bz2");
    reveal_strlit("bzip2");
    reveal_strlit("br");
    reveal_strlit("brotli");
    reveal_strlit("tgz");
    reveal_strlit("tar.gz");
    reveal_strlit("tzst");
    reveal_strlit("tar.zst");
    reveal_strlit("txz");
    reveal_strlit("tar.xz");
    reveal_strlit("tbz2");
    reveal_strlit("tbz");
    reveal_strlit("tar.bz2");
    reveal_strlit("tar.lz4");
    reveal_strlit("tar.br");
    if lower_seq(trim(s)) == "abyss"@ {
        lemma_name_resolves(0);
    }
    if lower_seq(trim(s)) == "ans"@ {
        lemma_name_resolves(1);
    }
    if lower_seq(trim(s)) == "tar.ans"@ {
        lemma_name_resolves(2);
    }
    if lower_seq(trim(s)) == "zip"@ {
        lemma_name_resolves(3);
    }
    if lower_seq(trim(s)) == "jar"@ {
        lemma_name_resolves(4);
    }
    if lower_seq(trim(s)) == "war"@ {
        lemma_name_resolves(5);
    }
    if lower_seq(trim(s)) == "ear"@ {
        lemma_name_resolves(6);
    }
    if lower_seq(trim(s)) == "apk"@ {
        lemma_name_resolves(7);
    }
    if lower_seq(trim(s)) == "zipx"@ {
        lemma_name_resolves(8);
    }
    if lower_seq(trim(s)) == "7z"@ {
        lemma_name_resolves(9);
    }
    if lower_seq(trim(s)) == "7zip"@ {
        lemma_name_resolves(10);
    }
    if lower_seq(trim(s)) == "sevenzip"@ {
        lemma_name_resolves(11);
    }
    if lower_seq(trim(s)) == "rar"@ {
        lemma_name_resolves(12);
    }
    if lower_seq(trim(s)) == "iso"@ {
        lemma_name_resolves(13);
    }
    if lower_seq(trim(s)) == "tar"@ {
        lemma_name_resolves(14);
    }
    if lower_seq(trim(s)) == "gz"@ {
        lemma_name_resolves(15);
    }
    if lower_seq(trim(s)) == "gzip"@ {
        lemma_name_resolves(16);
    }
    if lower_seq(trim(s)) == "zst"@ {
        lemma_name_resolves(17);
    }
    if lower_seq(trim(s)) == "zstd"@ {
        lemma_name_resolves(18);
    }
    if lower_seq(trim(s)) == "lz4"@ {
        lemma_name_resolves(19);
    }
    if lower_seq(trim(s)) == "xz"@ {
        lemma_name_resolves(20);
    }
    if lower_seq(trim(s)) == "lzma"@ {
        lemma_name_resolves(21);
    }
    if lower_seq(trim(s)) == "bz2"@ {
        lemma_name_resolves(22);
    }
    if lower_seq(trim(s)) == "bzip2"@ {
        lemma_name_resolves(23);
    }
    if lower_seq(trim(s)) == "br"@ {
        lemma_name_resolves(24);
    }
    if lower_seq(trim(s)) == "brotli"@ {
        lemma_name_resolves(25);
    }
    if lower_seq(trim(s)) == "tgz"@ {
        lemma_name_resolves(26);
    }
    if lower_seq(trim(s)) == "tar.gz"@ {
        lemma_name_resolves(27);
    }
    if lower_seq(trim(s)) == "tzst"@ {
        lemma_name_resolves(28);
    }
    if lower_seq(trim(s)) == "tar.zst"@ {
        lemma_name_resolves(29);
    }
    if lower_seq(trim(s)) == "txz"@ {
        lemma_name_resolves(30);
    }
    if lower_seq(trim(s)) == "tar.xz"@ {
        lemma_name_resolves(31);
    }
    if lower_seq(trim(s)) == "tbz2"@ {
        lemma_name_resolves(32);
    }
    if lower_seq(trim(s)) == "tbz"@ {
        lemma_name_resolves(33);
    }
    if lower_seq(trim(s)) == "tar.bz2"@ {
        lemma_name_resolves(34);
    }
    if lower_seq(trim(s)) == "tar.lz4"@ {
        lemma_name_resolves(35);
    }
    if lower_seq(trim(s)) == "tar.br"@ {
        lemma_name_resolves(36);
    }
    if lower_seq(trim(s)) != "abyss"@ && lower_seq(trim(s)) != "ans"@ && lower_seq(trim(s)) != "tar.ans"@ && lower_seq(trim(s)) != "zip"@ && lower_seq(trim(s)) != "jar"@ && lower_seq(trim(s)) != "war"@ && lower_seq(trim(s)) != "ear"@ && lower_seq(trim(s)) != "apk"@ && lower_seq(trim(s)) != "zipx"@ && lower_seq(trim(s)) != "7z"@ && lower_seq(trim(s)) != "7zip"@ && lower_seq(trim(s)) != "sevenzip"@ && lower_seq(trim(s)) != "rar"@ && lower_seq(trim(s)) != "iso"@ && lower_seq(trim(s)) != "tar"@ && lower_seq(trim(s)) != "gz"@ && lower_seq(trim(s)) != "gzip"@ && lower_seq(trim(s)) != "zst"@ && lower_seq(trim(s)) != "zstd"@ && lower_seq(trim(s)) != "lz4"@ && lower_seq(trim(s)) != "xz"@ && lower_seq(trim(s)) != "lzma"@ && lower_seq(trim(s)) != "bz2"@ && lower_seq(trim(s)) != "bzip2"@ && lower_seq(trim(s)) != "br"@ && lower_seq(trim(s)) != "brotli"@ && lower_seq(trim(s)) != "tgz"@ && lower_seq(trim(s)) != "tar.gz"@ && lower_seq(trim(s)) != "tzst"@ && lower_seq(trim(s)) != "tar.zst"@ && lower_seq(trim(s)) != "txz"@ && lower_seq(trim(s)) != "tar.xz"@ && lower_seq(trim(s)) != "tbz2"@ && lower_seq(trim(s)) != "tbz"@ && lower_seq(trim(s)) != "tar.bz2"@ && lower_seq(trim(s)) != "tar.lz4"@ && lower_seq(trim(s)) != "tar.br"@ {
        lemma_no_name(lower_seq(trim(s)), 0);
    }
}

/// No format name equals `x` from entry `i` on: nothing is named.
proof fn lemma_no_name(x: Seq<char>, i: int)
    requires
        0 <= i <= NAMES,
        forall|k: int| i <= k < NAMES ==> x != #[trigger] name_at(k).0,
    ensures
        name_match(x, i) is None,
    decreases NAMES - i,
{
    if i < NAMES {
        lemma_no_name(x, i + 1);
    }
}

} // verus!
