//! The curated set of archive formats offered for creation.
//!
//! Every kind produces a *container*, so it never trips over the "single stream
//! takes one file" rule. Each kind knows its engine [`Format`], the file
//! extension to suggest, its level range, and a one-line description.
use crate::codec::Codec;
use crate::format::{lemma_suffix_after_stem, suffix_at, format_by_suffix, Container, Format};
use vstd::prelude::*;
use vstd::string::StringExecFns;

verus! {

#[derive(Clone, Copy, PartialEq, Eq, Debug, Structural)]
pub enum ArchiveKind {
    Zstd,
    Lz4,
    Xz,
    Gzip,
    Bzip2,
    Brotli,
    Zip,
    TarStore,
}

/// The engine format of each kind.
pub open spec fn kind_format(k: ArchiveKind) -> Format {
    match k {
        ArchiveKind::Zstd => Format { container: Container::Tar, codec: Codec::Zstd },
        ArchiveKind::Lz4 => Format { container: Container::Tar, codec: Codec::Lz4 },
        ArchiveKind::Xz => Format { container: Container::Tar, codec: Codec::Xz },
        ArchiveKind::Gzip => Format { container: Container::Tar, codec: Codec::Gzip },
        ArchiveKind::Bzip2 => Format { container: Container::Tar, codec: Codec::Bzip2 },
        ArchiveKind::Brotli => Format { container: Container::Tar, codec: Codec::Brotli },
        ArchiveKind::Zip => Format { container: Container::Zip, codec: Codec::Store },
        ArchiveKind::TarStore => Format { container: Container::Tar, codec: Codec::Store },
    }
}

/// The extension suggested for each kind.
pub open spec fn kind_extension(k: ArchiveKind) -> Seq<char> {
    match k {
        ArchiveKind::Zstd => ".tar.zst"@,
        ArchiveKind::Lz4 => ".tar.lz4"@,
        ArchiveKind::Xz => ".tar.xz"@,
        ArchiveKind::Gzip => ".tar.gz"@,
        ArchiveKind::Bzip2 => ".tar.bz2"@,
        ArchiveKind::Brotli => ".tar.br"@,
        ArchiveKind::Zip => ".zip"@,
        ArchiveKind::TarStore => ".tar"@,
    }
}

/// `(min, max, default)` of each kind's level slider, if it has one.
pub open spec fn kind_levels(k: ArchiveKind) -> Option<(i32, i32, i32)> {
    match k {
        ArchiveKind::Zstd => Some((1i32, 22i32, 3i32)),
        ArchiveKind::Lz4 => None,
        ArchiveKind::Xz => Some((0i32, 9i32, 6i32)),
        ArchiveKind::Gzip => Some((0i32, 9i32, 6i32)),
        ArchiveKind::Bzip2 => Some((1i32, 9i32, 9i32)),
        ArchiveKind::Brotli => Some((0i32, 11i32, 6i32)),
        ArchiveKind::Zip => Some((0i32, 9i32, 6i32)),
        ArchiveKind::TarStore => None,
    }
}

/// The one-line description of each kind.
pub open spec fn kind_tagline(k: ArchiveKind) -> Seq<char> {
    match k {
        ArchiveKind::Zstd => "Balanced speed and ratio. Claims every core."@,
        ArchiveKind::Lz4 => "Raw velocity. The fastest blade."@,
        ArchiveKind::Xz => "Crushes hardest, moves slowest."@,
        ArchiveKind::Gzip => "The old, ubiquitous standard."@,
        ArchiveKind::Bzip2 => "Legacy weight."@,
        ArchiveKind::Brotli => "The web's chosen ratio."@,
        ArchiveKind::Zip => "Portable. Deflate per entry."@,
        ArchiveKind::TarStore => "Bundle only. No compression."@,
    }
}

/// The short name of each kind.
pub open spec fn kind_short(k: ArchiveKind) -> Seq<char> {
    match k {
        ArchiveKind::Zstd => "Zstandard"@,
        ArchiveKind::Lz4 => "LZ4"@,
        ArchiveKind::Xz => "XZ / LZMA"@,
        ArchiveKind::Gzip => "Gzip"@,
        ArchiveKind::Bzip2 => "Bzip2"@,
        ArchiveKind::Brotli => "Brotli"@,
        ArchiveKind::Zip => "ZIP"@,
        ArchiveKind::TarStore => "Tar (store)"@,
    }
}

impl ArchiveKind {
    /// Order shown in the chooser: fastest-balanced first, niche last.
    pub fn all() -> (r: [ArchiveKind; 8])
        ensures
            r@ == seq![
                ArchiveKind::Zstd,
                ArchiveKind::Lz4,
                ArchiveKind::Xz,
                ArchiveKind::Brotli,
                ArchiveKind::Gzip,
                ArchiveKind::Bzip2,
                ArchiveKind::Zip,
                ArchiveKind::TarStore,
            ],
    {
        let r = [
            ArchiveKind::Zstd,
            ArchiveKind::Lz4,
            ArchiveKind::Xz,
            ArchiveKind::Brotli,
            ArchiveKind::Gzip,
            ArchiveKind::Bzip2,
            ArchiveKind::Zip,
            ArchiveKind::TarStore,
        ];
        assert(r@ =~= seq![
            ArchiveKind::Zstd,
            ArchiveKind::Lz4,
            ArchiveKind::Xz,
            ArchiveKind::Brotli,
            ArchiveKind::Gzip,
            ArchiveKind::Bzip2,
            ArchiveKind::Zip,
            ArchiveKind::TarStore,
        ]);
        r
    }

    pub fn format(self) -> (r: Format)
        ensures
            r == kind_format(self),
    {
        match self {
            ArchiveKind::Zstd => Format::new(Container::Tar, Codec::Zstd),
            ArchiveKind::Lz4 => Format::new(Container::Tar, Codec::Lz4),
            ArchiveKind::Xz => Format::new(Container::Tar, Codec::Xz),
            ArchiveKind::Gzip => Format::new(Container::Tar, Codec::Gzip),
            ArchiveKind::Bzip2 => Format::new(Container::Tar, Codec::Bzip2),
            ArchiveKind::Brotli => Format::new(Container::Tar, Codec::Brotli),
            ArchiveKind::Zip => Format::new(Container::Zip, Codec::Store),
            ArchiveKind::TarStore => Format::new(Container::Tar, Codec::Store),
        }
    }

    /// Extension to append when suggesting an output name.
    pub fn extension(self) -> (r: &'static str)
        ensures
            r@ == kind_extension(self),
    {
        match self {
            ArchiveKind::Zstd => ".tar.zst",
            ArchiveKind::Lz4 => ".tar.lz4",
            ArchiveKind::Xz => ".tar.xz",
            ArchiveKind::Gzip => ".tar.gz",
            ArchiveKind::Bzip2 => ".tar.bz2",
            ArchiveKind::Brotli => ".tar.br",
            ArchiveKind::Zip => ".zip",
            ArchiveKind::TarStore => ".tar",
        }
    }

    /// `(min, max, default)` for the level slider, or `None` if level is ignored.
    pub fn level_range(self) -> (r: Option<(i32, i32, i32)>)
        ensures
            r == kind_levels(self),
    {
        match self {
            ArchiveKind::Zstd => Some((1i32, 22i32, 3i32)),
            ArchiveKind::Lz4 => None,
            ArchiveKind::Xz => Some((0i32, 9i32, 6i32)),
            ArchiveKind::Gzip => Some((0i32, 9i32, 6i32)),
            ArchiveKind::Bzip2 => Some((1i32, 9i32, 9i32)),
            ArchiveKind::Brotli => Some((0i32, 11i32, 6i32)),
            ArchiveKind::Zip => Some((0i32, 9i32, 6i32)),
            ArchiveKind::TarStore => None,
        }
    }

    /// Default level (used to reset the slider when the kind changes).
    pub fn default_level(self) -> (r: i32)
        ensures
            r == match kind_levels(self) {
                Some((_, _, d)) => d,
                None => 0,
            },
    {
        match self.level_range() {
            Some((_, _, d)) => d,
            None => 0,
        }
    }

    /// Whether this codec uses the worker-thread control.
    pub fn uses_threads(self) -> (r: bool)
        ensures
            r == (self == ArchiveKind::Zstd),
    {
        matches!(self, ArchiveKind::Zstd)
    }

    /// A short description shown beneath the chooser.
    pub fn tagline(self) -> (r: &'static str)
        ensures
            r@ == kind_tagline(self),
    {
        match self {
            ArchiveKind::Zstd => "Balanced speed and ratio. Claims every core.",
            ArchiveKind::Lz4 => "Raw velocity. The fastest blade.",
            ArchiveKind::Xz => "Crushes hardest, moves slowest.",
            ArchiveKind::Gzip => "The old, ubiquitous standard.",
            ArchiveKind::Bzip2 => "Legacy weight.",
            ArchiveKind::Brotli => "The web's chosen ratio.",
            ArchiveKind::Zip => "Portable. Deflate per entry.",
            ArchiveKind::TarStore => "Bundle only. No compression.",
        }
    }

    /// The kind's short name.
    pub fn short(self) -> (r: &'static str)
        ensures
            r@ == kind_short(self),
    {
        match self {
            ArchiveKind::Zstd => "Zstandard",
            ArchiveKind::Lz4 => "LZ4",
            ArchiveKind::Xz => "XZ / LZMA",
            ArchiveKind::Gzip => "Gzip",
            ArchiveKind::Bzip2 => "Bzip2",
            ArchiveKind::Brotli => "Brotli",
            ArchiveKind::Zip => "ZIP",
            ArchiveKind::TarStore => "Tar (store)",
        }
    }

    /// How the chooser shows the kind: its short name, then its extension.
    pub fn display_name(self) -> (r: String)
        ensures
            r@ == kind_short(self) + "   ("@ + kind_extension(self) + ")"@,
    {
        let mut s = String::from_str(self.short());
        s.append("   (");
        s.append(self.extension());
        s.append(")");
        s
    }
}

/// Every kind's default level lies inside its slider's range.
pub proof fn lemma_default_level_in_range(k: ArchiveKind)
    ensures
        kind_levels(k) matches Some((lo, hi, d)) ==> lo <= d <= hi,
{
}

/// The extension suggested for a kind is detected back as the kind's own
/// format, behind any stem without dots (such as `archive`), in any case.
pub proof fn lemma_extension_detected(k: ArchiveKind, stem: Seq<char>)
    requires
        !stem.contains('.'),
    ensures
        format_by_suffix(stem + kind_extension(k)) == Some(kind_format(k)),
{
    let j: int = match k {
        ArchiveKind::Zstd => 2,
        ArchiveKind::Lz4 => 9,
        ArchiveKind::Xz => 4,
        ArchiveKind::Gzip => 0,
        ArchiveKind::Bzip2 => 6,
        ArchiveKind::Brotli => 10,
        ArchiveKind::Zip => 14,
        ArchiveKind::TarStore => 12,
    };
    assert(suffix_at(j).0 == kind_extension(k));
    assert(suffix_at(j).1 == kind_format(k));
    lemma_suffix_after_stem(stem, j);
}

} // verus!
