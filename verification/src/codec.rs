//! Compression codecs and the tunables shared by all of them.
//!
//! The encoders themselves wrap the caller's streams; what is decided here is
//! which codec a name or suffix means and which level and worker count each
//! encoder is driven with.
use vstd::prelude::*;

verus! {

/// A compression algorithm.
#[derive(Clone, Copy, Debug, PartialEq, Eq, Structural)]
pub enum Codec {
    /// No compression. Only meaningful as the codec behind a `.tar` container.
    Store,
    /// gzip / DEFLATE.
    Gzip,
    /// Zstandard.
    Zstd,
    /// LZ4 (frame format).
    Lz4,
    /// xz / LZMA.
    Xz,
    /// bzip2.
    Bzip2,
    /// Brotli.
    Brotli,
    /// The engine's own block-parallel rANS coder.
    Ans,
}

/// The canonical short name of each codec.
pub open spec fn codec_name(c: Codec) -> Seq<char> {
    match c {
        Codec::Store => "store"@,
        Codec::Gzip => "gzip"@,
        Codec::Zstd => "zstd"@,
        Codec::Lz4 => "lz4"@,
        Codec::Xz => "xz"@,
        Codec::Bzip2 => "bzip2"@,
        Codec::Brotli => "brotli"@,
        Codec::Ans => "ans"@,
    }
}

/// The file-name suffixes of a raw single stream in each codec.
pub open spec fn codec_extensions(c: Codec) -> Seq<Seq<char>> {
    match c {
        Codec::Store => Seq::empty(),
        Codec::Gzip => seq![".gz"@],
        Codec::Zstd => seq![".zst"@],
        Codec::Lz4 => seq![".lz4"@],
        Codec::Xz => seq![".xz"@],
        Codec::Bzip2 => seq![".bz2"@],
        Codec::Brotli => seq![".br"@],
        Codec::Ans => seq![".ans"@],
    }
}

/// `x` brought into `lo..=hi`.
pub open spec fn clamp(x: int, lo: int, hi: int) -> int {
    if x < lo {
        lo
    } else if x > hi {
        hi
    } else {
        x
    }
}

/// The level an encoder runs at for a requested `level` (`None`: the codec's
/// default), clamped to the codec's range; `None` for codecs without levels.
pub open spec fn level_for(c: Codec, level: Option<i32>) -> Option<int> {
    match c {
        Codec::Gzip => Some(clamp(level.unwrap_or(6) as int, 0, 9)),
        Codec::Zstd => Some(clamp(level.unwrap_or(3) as int, 1, 22)),
        Codec::Xz => Some(clamp(level.unwrap_or(6) as int, 0, 9)),
        Codec::Bzip2 => Some(clamp(level.unwrap_or(9) as int, 1, 9)),
        Codec::Brotli => Some(clamp(level.unwrap_or(6) as int, 0, 11)),
        _ => None,
    }
}

/// Tunables shared by every codec. Fields that a codec does not understand are
/// ignored, so callers never special-case the codec.
#[derive(Clone, Copy, Debug)]
pub struct CodecOptions {
    /// Compression level; `None` means the codec's default. It is clamped to
    /// each codec's valid range, so one `--level` flag works across all of them.
    pub level: Option<i32>,
    /// Worker threads for codecs that encode in parallel (Zstd); `0` means every
    /// available core.
    pub threads: u32,
}

impl Default for CodecOptions {
    fn default() -> (r: Self)
        ensures
            r.level is None,
            r.threads == 0,
    {
        CodecOptions { level: None, threads: 0 }
    }
}

impl CodecOptions {
    pub fn new(level: Option<i32>, threads: u32) -> (r: Self)
        ensures
            r.level == level,
            r.threads == threads,
    {
        CodecOptions { level, threads }
    }

    /// The Zstd worker count: the requested one, or every available core when
    /// none was requested.
    pub fn workers(&self, available: u32) -> (r: u32)
        ensures
            r == if self.threads == 0 { available } else { self.threads },
    {
        if self.threads == 0 {
            available
        } else {
            self.threads
        }
    }
}

/// `x` brought into `lo..=hi`.
fn clamp_i32(x: i32, lo: i32, hi: i32) -> (r: i32)
    requires
        lo <= hi,
    ensures
        r == clamp(x as int, lo as int, hi as int),
{
    if x < lo {
        lo
    } else if x > hi {
        hi
    } else {
        x
    }
}

impl Codec {
    /// Canonical short name, e.g. `"zstd"`.
    pub fn name(self) -> (r: &'static str)
        ensures
            r@ == codec_name(self),
    {
        match self {
            Codec::Store => "store",
            Codec::Gzip => "gzip",
            Codec::Zstd => "zstd",
            Codec::Lz4 => "lz4",
            Codec::Xz => "xz",
            Codec::Bzip2 => "bzip2",
            Codec::Brotli => "brotli",
            Codec::Ans => "ans",
        }
    }

    /// File-name suffixes that map to this codec for a raw single stream.
    pub fn extensions(self) -> (r: &'static [&'static str])
        ensures
            r@.len() == codec_extensions(self).len(),
            forall|i: int| 0 <= i < r@.len() ==> (#[trigger] r@[i])@ == codec_extensions(self)[i],
    {
        match self {
            Codec::Store => &[],
            Codec::Gzip => &[".gz"],
            Codec::Zstd => &[".zst"],
            Codec::Lz4 => &[".lz4"],
            Codec::Xz => &[".xz"],
            Codec::Bzip2 => &[".bz2"],
            Codec::Brotli => &[".br"],
            Codec::Ans => &[".ans"],
        }
    }

    /// The level this codec's encoder runs at for the requested `level`.
    pub fn level(self, level: Option<i32>) -> (r: Option<i32>)
        ensures
            match r {
                Some(x) => level_for(self, level) == Some(x as int),
                None => level_for(self, level) is None,
            },
    {
        match self {
            Codec::Gzip => Some(clamp_i32(level.unwrap_or(6), 0, 9)),
            Codec::Zstd => Some(clamp_i32(level.unwrap_or(3), 1, 22)),
            Codec::Xz => Some(clamp_i32(level.unwrap_or(6), 0, 9)),
            Codec::Bzip2 => Some(clamp_i32(level.unwrap_or(9), 1, 9)),
            Codec::Brotli => Some(clamp_i32(level.unwrap_or(6), 0, 11)),
            _ => None,
        }
    }
}

/// The level range each codec accepts, for those that take a level.
pub open spec fn level_bounds(c: Codec) -> Option<(int, int)> {
    match c {
        Codec::Gzip => Some((0, 9)),
        Codec::Zstd => Some((1, 22)),
        Codec::Xz => Some((0, 9)),
        Codec::Bzip2 => Some((1, 9)),
        Codec::Brotli => Some((0, 11)),
        _ => None,
    }
}

/// One `--level` works across every codec: whatever is asked, the encoder runs
/// inside the codec's range, a level already inside it is kept as asked, and
/// the default lies inside too.
pub proof fn lemma_levels_clamped(c: Codec, level: i32)
    ensures
        level_bounds(c) matches Some((lo, hi)) ==> {
            &&& level_for(c, Some(level)) matches Some(x) && lo <= x <= hi
            &&& lo <= level <= hi ==> level_for(c, Some(level)) == Some(level as int)
            &&& level_for(c, None) matches Some(d) && lo <= d <= hi
        },
{
}

} // verus!
