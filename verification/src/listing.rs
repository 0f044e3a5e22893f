//! Inspect an archive's contents without extracting it.
use crate::codec::{codec_extensions, Codec};
use crate::format::{Container, Format};
use crate::paths::{file_name_of, file_stem_of, path_file_name, path_file_stem};
use crate::text::ends_with;
use vstd::prelude::*;
use vstd::string::{StrSliceExecFns, StringExecFns};

verus! {

/// One logical member of an archive.
#[derive(Debug, Clone)]
pub struct Entry {
    /// Path of the entry inside the archive.
    pub name: String,
    /// Uncompressed size in bytes. `None` when it cannot be known without
    /// decompressing (single raw streams).
    pub size: Option<u64>,
    /// Whether the entry is a directory.
    pub is_dir: bool,
}

/// Result of inspecting an archive.
#[derive(Debug, Clone)]
pub struct Listing {
    /// Detected/forced format of the archive.
    pub format: Format,
    /// Members of the archive.
    pub entries: Vec<Entry>,
    /// True for single-stream formats, where there is exactly one (sizeless) member.
    pub single_stream: bool,
}

/// The first of `exts` from index `i` on that `name` ends with and that leaves
/// something when stripped: the name without it.
pub open spec fn strip_first(name: Seq<char>, exts: Seq<Seq<char>>, i: int) -> Option<Seq<char>>
    decreases exts.len() - i,
{
    if i < 0 || i >= exts.len() {
        None
    } else if ends_with(name, exts[i]) && name.len() > exts[i].len() {
        Some(name.subrange(0, name.len() - exts[i].len()))
    } else {
        strip_first(name, exts, i + 1)
    }
}

/// The name a raw stream decompresses to: its file name without the codec's
/// suffix, else its file stem, else `output`.
pub open spec fn raw_output(src: Seq<char>, codec: Codec) -> Seq<char> {
    let stripped = match path_file_name(src) {
        Some(name) => strip_first(name, codec_extensions(codec), 0),
        None => None,
    };
    match stripped {
        Some(n) => n,
        None => match path_file_stem(src) {
            Some(stem) => stem,
            None => "output"@,
        },
    }
}

/// Strip `suffix` from the end of `name` when it is there and leaves something.
fn strip_suffix_nonempty(name: &str, suffix: &str) -> (r: Option<String>)
    ensures
        match r {
            Some(s) => ends_with(name@, suffix@) && name@.len() > suffix@.len() && s@ == name@.subrange(
                0,
                name@.len() - suffix@.len(),
            ),
            None => !(ends_with(name@, suffix@) && name@.len() > suffix@.len()),
        },
{
    let n = name.unicode_len();
    let k = suffix.unicode_len();
    if k >= n {
        return None;
    }
    let off = n - k;
    let mut j: usize = 0;
    while j < k
        invariant
            j <= k,
            off + k == n,
            n == name@.len(),
            k == suffix@.len(),
            forall|i: int| 0 <= i < j ==> name@[off + i] == suffix@[i],
        decreases k - j,
    {
        if name.get_char(off + j) != suffix.get_char(j) {
            assert(name@.subrange(off as int, n as int)[j as int] != suffix@[j as int]);
            return None;
        }
        j += 1;
    }
    assert(name@.subrange(off as int, n as int) =~= suffix@);
    Some(String::from_str(name.substring_char(0, off)))
}

/// Derive the decompressed file name for a raw stream by stripping the codec's
/// suffix (`archive.txt.zst` -> `archive.txt`).
pub fn raw_output_name(src: &str, codec: Codec) -> (r: String)
    ensures
        r@ == raw_output(src@, codec),
{
    if let Some(name) = file_name_of(src) {
        let exts = codec.extensions();
        let mut i: usize = 0;
        while i < exts.len()
            invariant
                i <= exts@.len(),
                exts@.len() == codec_extensions(codec).len(),
                forall|j: int| 0 <= j < exts@.len() ==> (#[trigger] exts@[j])@ == codec_extensions(codec)[j],
                path_file_name(src@) == Some(name@),
                strip_first(name@, codec_extensions(codec), 0) == strip_first(
                    name@,
                    codec_extensions(codec),
                    i as int,
                ),
            decreases exts@.len() - i,
        {
            if let Some(stripped) = strip_suffix_nonempty(name.as_str(), exts[i]) {
                return stripped;
            }
            i += 1;
        }
    }
    match file_stem_of(src) {
        Some(stem) => stem,
        None => String::from_str("output"),
    }
}

/// Assemble the listing of `src` as `format`. A raw single stream has exactly
/// one sizeless member, named by [`raw_output_name`]; any other container lists
/// `members`, its table of contents as read by the caller.
pub fn list(src: &str, format: Format, members: Vec<Entry>) -> (r: Listing)
    ensures
        r.format == format,
        r.single_stream == (format.container == Container::Raw),
        format.container == Container::Raw ==> {
            &&& r.entries@.len() == 1
            &&& r.entries@[0].name@ == raw_output(src@, format.codec)
            &&& r.entries@[0].size is None
            &&& !r.entries@[0].is_dir
        },
        format.container != Container::Raw ==> r.entries@ == members@,
{
    match format.container {
        Container::Raw => {
            let entry = Entry { name: raw_output_name(src, format.codec), size: None, is_dir: false };
            let entries = vec![entry];
            Listing { format, entries, single_stream: true }
        },
        _ => Listing { format, entries: members, single_stream: false },
    }
}

} // verus!
