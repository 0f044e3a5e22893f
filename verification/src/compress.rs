//! What a compression run is asked to do, checked before any byte moves.
use crate::format::{Container, Format};
use vstd::prelude::*;

verus! {

/// Outcome of a compression run, for reporting.
#[derive(Debug, Clone, Copy)]
pub struct Report {
    /// Total size of the inputs before compression.
    pub uncompressed: u64,
    /// Size of the produced archive.
    pub compressed: u64,
}

/// One input path as the caller found it on disk.
#[derive(Debug, Clone, Copy)]
pub struct InputState {
    pub exists: bool,
    pub is_dir: bool,
}

/// Why a compression run cannot start.
#[derive(Debug, Clone, Copy, PartialEq, Eq, Structural)]
pub enum InputError {
    /// No input paths were given.
    NoInputs,
    /// The input at this index does not exist.
    NotFound(usize),
    /// A single-stream format takes exactly one regular file.
    SingleStreamTakesOneFile,
    /// The format can be read but not created.
    ReadOnly,
}

/// The first missing input from index `i` on.
pub open spec fn first_missing(inputs: Seq<InputState>, i: int) -> Option<int>
    decreases inputs.len() - i,
{
    if i < 0 || i >= inputs.len() {
        None
    } else if !inputs[i].exists {
        Some(i)
    } else {
        first_missing(inputs, i + 1)
    }
}

/// Whether a compression run may start: inputs are given and all exist, a
/// single stream gets exactly one regular file, and the format is writable.
pub open spec fn check_spec(format: Format, inputs: Seq<InputState>) -> Result<(), InputError> {
    if inputs.len() == 0 {
        Err(InputError::NoInputs)
    } else if first_missing(inputs, 0) is Some {
        Err(InputError::NotFound(first_missing(inputs, 0)->0 as usize))
    } else if format.container == Container::Raw && (inputs.len() != 1 || inputs[0].is_dir) {
        Err(InputError::SingleStreamTakesOneFile)
    } else if !(format.container != Container::SevenZip && format.container != Container::Rar
        && format.container != Container::Iso) {
        Err(InputError::ReadOnly)
    } else {
        Ok(())
    }
}

/// Check the inputs of a compression run into `format`.
pub fn check_inputs(format: Format, inputs: &[InputState]) -> (r: Result<(), InputError>)
    ensures
        r == check_spec(format, inputs@),
{
    if inputs.len() == 0 {
        return Err(InputError::NoInputs);
    }
    let mut i: usize = 0;
    while i < inputs.len()
        invariant
            i <= inputs@.len(),
            first_missing(inputs@, 0) == first_missing(inputs@, i as int),
        decreases inputs@.len() - i,
    {
        if !inputs[i].exists {
            return Err(InputError::NotFound(i));
        }
        i += 1;
    }
    if format.container == Container::Raw && (inputs.len() != 1 || inputs[0].is_dir) {
        return Err(InputError::SingleStreamTakesOneFile);
    }
    if !format.container.writable() {
        return Err(InputError::ReadOnly);
    }
    Ok(())
}

/// With every input present from `i` on, nothing is missing there; the first
/// missing one is found where it is.
proof fn lemma_first_missing(inputs: Seq<InputState>, i: int, m: int)
    requires
        0 <= i <= inputs.len(),
        i <= m <= inputs.len(),
        forall|j: int| i <= j < m ==> (#[trigger] inputs[j]).exists,
        m < inputs.len() ==> !inputs[m].exists,
    ensures
        first_missing(inputs, i) == if m < inputs.len() {
            Some(m)
        } else {
            None::<int>
        },
    decreases m - i,
{
    if i < m {
        lemma_first_missing(inputs, i + 1, m);
    }
}

/// What a compression run accepts: some inputs, all present; then any mix and
/// number of files and folders for a tar, zip or `.abyss` bundle, but exactly
/// one regular file for a single stream; 7z, RAR and ISO are never written.
/// Without inputs the run is refused as such, and with a missing input the
/// first missing one is named.
pub proof fn lemma_inputs_checked(format: Format, inputs: Seq<InputState>)
    ensures
        inputs.len() == 0 ==> check_spec(format, inputs) == Err::<(), InputError>(InputError::NoInputs),
        forall|i: int|
            0 <= i < inputs.len() && !(#[trigger] inputs[i]).exists && (forall|j: int|
                0 <= j < i ==> inputs[j].exists) ==> check_spec(format, inputs) == Err::<(), InputError>(
                InputError::NotFound(i as usize),
            ),
        inputs.len() > 0 && (forall|j: int| 0 <= j < inputs.len() ==> (#[trigger] inputs[j]).exists)
            ==> check_spec(format, inputs) == match format.container {
            Container::Raw => if inputs.len() == 1 && !inputs[0].is_dir {
                Ok(())
            } else {
                Err(InputError::SingleStreamTakesOneFile)
            },
            Container::SevenZip | Container::Rar | Container::Iso => Err(InputError::ReadOnly),
            Container::Tar | Container::Zip | Container::Abyss => Ok(()),
        },
{
    assert forall|i: int|
        0 <= i < inputs.len() && !(#[trigger] inputs[i]).exists && (forall|j: int| 0 <= j < i ==> inputs[j].exists)
            implies check_spec(format, inputs) == Err::<(), InputError>(InputError::NotFound(i as usize)) by {
        lemma_first_missing(inputs, 0, i);
    }
    if inputs.len() > 0 && (forall|j: int| 0 <= j < inputs.len() ==> (#[trigger] inputs[j]).exists) {
        lemma_first_missing(inputs, 0, inputs.len() as int);
    }
}

} // verus!
