//! The input-strategy selector: standard input, a memory map of a regular
//! file, or buffered reads, and the decisions of the buffered read loop.

use vstd::prelude::*;

verus! {

/// Files smaller than this are read rather than mapped.
pub const MMAP_MIN_LEN: u64 = 16384;

/// The largest length that can be mapped safely (`isize::MAX`).
pub const MMAP_MAX_LEN: u64 = 9223372036854775807;

/// The buffer of the buffered strategy: 64 KiB per read.
pub const BUFFER_LEN: usize = 65536;

/// Where the bytes of an input come from, before the file is opened.
#[derive(Debug, Clone, Copy, PartialEq, Eq)]
pub enum InputSource {
    Stdin,
    File,
}

/// Why an input cannot be opened.
#[derive(Debug, Clone, Copy, PartialEq, Eq)]
pub enum InputError {
    StdinInKeyedMode,
}

/// Whether a path is the sentinel for standard input.
pub open spec fn is_stdin_path(path: Seq<char>) -> bool {
    path == seq!['-']
}

/// Picks the source of a path: `-` is standard input, which keyed mode
/// keeps for the key; anything else is a file.
pub fn select_source(path: &str, keyed: bool) -> (r: Result<InputSource, InputError>)
    ensures
        is_stdin_path(path@) && keyed ==> r == Err::<InputSource, InputError>(InputError::StdinInKeyedMode),
        is_stdin_path(path@) && !keyed ==> r == Ok::<InputSource, InputError>(InputSource::Stdin),
        !is_stdin_path(path@) ==> r == Ok::<InputSource, InputError>(InputSource::File),
{
    let dash = path.unicode_len() == 1 && path.get_char(0) == '-';
    assert(dash <==> path@ =~= seq!['-']);
    if dash {
        if keyed {
            Err(InputError::StdinInKeyedMode)
        } else {
            Ok(InputSource::Stdin)
        }
    } else {
        Ok(InputSource::File)
    }
}

/// Whether a file is mapped: mapping is on, it is a regular file, and its
/// size is nonzero, at least the threshold and at most the mappable limit.
pub open spec fn should_map(mmap_enabled: bool, is_file: bool, size: u64) -> bool {
    mmap_enabled && is_file && size <= MMAP_MAX_LEN && size != 0 && size >= MMAP_MIN_LEN
}

/// The length to map a file with, fixed now so that the file growing later
/// cannot widen the mapping; `None` where the file is read instead.
pub fn maybe_memmap_len(mmap_enabled: bool, is_file: bool, size: u64) -> (r: Option<usize>)
    ensures
        r is Some <==> should_map(mmap_enabled, is_file, size) && size <= usize::MAX,
        r matches Some(n) ==> n == size,
{
    if !mmap_enabled || !is_file || size > MMAP_MAX_LEN || size == 0 || size < MMAP_MIN_LEN {
        None
    } else if size > usize::MAX as u64 {
        None
    } else {
        Some(size as usize)
    }
}

/// What one read of the buffered strategy came back with.
#[derive(Debug, Clone, Copy, PartialEq, Eq)]
pub enum ReadOutcome {
    Data(usize),
    EndOfInput,
    Interrupted,
    Failed,
}

/// What the buffered read loop does next.
#[derive(Debug, Clone, Copy, PartialEq, Eq)]
pub enum CopyAction {
    /// Hash the first `n` bytes of the buffer, and read again.
    Feed { n: usize, total: u64 },
    /// Read again: an interrupted read is no error.
    Retry,
    /// The input is done; `total` bytes were hashed.
    Finish { total: u64 },
    /// The read failed.
    Fail,
}

/// The decision of the buffered read loop after one read, `total` bytes in.
pub fn copy_step(total: u64, outcome: ReadOutcome) -> (r: CopyAction)
    requires
        outcome matches ReadOutcome::Data(n) ==> n <= BUFFER_LEN && total + n <= u64::MAX,
    ensures
        match outcome {
            ReadOutcome::Data(n) => if n == 0 {
                r == CopyAction::Finish { total }
            } else {
                r == CopyAction::Feed { n, total: (total + n) as u64 }
            },
            ReadOutcome::EndOfInput => r == CopyAction::Finish { total },
            ReadOutcome::Interrupted => r == CopyAction::Retry,
            ReadOutcome::Failed => r == CopyAction::Fail,
        },
{
    match outcome {
        ReadOutcome::Data(n) => {
            if n == 0 {
                CopyAction::Finish { total }
            } else {
                CopyAction::Feed { n, total: total + n as u64 }
            }
        },
        ReadOutcome::EndOfInput => CopyAction::Finish { total },
        ReadOutcome::Interrupted => CopyAction::Retry,
        ReadOutcome::Failed => CopyAction::Fail,
    }
}

} // verus!
