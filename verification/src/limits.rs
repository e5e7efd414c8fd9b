//! Size ceilings that bound how much an extraction may read and produce.

use vstd::prelude::*;

verus! {

/// One gibibyte: the default ceiling on the raw input.
pub const DEFAULT_INPUT_FILE_SIZE: usize = 1073741824;

/// Eight mebibytes: the default ceiling on the decompressed text.
pub const DEFAULT_DECOMPRESSED_JSON_SIZE: usize = 8388608;

/// Two independent byte ceilings, passed by value into each extraction.
///
/// `input_file_size` bounds the bytes taken from the raw input,
/// `decompressed_json_size` bounds the bytes that inflation may produce.
#[derive(Copy, Clone, Eq, PartialEq, Hash, Debug)]
pub struct Limits {
    pub input_file_size: usize,
    pub decompressed_json_size: usize,
}

impl Limits {
    /// How many bytes a caller reads from its source before handing them over.
    pub open spec fn spec_read_budget(self) -> int {
        if self.input_file_size + 1 <= u64::MAX {
            self.input_file_size + 1
        } else {
            u64::MAX as int
        }
    }

    /// The number of bytes to request from a source: one more than the input
    /// ceiling, so that a source holding more than the ceiling is told apart
    /// from one that holds exactly as much. The sum saturates.
    pub fn read_budget(&self) -> (budget: u64)
        ensures
            budget == self.spec_read_budget(),
    {
        let size: u64 = self.input_file_size as u64;
        size.saturating_add(1)
    }
}

impl Default for Limits {
    fn default() -> (limits: Limits)
        ensures
            limits.input_file_size == DEFAULT_INPUT_FILE_SIZE,
            limits.decompressed_json_size == DEFAULT_DECOMPRESSED_JSON_SIZE,
    {
        Limits {
            input_file_size: DEFAULT_INPUT_FILE_SIZE,
            decompressed_json_size: DEFAULT_DECOMPRESSED_JSON_SIZE,
        }
    }
}

} // verus!
