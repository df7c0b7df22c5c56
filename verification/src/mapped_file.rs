use vstd::prelude::*;

verus! {

/// The part of a file that a shared mapping shows: the file's handle, where the part
/// starts in the file and how many bytes it holds.
pub struct MappedFile<F> {
    pub file: F,
    pub offset: isize,
    pub len: usize,
}

impl<F> MappedFile<F> {
    pub fn new(file: F, offset: isize, len: usize) -> (m: MappedFile<F>)
        ensures
            m.file == file,
            m.offset == offset,
            m.len == len,
    {
        MappedFile { file, offset, len }
    }
}

} // verus!
