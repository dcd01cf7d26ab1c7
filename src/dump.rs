//! Bounds rules for reading a region out of a flat memory image.
use vstd::prelude::*;

verus! {

/// Why a region could not be read from the image.
#[derive(Debug, Clone, Copy, PartialEq, Eq, Structural)]
pub enum ReadError {
    /// The requested bytes do not all lie inside the image.
    OutOfBounds,
    /// The image could not be opened, sized, positioned or read.
    IoError,
}

/// The whole span `offset .. offset + length` lies inside an image of
/// `size` bytes, and `offset` is a byte of it.
pub open spec fn in_bounds(size: nat, offset: u64, length: usize) -> bool {
    offset < size && offset + length <= size
}

/// Decides whether `length` bytes at `offset` can be read from an image of
/// `file_size` bytes.
pub fn check_bounds(file_size: u64, offset: u64, length: usize) -> (r: Result<(), ReadError>)
    ensures
        r is Ok <==> in_bounds(file_size as nat, offset, length),
        r is Err ==> r == Err::<(), ReadError>(ReadError::OutOfBounds),
{
    if offset >= file_size {
        return Err(ReadError::OutOfBounds);
    }
    if length as u64 > file_size - offset {
        return Err(ReadError::OutOfBounds);
    }
    Ok(())
}

/// Reads `length` bytes at `offset` from an image held in memory.
pub fn read_region(image: &Vec<u8>, offset: u64, length: usize) -> (r: Result<Vec<u8>, ReadError>)
    ensures
        r is Ok <==> in_bounds(image@.len(), offset, length),
        r is Ok ==> r->Ok_0@ == image@.subrange(offset as int, offset + length),
        r is Err ==> r->Err_0 == ReadError::OutOfBounds,
{
    let size = image.len();
    if offset >= size as u64 {
        return Err(ReadError::OutOfBounds);
    }
    let start = offset as usize;
    if length > size - start {
        return Err(ReadError::OutOfBounds);
    }
    let mut out: Vec<u8> = Vec::with_capacity(length);
    let mut i: usize = 0;
    while i < length
        invariant
            i <= length,
            start + length <= size,
            size == image@.len(),
            start == offset,
            out@ == image@.subrange(start as int, start + i),
        decreases length - i,
    {
        out.push(image[start + i]);
        i = i + 1;
        assert(out@ =~= image@.subrange(start as int, start + i));
    }
    Ok(out)
}

} // verus!
