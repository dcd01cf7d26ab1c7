//! Turning located stack tokens into reads of the memory image.
use vstd::prelude::*;
use crate::dump::{in_bounds, read_region, ReadError};
use crate::locator::StackEntry;
use crate::region::{page_aligned, parse_range, range_of, RangeError};

verus! {

/// Where in the image a region's bytes are read, and how many.
#[derive(Debug, Clone, Copy, PartialEq, Eq, Structural)]
pub struct ReadRequest {
    pub offset: u64,
    pub length: usize,
}

/// Why one process's stack could not be extracted.
#[derive(Debug, Clone, Copy, PartialEq, Eq, Structural)]
pub enum ExtractError {
    Range(RangeError),
    Read(ReadError),
}

/// The bytes read for one stack, with the aligned offset they came from.
#[derive(Debug)]
pub struct Extracted {
    pub offset: u64,
    pub bytes: Vec<u8>,
}

/// What was obtained for one process.
#[derive(Debug)]
pub struct Extraction {
    pub pid: String,
    pub token: String,
    pub outcome: Result<Extracted, ExtractError>,
}

/// The read that a stack token asks for: the page-aligned start of its
/// region, and the region's length.
pub open spec fn request_of(token: Seq<char>) -> Result<ReadRequest, RangeError> {
    match range_of(token) {
        Err(e) => Err(e),
        Ok(r) => if r.end - r.start <= usize::MAX {
            Ok(ReadRequest { offset: page_aligned(r.start), length: (r.end - r.start) as usize })
        } else {
            Err(RangeError::LengthTooLarge)
        },
    }
}

/// Parses a stack token and works out the read it asks for.
pub fn plan_read(token: &str) -> (r: Result<ReadRequest, RangeError>)
    ensures
        r == request_of(token@),
{
    let region = parse_range(token)?;
    let length = region.length();
    if length > usize::MAX as u64 {
        return Err(RangeError::LengthTooLarge);
    }
    Ok(ReadRequest { offset: region.aligned_offset(), length: length as usize })
}

/// `o` is what extracting the stack named by `token` from `image` yields.
pub open spec fn extracted_as(o: Result<Extracted, ExtractError>, token: Seq<char>, image: Seq<u8>) -> bool {
    match request_of(token) {
        Err(e) => o == Err::<Extracted, ExtractError>(ExtractError::Range(e)),
        Ok(q) => if in_bounds(image.len(), q.offset, q.length) {
            &&& o is Ok
            &&& o->Ok_0.offset == q.offset
            &&& o->Ok_0.bytes@ == image.subrange(q.offset as int, q.offset + q.length)
        } else {
            o == Err::<Extracted, ExtractError>(ExtractError::Read(ReadError::OutOfBounds))
        },
    }
}

/// Extracts one process's stack bytes from an image held in memory.
pub fn extract_one(entry: &StackEntry, image: &Vec<u8>) -> (r: Extraction)
    ensures
        r.pid@ == entry.pid@,
        r.token@ == entry.token@,
        extracted_as(r.outcome, entry.token@, image@),
{
    let outcome = match plan_read(entry.token.as_str()) {
        Err(e) => Err(ExtractError::Range(e)),
        Ok(q) => match read_region(image, q.offset, q.length) {
            Ok(bytes) => Ok(Extracted { offset: q.offset, bytes }),
            Err(e) => Err(ExtractError::Read(e)),
        },
    };
    Extraction { pid: entry.pid.clone(), token: entry.token.clone(), outcome }
}

/// Extracts every located stack, one result per entry in the entries'
/// order; a failure for one process does not stop the others.
pub fn extract_all(entries: &Vec<StackEntry>, image: &Vec<u8>) -> (r: Vec<Extraction>)
    ensures
        r@.len() == entries@.len(),
        forall|k: int|
            0 <= k < r@.len() ==> {
                &&& (#[trigger] r@[k]).pid@ == entries@[k].pid@
                &&& r@[k].token@ == entries@[k].token@
                &&& extracted_as(r@[k].outcome, entries@[k].token@, image@)
            },
{
    let mut out: Vec<Extraction> = Vec::new();
    let mut i: usize = 0;
    while i < entries.len()
        invariant
            i <= entries@.len(),
            out@.len() == i,
            forall|k: int|
                0 <= k < i ==> {
                    &&& (#[trigger] out@[k]).pid@ == entries@[k].pid@
                    &&& out@[k].token@ == entries@[k].token@
                    &&& extracted_as(out@[k].outcome, entries@[k].token@, image@)
                },
        decreases entries@.len() - i,
    {
        let x = extract_one(&entries[i], image);
        out.push(x);
        i = i + 1;
    }
    out
}

} // verus!
