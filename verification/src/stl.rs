//! The binary STL layout: an 80-byte header that is skipped, a little-endian
//! 32-bit triangle count, then one 50-byte record per triangle holding
//! twelve little-endian 32-bit words (a normal and three vertices) and a
//! two-byte attribute count.  The parser keeps the nine vertex words of each
//! record as raw 32-bit values and ignores the normal and the attribute.

use vstd::prelude::*;

verus! {

/// Where a record's vertex words sit: record `i`, word `j` of nine.
pub open spec fn coord_offset(i: int, j: int) -> int {
    84 + 50 * i + 12 + 4 * j
}

/// The little-endian 32-bit value at byte offset `off`.
pub open spec fn le32(data: Seq<u8>, off: int) -> int
    recommends
        0 <= off,
        off + 4 <= data.len(),
{
    data[off] + 256 * (data[off + 1] + 256 * (data[off + 2] + 256 * data[off + 3]))
}

/// The triangle count a binary STL byte stream declares.
pub open spec fn stl_count(data: Seq<u8>) -> int
    recommends
        data.len() >= 84,
{
    le32(data, 80)
}

/// A byte stream is a complete binary STL file: it holds the header, the
/// count, and one full 50-byte record per declared triangle.
pub open spec fn stl_complete(data: Seq<u8>) -> bool {
    data.len() >= 84 && data.len() >= 84 + 50 * stl_count(data)
}

/// The parse error: the stream ended before the declared geometry did.
#[derive(Clone, Copy, Debug, PartialEq, Eq, Structural)]
pub enum StlError {
    UnexpectedEof,
}

/// A parsed binary STL file: the triangle count and the nine raw vertex
/// words of each triangle, in file order.
#[derive(Debug, PartialEq)]
pub struct StlFile {
    triangles: usize,
    data: Vec<u32>,
}

impl StlFile {
    /// How many triangles the file declares.
    ///
    /// Each triangle contributes nine raw 32-bit vertex words.
    pub fn triangles(&self) -> (n: usize)
        ensures
            n == self.spec_triangles(),
    {
        self.triangles
    }

    /// The declared triangle count.
    pub closed spec fn spec_triangles(&self) -> int {
        self.triangles as int
    }

    /// The raw vertex words.
    pub closed spec fn spec_data(&self) -> Seq<u32> {
        self.data@
    }

    /// Hands out the raw vertex words, nine per triangle.
    pub fn into_inner(self) -> (r: Vec<u32>)
        ensures
            r@ == self.spec_data(),
    {
        let StlFile { data, .. } = self;
        data
    }
}

/// Reads one little-endian 32-bit word.
fn read_le32(data: &[u8], off: usize) -> (r: u32)
    requires
        off + 4 <= data@.len(),
    ensures
        r as int == le32(data@, off as int),
{
    let b0 = data[off] as u64;
    let b1 = data[off + 1] as u64;
    let b2 = data[off + 2] as u64;
    let b3 = data[off + 3] as u64;
    (b0 + 256 * (b1 + 256 * (b2 + 256 * b3))) as u32
}

/// Parses a binary STL byte stream, as the format says: skip the header,
/// read the count, then take the nine vertex words of each record.  `Ok`
/// exactly when the stream holds all declared records; the words of the
/// result are the file's, in order.
pub fn parse_stl(data: &[u8]) -> (r: Result<StlFile, StlError>)
    ensures
        r is Ok <==> stl_complete(data@),
        r matches Ok(f) ==> {
            &&& f.spec_triangles() == stl_count(data@)
            &&& f.spec_data().len() == 9 * stl_count(data@)
            &&& forall|i: int, j: int|
                0 <= i < stl_count(data@) && 0 <= j < 9 ==> (#[trigger] f.spec_data()[9 * i + j]) as int
                    == le32(data@, coord_offset(i, j))
        },
        r matches Err(e) ==> e == StlError::UnexpectedEof,
{
    if data.len() < 84 {
        return Err(StlError::UnexpectedEof);
    }
    let n = read_le32(data, 80);
    let need: u64 = 84 + 50 * (n as u64);
    if (data.len() as u64) < need {
        return Err(StlError::UnexpectedEof);
    }
    let count = n as usize;
    let mut words: Vec<u32> = Vec::new();
    let mut i: usize = 0;
    while i < count
        invariant
            count == stl_count(data@),
            data@.len() >= 84 + 50 * count,
            data@.len() <= usize::MAX,
            0 <= i <= count,
            words@.len() == 9 * i,
            forall|p: int, j: int|
                0 <= p < i && 0 <= j < 9 ==> (#[trigger] words@[9 * p + j]) as int == le32(
                    data@,
                    coord_offset(p, j),
                ),
        decreases count - i,
    {
        proof {
            assert(50 * (i as int) + 50 <= 50 * (count as int)) by (nonlinear_arith)
                requires
                    i < count,
            {}
        }
        let base = 84 + 50 * i + 12;
        let mut j: usize = 0;
        while j < 9
            invariant
                count == stl_count(data@),
                data@.len() >= 84 + 50 * count,
                data@.len() <= usize::MAX,
                0 <= i < count,
                base == 84 + 50 * i + 12,
                50 * (i as int) + 50 <= 50 * (count as int),
                0 <= j <= 9,
                words@.len() == 9 * i + j,
                forall|p: int, q: int|
                    0 <= p < i && 0 <= q < 9 ==> (#[trigger] words@[9 * p + q]) as int == le32(
                        data@,
                        coord_offset(p, q),
                    ),
                forall|q: int|
                    0 <= q < j ==> (#[trigger] words@[9 * (i as int) + q]) as int == le32(
                        data@,
                        coord_offset(i as int, q),
                    ),
            decreases 9 - j,
        {
            let w = read_le32(data, base + 4 * j);
            words.push(w);
            j = j + 1;
        }
        i = i + 1;
    }
    proof {
        assert(9 * (count as int) <= 50 * (count as int)) by (nonlinear_arith);
    }
    Ok(StlFile { triangles: count, data: words })
}

} // verus!
