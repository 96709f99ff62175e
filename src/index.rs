//! The on-disk index format: one 6-byte entry per record, a big-endian
//! `u32` file number followed by a big-endian `u16` end offset.
use vstd::prelude::*;

verus! {

/// Width of one index entry in bytes.
pub const INDEX_ENTRY_SIZE: u64 = 6;

/// The big-endian `u32` stored at `s[k..k + 4]`.
pub open spec fn be32_at(s: Seq<u8>, k: int) -> int {
    s[k] * 16777216 + s[k + 1] * 65536 + s[k + 2] * 256 + s[k + 3]
}

/// The big-endian `u16` stored at `s[k..k + 2]`.
pub open spec fn be16_at(s: Seq<u8>, k: int) -> int {
    s[k] * 256 + s[k + 1]
}

/// File number held by entry `i` of the index bytes `idx`.
pub open spec fn entry_file(idx: Seq<u8>, i: int) -> int {
    be32_at(idx, 6 * i)
}

/// End offset held by entry `i` of the index bytes `idx`.
pub open spec fn entry_end(idx: Seq<u8>, i: int) -> int {
    be16_at(idx, 6 * i + 4)
}

/// The six bytes that encode the entry `(file, end)`.
pub open spec fn entry_bytes(file: u32, end: u16) -> Seq<u8> {
    seq![
        (file / 16777216) as u8,
        ((file / 65536) % 256) as u8,
        ((file / 256) % 256) as u8,
        (file % 256) as u8,
        (end / 256) as u8,
        (end % 256) as u8,
    ]
}

/// One decoded index entry: record ends at byte `offset` of data file `file_id`.
#[derive(Clone, Copy, Debug, PartialEq, Eq, Structural)]
pub struct IndexEntry {
    pub file_id: u32,
    pub offset: u16,
}

/// Encoding an entry and reading it back gives the same file number and offset.
pub proof fn lemma_entry_bytes_decode(file: u32, end: u16)
    ensures
        entry_bytes(file, end).len() == 6,
        be32_at(entry_bytes(file, end), 0) == file,
        be16_at(entry_bytes(file, end), 4) == end,
{
    let b = entry_bytes(file, end);
    let f = file as int;
    let e = end as int;
    assert(f == (f / 16777216) * 16777216 + ((f / 65536) % 256) * 65536 + ((f / 256) % 256) * 256
        + f % 256) by (nonlinear_arith)
        requires 0 <= f < 4294967296;
    assert(e == (e / 256) * 256 + e % 256) by (nonlinear_arith)
        requires 0 <= e < 65536;
}

impl IndexEntry {
    /// Appends the six bytes of this entry to `out`.
    pub fn write_to(&self, out: &mut Vec<u8>)
        ensures
            final(out)@ == old(out)@ + entry_bytes(self.file_id, self.offset),
    {
        let f = self.file_id;
        let e = self.offset;
        out.push((f / 16777216) as u8);
        out.push(((f / 65536) % 256) as u8);
        out.push(((f / 256) % 256) as u8);
        out.push((f % 256) as u8);
        out.push((e / 256) as u8);
        out.push((e % 256) as u8);
        assert(final(out)@ =~= old(out)@ + entry_bytes(self.file_id, self.offset));
    }

    /// Reads entry `i` from the index bytes `idx`.
    pub fn read_at(idx: &Vec<u8>, i: usize) -> (r: IndexEntry)
        requires
            6 * i + 6 <= idx@.len(),
        ensures
            r.file_id == entry_file(idx@, i as int),
            r.offset == entry_end(idx@, i as int),
    {
        let n = idx.len();
        assert(6 * i + 6 <= n);
        let k: usize = 6 * i;
        let (b0, b1, b2, b3) = (idx[k], idx[k + 1], idx[k + 2], idx[k + 3]);
        let file_id = (b0 as u32) * 16777216 + (b1 as u32) * 65536 + (b2 as u32) * 256 + (b3 as u32);
        let (b4, b5) = (idx[k + 4], idx[k + 5]);
        let offset = (b4 as u16) * 256 + (b5 as u16);
        IndexEntry { file_id, offset }
    }
}

} // verus!
