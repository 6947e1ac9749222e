//! Byte-granular writes on files that accept only block-aligned transfers.
//!
//! A write of `data` at `pos` becomes a write of one aligned buffer that
//! starts at the block boundary below `pos`. The bytes between the boundary
//! and `pos` are read back first and written again unchanged.

use vstd::prelude::*;

use crate::error::WriteError;

verus! {

/// Room left after the data in every buffer, before rounding up to a block.
pub const SLACK: usize = 8;

/// The largest multiple of `alignment` that is at most `v`.
pub open spec fn align_down(v: int, alignment: int) -> int {
    v - v % alignment
}

/// The smallest multiple of `alignment` that is at least `v`.
pub open spec fn align_up(v: int, alignment: int) -> int {
    align_down(v + alignment - 1, alignment)
}

/// The contents of a file after `buf` has been written at `pos`.
pub open spec fn write_at(file: Seq<u8>, pos: int, buf: Seq<u8>) -> Seq<u8>
    recommends
        0 <= pos <= file.len(),
{
    if pos + buf.len() >= file.len() {
        file.take(pos) + buf
    } else {
        file.take(pos) + buf + file.skip(pos + buf.len())
    }
}

/// How a byte-granular write is carried out on an aligned file.
#[derive(Debug, Clone, Copy, PartialEq, Eq)]
pub struct AlignedWrite {
    /// Where the buffer is written: the block boundary at or below the target position.
    pub position: u64,
    /// How many bytes from `position` on must be read and written back in
    /// front of the data.
    pub keep: usize,
    /// The size of the buffer to allocate and write, a whole number of blocks.
    pub buffer_len: usize,
}

/// Rounds `v` down to a multiple of `alignment`.
pub fn round_down(v: u64, alignment: u64) -> (res: u64)
    requires
        alignment > 0,
    ensures
        res == align_down(v as int, alignment as int),
        res <= v < res + alignment,
        res % alignment == 0,
{
    let rest: u64 = v % alignment;
    proof {
        lemma_align_down(v as int, alignment as int);
    }
    v - rest
}

/// Rounds `v` up to a multiple of `alignment`.
pub fn round_up(v: u64, alignment: u64) -> (res: u64)
    requires
        alignment > 0,
        v + alignment - 1 <= u64::MAX,
    ensures
        res == align_up(v as int, alignment as int),
        v <= res < v + alignment,
        res % alignment == 0,
{
    round_down(v + (alignment - 1), alignment)
}

/// Plans the write of `len` bytes at `pos` on a file with the given block size.
///
/// The buffer holds the kept bytes, the data and `SLACK` more bytes, rounded
/// up to whole blocks.
pub fn read_write_at(pos: u64, len: usize, alignment: u64) -> (plan: AlignedWrite)
    requires
        alignment > 0,
        len + SLACK + 2 * alignment <= usize::MAX,
    ensures
        plan.position == align_down(pos as int, alignment as int),
        plan.position + plan.keep == pos,
        plan.buffer_len == align_up(plan.keep + len + SLACK, alignment as int),
{
    let position: u64 = round_down(pos, alignment);
    let keep: u64 = pos - position;
    let need: u64 = keep + len as u64 + SLACK as u64;
    let buffer_len: u64 = round_up(need, alignment);
    AlignedWrite { position, keep: keep as usize, buffer_len: buffer_len as usize }
}

impl AlignedWrite {
    /// Puts the kept bytes and the data together, as they go into the buffer
    /// from its start. Fails if the read did not return exactly the bytes to keep.
    pub fn assemble(&self, existing: &[u8], data: &[u8]) -> (res: Result<Vec<u8>, WriteError>)
        ensures
            match res {
                Ok(bytes) => existing@.len() == self.keep && bytes@ == existing@ + data@,
                Err(WriteError::Io) => existing@.len() != self.keep,
                Err(_) => false,
            },
    {
        if existing.len() != self.keep {
            return Err(WriteError::Io);
        }
        let mut bytes: Vec<u8> = Vec::new();
        let mut i: usize = 0;
        while i < existing.len()
            invariant
                i <= existing@.len(),
                bytes@ == existing@.take(i as int),
            decreases existing@.len() - i,
        {
            bytes.push(existing[i]);
            proof {
                assert(existing@.take(i as int).push(existing@[i as int]) =~= existing@.take(
                    i + 1,
                ));
            }
            i += 1;
        }
        assert(existing@.take(existing@.len() as int) =~= existing@);
        let mut j: usize = 0;
        while j < data.len()
            invariant
                j <= data@.len(),
                bytes@ == existing@ + data@.take(j as int),
            decreases data@.len() - j,
        {
            bytes.push(data[j]);
            proof {
                assert((existing@ + data@.take(j as int)).push(data@[j as int]) =~= existing@
                    + data@.take(j + 1));
            }
            j += 1;
        }
        assert(data@.take(data@.len() as int) =~= data@);
        Ok(bytes)
    }
}

/// Rounding down yields the one multiple of the alignment in reach below.
pub proof fn lemma_align_down(v: int, alignment: int)
    requires
        v >= 0,
        alignment > 0,
    ensures
        align_down(v, alignment) % alignment == 0,
        align_down(v, alignment) <= v < align_down(v, alignment) + alignment,
        align_down(v, alignment) >= 0,
{
    vstd::arithmetic::div_mod::lemma_fundamental_div_mod(v, alignment);
    vstd::arithmetic::div_mod::lemma_mod_bound(v, alignment);
    let q = v / alignment;
    assert(align_down(v, alignment) == alignment * q);
    vstd::arithmetic::div_mod::lemma_mod_multiples_basic(q, alignment);
    assert(alignment * q == q * alignment) by (nonlinear_arith);
    assert(alignment * q >= 0) by (nonlinear_arith)
        requires
            alignment > 0,
            q >= 0,
    ;
    vstd::arithmetic::div_mod::lemma_div_pos_is_pos(v, alignment);
}

/// Rounding up yields the one multiple of the alignment in reach above.
pub proof fn lemma_align_up(v: int, alignment: int)
    requires
        v >= 0,
        alignment > 0,
    ensures
        align_up(v, alignment) % alignment == 0,
        v <= align_up(v, alignment) < v + alignment,
{
    lemma_align_down(v + alignment - 1, alignment);
}

/// An aligned write leaves the file as a write of the data alone would, up to
/// the end of the data: what lies before the target position stays, and the
/// data follows. This holds whatever the buffer carries after the data.
pub proof fn lemma_aligned_write(
    file: Seq<u8>,
    pos: int,
    alignment: int,
    data: Seq<u8>,
    tail: Seq<u8>,
)
    requires
        0 <= pos <= file.len(),
        alignment > 0,
    ensures
        ({
            let position = align_down(pos, alignment);
            let existing = file.subrange(position, pos);
            let after = write_at(file, position, existing + data + tail);
            &&& after.len() >= pos + data.len()
            &&& after.take(pos) == file.take(pos)
            &&& after.subrange(pos, pos + data.len()) == data
            &&& after.take(pos + data.len()) == write_at(file, pos, data).take(pos + data.len())
        }),
{
    lemma_align_down(pos, alignment);
    let position = align_down(pos, alignment);
    let existing = file.subrange(position, pos);
    let buf = existing + data + tail;
    let after = write_at(file, position, buf);
    assert(after.take(pos) =~= file.take(pos));
    assert(after.subrange(pos, pos + data.len()) =~= data);
    assert(after.take(pos + data.len()) =~= write_at(file, pos, data).take(pos + data.len()));
}

} // verus!
