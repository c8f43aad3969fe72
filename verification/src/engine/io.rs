//! Positional writes and disk space: sizes, limits and outcomes.

use crate::text;
use vstd::prelude::*;

verus! {

/// Default write buffer size (256 KiB, page-aligned)
pub const DEFAULT_WRITE_BUF: usize = 262144;

/// Channel capacity for write queue (bounds memory usage)
pub const WRITE_QUEUE_CAPACITY: usize = 64;

/// Size of a memory page.
pub const PAGE_SIZE: usize = 4096;

/// A write, with its bytes in view.
pub struct WriteView {
    pub offset: u64,
    pub data: Seq<u8>,
}

/// A write operation to be performed at a specific offset.
#[derive(Debug)]
pub struct WriteOp {
    pub offset: u64,
    pub data: Vec<u8>,
}

impl View for WriteOp {
    type V = WriteView;

    open spec fn view(&self) -> WriteView {
        WriteView { offset: self.offset, data: self.data@ }
    }
}

/// Align a buffer size to page boundaries for optimal I/O: the smallest multiple
/// of the page size that is not below `size`.
pub fn align_to_page(size: usize) -> (aligned: usize)
    requires
        size + PAGE_SIZE - 1 <= usize::MAX,
    ensures
        aligned % PAGE_SIZE == 0,
        size <= aligned < size + PAGE_SIZE,
{
    (size + (PAGE_SIZE - 1)) / PAGE_SIZE * PAGE_SIZE
}

/// How a positional write ended.
#[derive(Debug)]
pub enum WriteOutcome {
    Done,
    /// The system reported an error
    Failed,
    /// Fewer bytes than asked for were written
    Partial(String),
}

/// Judge what `pwrite64` returned for a buffer of `len` bytes: a negative number
/// is an error, and a smaller one than `len` a partial write.
pub fn check_pwrite(written: i64, len: usize) -> (outcome: WriteOutcome)
    ensures
        written < 0 ==> outcome is Failed,
        0 <= written < len ==> (outcome matches WriteOutcome::Partial(message) && message@
            == "pwrite64 wrote "@ + text::decimal(written as nat) + " of "@ + text::decimal(
            len as nat,
        ) + " bytes"@),
        written >= 0 && written >= len ==> outcome is Done,
{
    if written < 0 {
        return WriteOutcome::Failed;
    }
    let n: u64 = written as u64;
    if n < len as u64 {
        let mut message: String = "pwrite64 wrote ".to_string();
        let count: String = text::decimal_string(n);
        let asked: String = text::decimal_string(len as u64);
        message.append(count.as_str());
        message.append(" of ");
        message.append(asked.as_str());
        message.append(" bytes");
        WriteOutcome::Partial(message)
    } else {
        WriteOutcome::Done
    }
}

/// The space on a file system, in bytes, from its block counts: what is
/// available, and what there is in all.
pub fn check_disk_space(blocks_available: u64, blocks: u64, block_size: u64) -> (space: (u64, u64))
    requires
        blocks_available * block_size <= u64::MAX,
        blocks * block_size <= u64::MAX,
    ensures
        space.0 == blocks_available * block_size,
        space.1 == blocks * block_size,
{
    (blocks_available * block_size, blocks * block_size)
}

/// What is said when `required` bytes do not fit into `available`.
pub open spec fn space_error(available: u64, required: u64) -> Seq<char> {
    "Insufficient disk space: need "@ + text::decimal(required as nat) + " bytes, have "@
        + text::decimal(available as nat) + " bytes available"@
}

/// Pre-flight check: ensure enough disk space before starting download.
pub fn ensure_disk_space(available: u64, required: u64) -> (r: Result<(), String>)
    ensures
        r is Ok <==> required <= available,
        r matches Err(message) ==> message@ == space_error(available, required),
{
    if available < required {
        let mut message: String = "Insufficient disk space: need ".to_string();
        let need: String = text::decimal_string(required);
        let have: String = text::decimal_string(available);
        message.append(need.as_str());
        message.append(" bytes, have ");
        message.append(have.as_str());
        message.append(" bytes available");
        return Err(message);
    }
    Ok(())
}

// ─── Laws ────────────────────────────────────────────────────────────────────

/// Too little space is told with both numbers: what is needed, and what there is.
pub proof fn too_little_space_is_told(available: u64, required: u64)
    ensures
        space_error(available, required) == "Insufficient disk space: need "@ + text::decimal(
            required as nat,
        ) + " bytes, have "@ + text::decimal(available as nat) + " bytes available"@,
{
}

/// A write is seen whole: where it goes, and all its bytes.
pub proof fn writes_are_seen_whole(a: WriteOp, b: WriteOp)
    requires
        a@ == b@,
    ensures
        a.offset == b.offset,
        a.data@ == b.data@,
{
}

} // verus!
