//! Block arithmetic and the clock model.
//!
//! Files travel in blocks of [`BLOCK_SIZE`] bytes. Times are nanoseconds on the
//! node's monotonic clock, counted from the node's start; a time may lie before
//! the start (negative), as the defaults for long-unseen peers do.

use vstd::prelude::*;

verus! {

/// The size of a block, in bytes.
pub const BLOCK_SIZE: usize = 0x1000;

/// One second, in nanoseconds.
pub const SECOND: u64 = 1_000_000_000;

/// The number of blocks of a file of `eof` bytes: `eof / BLOCK_SIZE` rounded up.
pub open spec fn blocks_for(eof: nat) -> nat {
    ((eof + 4095) / 4096) as nat
}

/// Whether block `block` starts at or past the end of a file of `eof` bytes.
pub open spec fn past_end(block: nat, eof: nat) -> bool {
    block * 4096 >= eof
}

/// The time between `then` and `now`, or zero when `then` is not before `now`.
pub open spec fn elapsed(now: int, then: int) -> nat {
    if now > then {
        (now - then) as nat
    } else {
        0
    }
}

/// A block starts past the end exactly when its number reaches the block count.
pub proof fn lemma_past_end(block: nat, eof: nat)
    ensures
        past_end(block, eof) <==> block >= blocks_for(eof),
        blocks_for(eof) * 4096 >= eof,
        blocks_for(eof) <= eof / 4096 + 1,
{
    assert(blocks_for(eof) * 4096 >= eof) by (nonlinear_arith)
        requires blocks_for(eof) == (eof + 4095) / 4096;
    assert(blocks_for(eof) <= eof / 4096 + 1) by (nonlinear_arith)
        requires blocks_for(eof) == (eof + 4095) / 4096;
    if block >= blocks_for(eof) {
        assert(block * 4096 >= blocks_for(eof) * 4096) by (nonlinear_arith)
            requires block >= blocks_for(eof);
    } else {
        assert(block * 4096 < eof) by (nonlinear_arith)
            requires block < blocks_for(eof), blocks_for(eof) == (eof + 4095) / 4096;
    }
}

/// The number of blocks of a file of `eof` bytes.
pub fn block_count(eof: usize) -> (n: usize)
    ensures
        n == blocks_for(eof as nat),
        n <= usize::MAX / 4096 + 1,
{
    proof {
        lemma_past_end(0, eof as nat);
    }
    let whole = eof / 4096;
    if eof % 4096 == 0 {
        whole
    } else {
        whole + 1
    }
}

/// Whether block `block` starts at or past the end of a file of `eof` bytes.
pub fn is_past_end(block: usize, eof: usize) -> (past: bool)
    ensures
        past == past_end(block as nat, eof as nat),
{
    proof {
        lemma_past_end(block as nat, eof as nat);
    }
    block >= block_count(eof)
}

/// The nanoseconds from `then` to `now`, or zero when `then` is not before `now`.
pub fn elapsed_since(now: i64, then: i64) -> (e: u64)
    ensures
        e == elapsed(now as int, then as int),
{
    if now > then {
        let d: i128 = now as i128 - then as i128;
        d as u64
    } else {
        0
    }
}

} // verus!
