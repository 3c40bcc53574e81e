//! How acknowledgements, losses and timeouts move the congestion window of an aggregate.

use vstd::prelude::*;

verus! {

/// The payload bytes of one packet.
pub const PACKET_BYTES: u32 = 1448;

/// The window after slow start has taken what it can of `acked` bytes: it grows byte by
/// byte up to the threshold, and a window at or above the threshold is left alone.
pub open spec fn after_slow_start(cwnd: u32, ss_thresh: u32, acked: u32) -> int {
    if cwnd >= ss_thresh {
        cwnd as int
    } else if cwnd + acked > ss_thresh {
        ss_thresh as int
    } else {
        cwnd + acked
    }
}

/// The acknowledged bytes that slow start leaves over.
pub open spec fn left_by_slow_start(cwnd: u32, ss_thresh: u32, acked: u32) -> int {
    cwnd + acked - after_slow_start(cwnd, ss_thresh, acked)
}

/// What additive increase adds: a packet per flow for each full window acknowledged
/// beyond slow start.
pub open spec fn additive_increase(cwnd: u32, ss_thresh: u32, flows: u32, acked: u32) -> int {
    PACKET_BYTES * flows * (left_by_slow_start(cwnd, ss_thresh, acked) / after_slow_start(
        cwnd,
        ss_thresh,
        acked,
    ))
}

/// The window after `acked` bytes are acknowledged.
pub open spec fn increased_window(cwnd: u32, ss_thresh: u32, flows: u32, acked: u32) -> int {
    after_slow_start(cwnd, ss_thresh, acked) + additive_increase(cwnd, ss_thresh, flows, acked)
}

/// Every step of the increase stays within 32 bits and divides by a nonzero window.
pub open spec fn increase_fits(cwnd: u32, ss_thresh: u32, flows: u32, acked: u32) -> bool {
    &&& cwnd < ss_thresh ==> cwnd + acked <= u32::MAX
    &&& after_slow_start(cwnd, ss_thresh, acked) > 0
    &&& PACKET_BYTES * flows <= u32::MAX
    &&& increased_window(cwnd, ss_thresh, flows, acked) <= u32::MAX
}

/// The threshold after a timeout: half of it, but no less than the initial window.
pub open spec fn timed_out_threshold(ss_thresh: u32, init_cwnd: u32) -> u32 {
    if ss_thresh / 2 < init_cwnd {
        init_cwnd
    } else {
        ss_thresh / 2
    }
}

/// The window after one of `flows` flows timed out: the others keep their part, and that
/// one starts over.
pub open spec fn timed_out_window(cwnd: u32, flows: int, init_cwnd: u32) -> int {
    (cwnd * (flows - 1)) / flows + init_cwnd
}

/// Every step of the reaction to a timeout stays within 32 bits.
pub open spec fn timeout_fits(cwnd: u32, flows: int, init_cwnd: u32) -> bool {
    &&& flows > 0
    &&& cwnd * (flows - 1) <= u32::MAX
    &&& timed_out_window(cwnd, flows, init_cwnd) <= u32::MAX
}

/// The window after one of `flows` flows halved its part, but no less than the initial
/// window.
pub open spec fn reduced_window(cwnd: u32, flows: int, init_cwnd: u32) -> u32 {
    let smaller = cwnd - (cwnd as int) / (2 * flows);
    if smaller <= init_cwnd {
        init_cwnd
    } else {
        smaller as u32
    }
}

/// The window after `acked` bytes are acknowledged, if every step stays within 32 bits.
pub fn checked_increase(cwnd: u32, ss_thresh: u32, flows: u32, acked: u32) -> (res: Option<u32>)
    ensures
        res == (if increase_fits(cwnd, ss_thresh, flows, acked) {
            Some(increased_window(cwnd, ss_thresh, flows, acked) as u32)
        } else {
            None
        }),
{
    let reached: u64 = cwnd as u64 + acked as u64;
    if cwnd < ss_thresh && reached > u32::MAX as u64 {
        return None;
    }
    let started: u64 = if cwnd >= ss_thresh {
        cwnd as u64
    } else if reached > ss_thresh as u64 {
        ss_thresh as u64
    } else {
        reached
    };
    if started == 0 {
        return None;
    }
    let left: u64 = reached - started;
    let step: u64 = PACKET_BYTES as u64 * flows as u64;
    if step > u32::MAX as u64 {
        return None;
    }
    let windows: u64 = left / started;
    assert(windows <= left) by (nonlinear_arith)
        requires
            windows == left / started,
            started > 0,
    ;
    assert(0 <= step * windows <= u32::MAX * u32::MAX) by (nonlinear_arith)
        requires
            0 <= step <= u32::MAX,
            0 <= windows <= u32::MAX,
    ;
    let grown: u64 = started + step * windows;
    if grown > u32::MAX as u64 {
        return None;
    }
    Some(grown as u32)
}

/// The window after one of `flows` flows timed out, if every step stays within 32 bits.
pub fn checked_timeout(cwnd: u32, flows: u32, init_cwnd: u32) -> (res: Option<u32>)
    ensures
        res == (if timeout_fits(cwnd, flows as int, init_cwnd) {
            Some(timed_out_window(cwnd, flows as int, init_cwnd) as u32)
        } else {
            None
        }),
{
    if flows == 0 {
        return None;
    }
    assert(0 <= cwnd * (flows - 1) <= u32::MAX * u32::MAX) by (nonlinear_arith)
        requires
            0 <= cwnd <= u32::MAX,
            0 <= flows - 1 <= u32::MAX,
    ;
    let kept: u64 = cwnd as u64 * (flows - 1) as u64;
    if kept > u32::MAX as u64 {
        return None;
    }
    let left: u64 = kept / flows as u64 + init_cwnd as u64;
    if left > u32::MAX as u64 {
        return None;
    }
    Some(left as u32)
}

/// The window after one of `flows` flows halved its part.
pub fn reduce(cwnd: u32, flows: u32, init_cwnd: u32) -> (res: u32)
    requires
        0 < 2 * flows <= u32::MAX,
    ensures
        res == reduced_window(cwnd, flows as int, init_cwnd),
{
    let part: u32 = cwnd / (2 * flows);
    proof {
        vstd::arithmetic::div_mod::lemma_div_pos_is_pos(cwnd as int, 2 * flows as int);
        vstd::arithmetic::div_mod::lemma_div_is_ordered_by_denominator(
            cwnd as int,
            1,
            2 * flows as int,
        );
    }
    let smaller: u32 = cwnd - part;
    if smaller <= init_cwnd {
        init_cwnd
    } else {
        smaller
    }
}

} // verus!
