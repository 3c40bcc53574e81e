//! Control patterns: what a flow is told to do until its next report.

use vstd::prelude::*;

verus! {

/// The window that a flow keeps to outside its turn.
pub const LOW_CWND: u32 = 2;

/// One step of a control pattern.
#[derive(Clone, Copy, Debug, PartialEq, Eq, Structural)]
pub enum Event {
    /// Set the congestion window to this many bytes.
    SetCwndAbs(u32),
    /// Wait this many nanoseconds.
    WaitNs(u32),
    /// Wait this many round trips.
    WaitRtts(u32),
    /// Send a measurement.
    Report,
}

/// A control pattern addressed to one flow.
#[derive(Debug, PartialEq, Eq)]
pub struct Message {
    pub sock_id: u32,
    pub pattern: Vec<Event>,
}

/// Use a window for one round trip, then report.
pub open spec fn window_pattern(cwnd: u32) -> Seq<Event> {
    seq![Event::SetCwndAbs(cwnd), Event::WaitRtts(1), Event::Report]
}

/// Wait for the turn with number `turn` out of `flows` turns of `interval` nanoseconds,
/// use the window in that turn only, and report when all turns are over.
pub open spec fn turn_pattern(turn: int, flows: int, interval: u32, cwnd: u32) -> Seq<Event> {
    seq![
        Event::SetCwndAbs(LOW_CWND),
        Event::WaitNs((interval * turn) as u32),
        Event::SetCwndAbs(cwnd),
        Event::WaitNs(interval),
        Event::SetCwndAbs(LOW_CWND),
        Event::WaitNs((interval * (flows - 1 - turn)) as u32),
        Event::Report,
    ]
}

/// The nanoseconds that a pattern waits for by count of nanoseconds.
pub open spec fn waited_ns(pattern: Seq<Event>) -> int
    decreases pattern.len(),
{
    if pattern.len() == 0 {
        0
    } else {
        waited_ns(pattern.drop_last()) + match pattern.last() {
            Event::WaitNs(ns) => ns as int,
            _ => 0,
        }
    }
}

/// `messages` holds one message for each socket in `socks`, in some order, and no other.
pub open spec fn addressed_to(messages: Seq<Message>, socks: Set<u32>) -> bool {
    &&& forall|i: int| 0 <= i < messages.len() ==> socks.contains((#[trigger] messages[i]).sock_id)
    &&& forall|i: int, j: int|
        0 <= i < j < messages.len() ==> (#[trigger] messages[i]).sock_id != (
        #[trigger] messages[j]).sock_id
    &&& forall|k: u32| #[trigger]
        socks.contains(k) ==> exists|i: int|
            0 <= i < messages.len() && (#[trigger] messages[i]).sock_id == k
}

/// `messages` tells each flow that has both a window and a channel to use its window.
pub open spec fn announces(
    messages: Seq<Message>,
    windows: Map<u32, u32>,
    channels: Set<u32>,
) -> bool {
    &&& addressed_to(messages, windows.dom().intersect(channels))
    &&& forall|i: int|
        0 <= i < messages.len() ==> (#[trigger] messages[i]).pattern@ == window_pattern(
            windows[messages[i].sock_id],
        )
}

/// `messages` gives each flow in `socks` a turn of its own: the flow of the message at
/// index `i` has the turn with number `i`.
pub open spec fn takes_turns(
    messages: Seq<Message>,
    socks: Set<u32>,
    interval: u32,
    cwnd: u32,
) -> bool {
    &&& addressed_to(messages, socks)
    &&& forall|i: int|
        0 <= i < messages.len() ==> (#[trigger] messages[i]).pattern@ == turn_pattern(
            i,
            messages.len() as int,
            interval,
            cwnd,
        )
}

/// Builds [`window_pattern`].
pub fn make_window_pattern(cwnd: u32) -> (res: Vec<Event>)
    ensures
        res@ == window_pattern(cwnd),
{
    let mut pattern: Vec<Event> = Vec::new();
    pattern.push(Event::SetCwndAbs(cwnd));
    pattern.push(Event::WaitRtts(1));
    pattern.push(Event::Report);
    assert(pattern@ =~= window_pattern(cwnd));
    pattern
}

/// Builds [`turn_pattern`].
pub fn make_turn_pattern(turn: u32, flows: u32, interval: u32, cwnd: u32) -> (res: Vec<Event>)
    requires
        turn < flows,
        interval * turn <= u32::MAX,
        interval * (flows - 1 - turn) <= u32::MAX,
    ensures
        res@ == turn_pattern(turn as int, flows as int, interval, cwnd),
{
    proof {
        vstd::arithmetic::mul::lemma_mul_nonnegative(interval as int, turn as int);
        vstd::arithmetic::mul::lemma_mul_nonnegative(interval as int, flows - 1 - turn);
    }
    let begin_off_time: u32 = interval * turn;
    let end_off_time: u32 = interval * (flows - 1 - turn);
    let mut pattern: Vec<Event> = Vec::new();
    pattern.push(Event::SetCwndAbs(LOW_CWND));
    pattern.push(Event::WaitNs(begin_off_time));
    pattern.push(Event::SetCwndAbs(cwnd));
    pattern.push(Event::WaitNs(interval));
    pattern.push(Event::SetCwndAbs(LOW_CWND));
    pattern.push(Event::WaitNs(end_off_time));
    pattern.push(Event::Report);
    assert(pattern@ =~= turn_pattern(turn as int, flows as int, interval, cwnd));
    pattern
}

} // verus!
