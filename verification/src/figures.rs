//! Shares, patterns, reports and tables in plain figures.
//!
//! These laws say of single values what they are, by the relations that determine them.

use crate::aggregate::AggregateView;
use crate::allocation::{
    even_windows, lemma_proportional_share, proportional_windows, served_in_order,
};
use crate::flow_table::{
    ascending, enumerates, is_demand_order, lemma_ascending_is, lemma_enumeration, lemma_listed,
    lemma_total_remove, lemma_value_within_total, listed, sum, total, values_in,
};
use crate::ipc::received;
use crate::measurement::{first_missing, low_bits, Measurement, Register};
use crate::pattern::{announces, takes_turns, turn_pattern, window_pattern, Event, Message};
use vstd::math::min;
use vstd::prelude::*;

verus! {

// ---------------------------------------------------------------------------
// Tables
// ---------------------------------------------------------------------------

/// An empty table comes to nothing, and a new entry adds its value.
pub proof fn law_total(table: Map<u32, u32>, sock: u32, value: u32)
    requires
        table.dom().finite(),
        !table.contains_key(sock),
    ensures
        total(Map::empty()) == 0,
        total(table.insert(sock, value)) == total(table) + value,
{
    let larger = table.insert(sock, value);
    lemma_total_remove(larger, sock);
    assert(larger.remove(sock) =~= table);
}

/// Nothing comes to nothing, and a further number adds itself.
pub proof fn law_sum(numbers: Seq<u32>, number: u32)
    ensures
        sum(Seq::empty()) == 0,
        sum(numbers.push(number)) == sum(numbers) + number,
{
    assert(numbers.push(number).drop_last() =~= numbers);
}

/// A demand order holds each flow once with what it has pending, and no flow after one that
/// has more pending.
pub proof fn law_demand_order(order: Seq<(u32, u32)>, pending: Map<u32, u32>, i: int, j: int)
    requires
        is_demand_order(order, pending),
        0 <= i < j < order.len(),
    ensures
        order.len() == pending.len(),
        order[i].0 != order[j].0,
        order[i].1 <= order[j].1,
        pending.contains_key(order[i].0) && pending[order[i].0] == order[i].1,
        pending.contains_key(order[j].0) && pending[order[j].0] == order[j].1,
        ascending(pending)[i] == order[i].1,
{
    lemma_enumeration(order, pending);
    lemma_ascending_is(order, pending);
    assert(values_in(order)[i] <= values_in(order)[j]);
}

/// A listing holds every entry of its table, and no other.
pub proof fn law_listing(order: Seq<(u32, u32)>, table: Map<u32, u32>, sock: u32)
    requires
        enumerates(order, table),
    ensures
        table.contains_key(sock) <==> exists|i: int|
            0 <= i < order.len() && #[trigger] order[i] == (sock, table[sock]),
        order.len() == table.len(),
        listed(order) == table,
{
    lemma_enumeration(order, table);
    lemma_listed(order, table);
    if table.contains_key(sock) {
        let i = choose|i: int| 0 <= i < order.len() && (#[trigger] order[i]).0 == sock;
        assert(table.contains_key(order[i].0));
        assert(order[i] == (sock, table[sock]));
    }
}

// ---------------------------------------------------------------------------
// Shares
// ---------------------------------------------------------------------------

/// Split evenly, each flow gets the most that all flows can have.
pub proof fn law_even_share(pending: Map<u32, u32>, window: u32, flows: u32, sock: u32)
    requires
        flows > 0,
        pending.contains_key(sock),
    ensures
        even_windows(pending, window, flows).contains_key(sock),
        even_windows(pending, window, flows)[sock] * flows <= window < (even_windows(
            pending,
            window,
            flows,
        )[sock] + 1) * flows,
{
    let share = even_windows(pending, window, flows)[sock] as int;
    let (w, n) = (window as int, flows as int);
    assert(share == w / n);
    assert(share * n <= w < (share + 1) * n) by (nonlinear_arith)
        requires
            share == w / n,
            n > 0,
    ;
}

/// In proportion to demand, each flow gets the most whole bytes that are not more than its
/// part: its share of the window is to the window as its demand to all demands.
pub proof fn law_proportional_share(pending: Map<u32, u32>, window: u32, sock: u32)
    requires
        pending.dom().finite(),
        total(pending) > 0,
        pending.contains_key(sock),
    ensures
        proportional_windows(pending, window).contains_key(sock),
        proportional_windows(pending, window)[sock] * total(pending) <= window * pending[sock] < (
        proportional_windows(pending, window)[sock] + 1) * total(pending),
{
    lemma_value_within_total(pending, sock);
    lemma_proportional_share(pending[sock], window, total(pending));
    let share = proportional_windows(pending, window)[sock] as int;
    let part = window * pending[sock];
    let asked = total(pending) as int;
    assert(share == part / asked);
    assert(share * asked <= part < (share + 1) * asked) by (nonlinear_arith)
        requires
            share == part / asked,
            asked > 0,
    ;
}

/// Served in order, a flow gets what it asks for or what those before it have left of the
/// window, whichever is less, and one byte where they have left nothing.
pub proof fn law_served_share(order: Seq<(u32, u32)>, window: u32, i: int)
    requires
        0 <= i < order.len(),
    ensures
        served_in_order(order, window).len() == order.len(),
        served_in_order(order, window)[i].0 == order[i].0,
        sum(values_in(order).take(i)) < window ==> served_in_order(order, window)[i].1 == min(
            order[i].1 as int,
            window - sum(values_in(order).take(i)),
        ),
        sum(values_in(order).take(i)) >= window ==> served_in_order(order, window)[i].1 == 1,
{
}

/// Shortest-first allocation may take any listing of the flows where the window holds all
/// that they ask for, and otherwise any that puts smaller demands first.
pub proof fn law_who_may_be_served_first<C>(view: AggregateView<C>, order: Seq<(u32, u32)>)
    ensures
        view.may_serve(order) <==> if total(view.subflow_pending) <= view.cwnd {
            enumerates(order, view.subflow_pending)
        } else {
            is_demand_order(order, view.subflow_pending)
        },
{
}

// ---------------------------------------------------------------------------
// Patterns
// ---------------------------------------------------------------------------

/// A flow uses its window for one round trip and then reports.
pub proof fn law_window_pattern(cwnd: u32)
    ensures
        window_pattern(cwnd).len() == 3,
        window_pattern(cwnd)[0] == Event::SetCwndAbs(cwnd),
        window_pattern(cwnd)[1] == Event::WaitRtts(1),
        window_pattern(cwnd)[2] == Event::Report,
{
}

/// A flow keeps to a window of two while the turns before its own pass, uses the window
/// during its turn, keeps to a window of two while the turns after its own pass, and then
/// reports.
pub proof fn law_turn_pattern(turn: int, flows: int, interval: u32, cwnd: u32)
    requires
        0 <= turn < flows,
        interval * (flows - 1) <= u32::MAX,
    ensures
        ({
            let pattern = turn_pattern(turn, flows, interval, cwnd);
            &&& pattern.len() == 7
            &&& pattern[0] == Event::SetCwndAbs(2)
            &&& pattern[1] matches Event::WaitNs(before) && before == interval * turn
            &&& pattern[2] == Event::SetCwndAbs(cwnd)
            &&& pattern[3] == Event::WaitNs(interval)
            &&& pattern[4] == Event::SetCwndAbs(2)
            &&& pattern[5] matches Event::WaitNs(after) && after == interval * (flows - 1 - turn)
            &&& pattern[6] == Event::Report
        }),
{
    crate::laws::lemma_turn_times(turn, flows, interval);
}

/// Nobody else is told: every message of an announcement goes to a flow that has a window
/// and can be reached, holds its window, and is the only one to that flow.
pub proof fn law_only_those_announced(
    messages: Seq<Message>,
    windows: Map<u32, u32>,
    channels: Set<u32>,
    i: int,
    j: int,
)
    requires
        announces(messages, windows, channels),
        0 <= i < messages.len(),
        0 <= j < messages.len(),
    ensures
        windows.contains_key(messages[i].sock_id),
        channels.contains(messages[i].sock_id),
        messages[i].pattern@ == window_pattern(windows[messages[i].sock_id]),
        messages[i].sock_id == messages[j].sock_id ==> i == j,
{
    let socks = windows.dom().intersect(channels);
    assert(socks.contains(messages[i].sock_id));
    if i < j {
        assert(messages[i].sock_id != messages[j].sock_id);
    } else if j < i {
        assert(messages[j].sock_id != messages[i].sock_id);
    }
}

/// Nobody else has a turn: every message goes to a flow that can be reached, no two to one
/// flow, and the turns follow one another in the order of the messages.
pub proof fn law_only_those_take_turns(
    messages: Seq<Message>,
    socks: Set<u32>,
    interval: u32,
    cwnd: u32,
    i: int,
    j: int,
)
    requires
        takes_turns(messages, socks, interval, cwnd),
        0 <= i < messages.len(),
        0 <= j < messages.len(),
    ensures
        socks.contains(messages[i].sock_id),
        messages[i].pattern@ == turn_pattern(i, messages.len() as int, interval, cwnd),
        messages[i].sock_id == messages[j].sock_id ==> i == j,
{
    if i < j {
        assert(messages[i].sock_id != messages[j].sock_id);
    } else if j < i {
        assert(messages[j].sock_id != messages[i].sock_id);
    }
}

/// A turn lasts a thousand times the average round trip time, which is the most that, had
/// by every flow that has joined, does not exceed all round trip times together.
pub proof fn law_turn_interval<C>(view: AggregateView<C>)
    ensures
        view.turn_interval() == 1000 * view.average_rtt(),
        view.num_flows == 0 ==> view.average_rtt() == 0,
        view.num_flows > 0 ==> view.average_rtt() * view.num_flows <= total(view.subflow_rtt) < (
        view.average_rtt() + 1) * view.num_flows,
{
    if view.num_flows > 0 {
        let (average, all, n) = (
            view.average_rtt(),
            total(view.subflow_rtt) as int,
            view.num_flows as int,
        );
        assert(average * n <= all < (average + 1) * n) by (nonlinear_arith)
            requires
                average == all / n,
                n > 0,
        ;
    }
}

/// Turns can be given just if round trip times, turns and waits stay within 32 bits.
pub proof fn law_when_turns_can_be_given<C>(view: AggregateView<C>, flows: int)
    requires
        flows == view.subflow.len() <= u32::MAX,
    ensures
        view.turns_fit() <==> {
            &&& view.num_flows > 0 ==> total(view.subflow_rtt) <= u32::MAX
            &&& 1000 * view.average_rtt() <= u32::MAX
            &&& (1000 * view.average_rtt()) * (flows - 1) <= u32::MAX
        },
{
    law_flow_count(view);
}

/// Flows that can be reached are counted in 32 bits: the count is right as long as it fits,
/// and starts over at zero.
pub proof fn law_flow_count<C>(view: AggregateView<C>)
    ensures
        view.subflow.len() <= u32::MAX ==> view.flow_count() == view.subflow.len(),
        view.subflow.len() == u32::MAX + 1 ==> view.flow_count() == 0,
{
    if view.subflow.len() <= u32::MAX {
        vstd::arithmetic::div_mod::lemma_small_mod(view.subflow.len(), 0x1_0000_0000);
    }
}

// ---------------------------------------------------------------------------
// Reports
// ---------------------------------------------------------------------------

/// Registers that fit in 32 bits are read as they are, each for its own field, and a flow
/// timed out just if its register holds one.
pub proof fn law_small_registers_are_read(m: Measurement)
    ensures
        m.acked <= u32::MAX ==> m.fields().acked == m.acked,
        m.sacked <= u32::MAX ==> m.fields().sacked == m.sacked,
        m.inflight <= u32::MAX ==> m.fields().inflight == m.inflight,
        m.loss <= u32::MAX ==> m.fields().loss == m.loss,
        m.rtt <= u32::MAX ==> m.fields().rtt == m.rtt,
        m.pending <= u32::MAX ==> m.fields().pending == m.pending,
        m.timeout <= u32::MAX ==> (m.fields().was_timeout <==> m.timeout == 1),
{
}

/// What a register holds beyond 32 bits does not matter.
pub proof fn law_high_bits_are_ignored(left: Measurement, right: Measurement)
    requires
        (left.acked - right.acked) % 0x1_0000_0000 == 0,
        (left.sacked - right.sacked) % 0x1_0000_0000 == 0,
        (left.timeout - right.timeout) % 0x1_0000_0000 == 0,
        (left.inflight - right.inflight) % 0x1_0000_0000 == 0,
        (left.loss - right.loss) % 0x1_0000_0000 == 0,
        (left.rtt - right.rtt) % 0x1_0000_0000 == 0,
        (left.pending - right.pending) % 0x1_0000_0000 == 0,
    ensures
        left.fields() == right.fields(),
{
    lemma_low_bits(left.acked, right.acked);
    lemma_low_bits(left.sacked, right.sacked);
    lemma_low_bits(left.timeout, right.timeout);
    lemma_low_bits(left.inflight, right.inflight);
    lemma_low_bits(left.loss, right.loss);
    lemma_low_bits(left.rtt, right.rtt);
    lemma_low_bits(left.pending, right.pending);
}

proof fn lemma_low_bits(left: u64, right: u64)
    requires
        (left - right) % 0x1_0000_0000 == 0,
    ensures
        low_bits(left) == low_bits(right),
{
}

/// A report is complete just if no register is missing; otherwise the register named is
/// missing, and all that are read before it are there.
pub proof fn law_first_missing(
    acked: Option<u64>,
    sacked: Option<u64>,
    timeout: Option<u64>,
    inflight: Option<u64>,
    loss: Option<u64>,
    rtt: Option<u64>,
    pending: Option<u64>,
)
    ensures
        ({
            let missing = first_missing(acked, sacked, timeout, inflight, loss, rtt, pending);
            &&& missing is None <==> acked is Some && sacked is Some && timeout is Some
                && inflight is Some && loss is Some && rtt is Some && pending is Some
            &&& missing == Some(Register::Acked) <==> acked is None
            &&& missing == Some(Register::Sacked) <==> acked is Some && sacked is None
            &&& missing == Some(Register::Timeout) <==> acked is Some && sacked is Some
                && timeout is None
            &&& missing == Some(Register::Inflight) <==> acked is Some && sacked is Some
                && timeout is Some && inflight is None
            &&& missing == Some(Register::Loss) <==> acked is Some && sacked is Some
                && timeout is Some && inflight is Some && loss is None
            &&& missing == Some(Register::Rtt) <==> acked is Some && sacked is Some
                && timeout is Some && inflight is Some && loss is Some && rtt is None
            &&& missing == Some(Register::Pending) <==> acked is Some && sacked is Some
                && timeout is Some && inflight is Some && loss is Some && rtt is Some
                && pending is None
        }),
{
}

// ---------------------------------------------------------------------------
// Transport
// ---------------------------------------------------------------------------

/// A receive hands over bytes from the front of what is held, as many as there is room for
/// or as are held, whichever is less.
pub proof fn law_received(held: Seq<u8>, room: nat, i: int)
    requires
        0 <= i < min(held.len() as int, room as int),
    ensures
        received(held, room).len() == min(held.len() as int, room as int),
        received(held, room)[i] == held[i],
{
}

/// A receive without room, or with nothing held, hands over nothing.
pub proof fn law_nothing_received(held: Seq<u8>, room: nat)
    ensures
        held.len() == 0 || room == 0 <==> received(held, room).len() == 0,
{
}

} // verus!
