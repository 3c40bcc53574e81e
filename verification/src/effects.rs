//! What each operation does to the aggregate, in plain numbers.
//!
//! These laws speak of the aggregate before and after an operation, field by field, with the
//! arithmetic written out. `flows` stands for the number of flows that can be reached.

use crate::aggregate::{AggregateView, DatapathInfo};
use crate::allocation::{fair_level, fair_windows};
use crate::flow_table::{ascending, total};
use crate::laws::{
    law_enough_flows_can_be_allocated, law_fair_divides_window, law_fair_max_min,
    law_fair_within_demand, law_fair_within_window,
};
use crate::measurement::Fields;
use vstd::math::{max, min};
use vstd::prelude::*;

verus! {

/// Nothing but the windows of the flows differs.
pub open spec fn same_but_windows<C>(before: AggregateView<C>, after: AggregateView<C>) -> bool {
    &&& after.cwnd == before.cwnd
    &&& after.ss_thresh == before.ss_thresh
    &&& after.curr_cwnd_reduction == before.curr_cwnd_reduction
    &&& same_flows(before, after)
}

/// Neither the flows nor what is known of them differs, but for their windows.
pub open spec fn same_flows<C>(before: AggregateView<C>, after: AggregateView<C>) -> bool {
    &&& after.init_cwnd == before.init_cwnd
    &&& after.num_flows == before.num_flows
    &&& after.subflow == before.subflow
    &&& after.subflow_pending == before.subflow_pending
    &&& after.subflow_rtt == before.subflow_rtt
    &&& after.subflow_util == before.subflow_util
    &&& after.subflow_inflight == before.subflow_inflight
}

/// The windows of the flows are a max-min fair division of the aggregate's own window:
/// every flow of which it is known what it has pending has a window and no other has one;
/// none has more than it has pending; and a flow that has less has no less than any other,
/// its window being such that, counted once for each of the flows that have joined but have
/// nothing on record, all windows come to the aggregate's window to within a byte per flow.
pub open spec fn fairly_divided<C>(view: AggregateView<C>) -> bool {
    let windows = view.subflow_cwnd;
    let pending = view.subflow_pending;
    &&& windows.dom() == pending.dom()
    &&& forall|sock: u32| #[trigger]
        pending.contains_key(sock) ==> windows[sock] <= pending[sock]
    &&& forall|short: u32, other: u32|
        #![trigger pending.contains_key(short), pending.contains_key(other)]
        pending.contains_key(short) && pending.contains_key(other) && windows[short]
            < pending[short] ==> windows[other] <= windows[short]
    &&& forall|short: u32| #[trigger]
        pending.contains_key(short) && windows[short] < pending[short] ==> {
            let divided = total(windows) + (view.num_flows - pending.len()) * windows[short];
            divided <= view.cwnd < divided + view.num_flows
        }
    &&& pending.len() <= view.num_flows ==> total(windows) <= view.cwnd
}

/// Dividing the window changes the windows of the flows and nothing else, and divides the
/// aggregate's own window, all of it, max-min fairly.
pub proof fn law_dividing<C>(view: AggregateView<C>)
    requires
        view.subflow_pending.dom().finite(),
        view.can_allocate(),
    ensures
        same_but_windows(view, view.allocated()),
        fairly_divided(view.allocated()),
{
    let after = view.allocated();
    let windows = after.subflow_cwnd;
    let pending = view.subflow_pending;
    let (cwnd, num_flows) = (view.cwnd, view.num_flows);
    assert(windows == fair_windows(pending, cwnd, num_flows));
    assert(windows.dom() =~= pending.dom());
    assert forall|sock: u32| #[trigger] pending.contains_key(sock) implies windows[sock]
        <= pending[sock] by {
        law_fair_within_demand(pending, cwnd, num_flows, sock);
    }
    assert forall|short: u32, other: u32|
        #![trigger pending.contains_key(short), pending.contains_key(other)]
        pending.contains_key(short) && pending.contains_key(other) && windows[short]
            < pending[short] implies windows[other] <= windows[short] by {
        law_fair_max_min(pending, cwnd, num_flows, short, other);
    }
    law_fair_divides_window(pending, cwnd, num_flows);
    assert forall|short: u32| #[trigger]
        pending.contains_key(short) && windows[short] < pending[short] implies {
        let divided = total(windows) + (num_flows - pending.len()) * windows[short];
        divided <= cwnd < divided + num_flows
    } by {
        law_fair_within_demand(pending, cwnd, num_flows, short);
        let level = fair_level(ascending(pending), cwnd as int, num_flows as int);
        assert(level is Some);
        crate::laws::law_level_of_a_short_flow(pending, cwnd, num_flows, short);
    }
    if pending.len() <= num_flows {
        law_fair_within_window(pending, cwnd, num_flows);
    }
}

/// Where every flow that has joined asks, and one gets less than it asks for, the windows
/// come to the aggregate's window to within a byte per flow.
pub proof fn law_dividing_hands_out_the_window<C>(view: AggregateView<C>, short: u32)
    requires
        view.subflow_pending.dom().finite(),
        view.subflow_pending.len() == view.num_flows,
        view.subflow_pending.contains_key(short),
        view.allocated().subflow_cwnd[short] < view.subflow_pending[short],
    ensures
        total(view.allocated().subflow_cwnd) <= view.cwnd < total(view.allocated().subflow_cwnd)
            + view.num_flows,
{
    law_enough_flows_can_be_allocated(view.subflow_pending, view.cwnd, view.num_flows);
    law_dividing(view);
    let windows = view.allocated().subflow_cwnd;
    assert((view.num_flows - view.subflow_pending.len()) * windows[short] == 0) by (nonlinear_arith)
        requires
            view.subflow_pending.len() == view.num_flows,
    ;
}

/// A new aggregate has the window its founder starts with, the default threshold, and
/// nothing on record but how to reach its founder.
pub proof fn law_founding<C>(control: C, info: DatapathInfo, sock: u32)
    ensures
        ({
            let new = AggregateView::founded(control, info);
            &&& new.cwnd == info.init_cwnd
            &&& new.init_cwnd == info.init_cwnd
            &&& new.ss_thresh == 0x7fffffff
            &&& new.curr_cwnd_reduction == 0
            &&& new.num_flows == 0
            &&& new.subflow.contains_key(sock) <==> sock == info.sock_id
            &&& new.subflow[info.sock_id] == control
            &&& new.subflow.len() == 1
            &&& !new.subflow_pending.contains_key(sock)
            &&& !new.subflow_rtt.contains_key(sock)
            &&& !new.subflow_cwnd.contains_key(sock)
            &&& !new.subflow_util.contains_key(sock)
            &&& !new.subflow_inflight.contains_key(sock)
            &&& new.can_allocate()
        }),
{
    let new = AggregateView::founded(control, info);
    assert(new.subflow.dom() =~= Set::empty().insert(info.sock_id));
    law_enough_flows_can_be_allocated(new.subflow_pending, new.cwnd, new.num_flows);
}

/// Joining leaves the congestion state and all other flows alone: it adds one to the number
/// of flows, records the newcomer with ten packets pending and nothing else, and divides
/// the window as it is.
pub proof fn law_joining<C>(view: AggregateView<C>, control: C, info: DatapathInfo, other: u32)
    requires
        view.subflow_pending.dom().finite(),
        view.num_flows < u32::MAX,
        view.joined(control, info).can_allocate(),
        other != info.sock_id,
    ensures
        ({
            let after = view.joined(control, info).allocated();
            let sock = info.sock_id;
            &&& after.cwnd == view.cwnd
            &&& after.ss_thresh == view.ss_thresh
            &&& after.curr_cwnd_reduction == view.curr_cwnd_reduction
            &&& after.init_cwnd == view.init_cwnd
            &&& after.num_flows == view.num_flows + 1
            &&& after.subflow.contains_key(sock)
            &&& after.subflow[sock] == control
            &&& after.subflow_pending.contains_key(sock)
            &&& after.subflow_pending[sock] == 14480
            &&& after.subflow_rtt.contains_key(sock)
            &&& after.subflow_rtt[sock] == 0
            &&& after.subflow_util.contains_key(sock)
            &&& after.subflow_util[sock] == 0
            &&& after.subflow_inflight.contains_key(sock)
            &&& after.subflow_inflight[sock] == 0
            &&& same_entry(view.subflow, after.subflow, other)
            &&& same_entry(view.subflow_pending, after.subflow_pending, other)
            &&& same_entry(view.subflow_rtt, after.subflow_rtt, other)
            &&& same_entry(view.subflow_util, after.subflow_util, other)
            &&& same_entry(view.subflow_inflight, after.subflow_inflight, other)
            &&& fairly_divided(after)
            &&& after == after.allocated()
        }),
{
    let joined = view.joined(control, info);
    assert(joined.subflow_pending.dom() =~= view.subflow_pending.dom().insert(info.sock_id));
    law_dividing(joined);
    assert(joined.allocated() =~= joined.allocated().allocated());
}

/// Two tables agree on a socket.
pub open spec fn same_entry<V>(before: Map<u32, V>, after: Map<u32, V>, sock: u32) -> bool {
    &&& after.contains_key(sock) <==> before.contains_key(sock)
    &&& before.contains_key(sock) ==> after[sock] == before[sock]
}

/// A flow can join just if the count has room for it and the window can then be divided.
pub proof fn law_when_a_flow_can_join<C>(view: AggregateView<C>, control: C, info: DatapathInfo)
    ensures
        view.join_fits(control, info) <==> view.num_flows < u32::MAX && view.joined(
            control,
            info,
        ).can_allocate(),
{
}

/// What the window is after `acked` bytes: at or above the threshold it gains a packet per
/// flow for each window's worth acknowledged; below, it gains the bytes acknowledged up to
/// the threshold, and from there likewise for what is left of them. Nothing else changes.
pub proof fn law_growing<C>(view: AggregateView<C>, acked: u32)
    requires
        view.increase_fits(acked),
    ensures
        ({
            let after = view.increased(acked);
            let step = 1448 * view.num_flows;
            &&& view.cwnd >= view.ss_thresh ==> after.cwnd == view.cwnd + step * (acked as int
                / view.cwnd as int)
            &&& view.cwnd + acked <= view.ss_thresh ==> after.cwnd == view.cwnd + acked
            &&& view.cwnd < view.ss_thresh < view.cwnd + acked ==> after.cwnd == view.ss_thresh
                + step * ((view.cwnd + acked - view.ss_thresh) / view.ss_thresh as int)
            &&& after.ss_thresh == view.ss_thresh
            &&& after.curr_cwnd_reduction == view.curr_cwnd_reduction
            &&& after.subflow_cwnd == view.subflow_cwnd
            &&& same_flows(view, after)
        }),
{
    let (cwnd, ss_thresh, acked_) = (view.cwnd as int, view.ss_thresh as int, acked as int);
    let step = 1448 * view.num_flows as int;
    if cwnd >= ss_thresh {
        vstd::arithmetic::div_mod::lemma_div_pos_is_pos(acked_, cwnd);
        vstd::arithmetic::mul::lemma_mul_nonnegative(step, acked_ / cwnd);
        if acked == 0 {
            vstd::arithmetic::div_mod::lemma_div_of0(cwnd);
            vstd::arithmetic::mul::lemma_mul_basics(step);
        }
    } else if cwnd + acked_ <= ss_thresh {
        crate::laws::law_slow_start_counts_bytes(
            view.cwnd,
            view.ss_thresh,
            view.num_flows,
            acked,
        );
    } else {
        let left = cwnd + acked_ - ss_thresh;
        vstd::arithmetic::div_mod::lemma_div_pos_is_pos(left, ss_thresh);
        vstd::arithmetic::mul::lemma_mul_nonnegative(step, left / ss_thresh);
    }
}

/// The window can grow just if it is not left at zero and nothing on the way outgrows 32
/// bits.
pub proof fn law_when_the_window_can_grow<C>(view: AggregateView<C>, acked: u32)
    ensures
        ({
            let (cwnd, ss_thresh) = (view.cwnd as int, view.ss_thresh as int);
            let step = 1448 * view.num_flows;
            let from = if cwnd >= ss_thresh {
                cwnd
            } else {
                min(cwnd + acked, ss_thresh)
            };
            view.increase_fits(acked) <==> {
                &&& from > 0
                &&& step <= u32::MAX
                &&& cwnd < ss_thresh ==> cwnd + acked <= u32::MAX
                &&& from + step * ((cwnd + acked - from) / from) <= u32::MAX
            }
        }),
{
}

/// After a timeout the threshold is half of what it was or the initial window, whichever is
/// larger; the window is what the other flows' even parts of it come to, plus the initial
/// window; nothing is left to make up for; and the new window is divided.
pub proof fn law_timing_out<C>(view: AggregateView<C>, flows: int)
    requires
        view.wf(),
        view.timeout_fits(),
        flows == view.subflow.len() <= u32::MAX,
    ensures
        ({
            let after = view.backed_off().allocated();
            &&& after.ss_thresh == max(view.ss_thresh as int / 2, view.init_cwnd as int)
            &&& after.cwnd == (view.cwnd * (flows - 1)) / flows + view.init_cwnd
            &&& after.curr_cwnd_reduction == 0
            &&& same_flows(view, after)
            &&& fairly_divided(after)
            &&& after == after.allocated()
        }),
{
    lemma_flow_count(view, flows);
    vstd::arithmetic::mul::lemma_mul_nonnegative(view.cwnd as int, flows - 1);
    vstd::arithmetic::div_mod::lemma_div_pos_is_pos(view.cwnd * (flows - 1), flows);
    law_dividing(view.backed_off());
    assert(view.backed_off().allocated() =~= view.backed_off().allocated().allocated());
}

/// A timeout can be reacted to just if a flow can be reached, nothing on the way outgrows 32
/// bits, and the new window can be divided.
pub proof fn law_when_a_timeout_can_be_handled<C>(view: AggregateView<C>, flows: int)
    requires
        flows == view.subflow.len() <= u32::MAX,
    ensures
        view.timeout_fits() <==> {
            &&& flows > 0
            &&& view.cwnd * (flows - 1) <= u32::MAX
            &&& (view.cwnd * (flows - 1)) / flows + view.init_cwnd <= u32::MAX
            &&& view.backed_off().can_allocate()
        },
{
    lemma_flow_count(view, flows);
}

proof fn lemma_flow_count<C>(view: AggregateView<C>, flows: int)
    requires
        flows == view.subflow.len() <= u32::MAX,
    ensures
        view.flow_count() == flows,
{
    vstd::arithmetic::div_mod::lemma_small_mod(flows as nat, 0x1_0000_0000);
}

/// The window shrinks by half of one flow's even part, though not below the initial window,
/// and takes the threshold with it; what is lost or misordered is added to what must be made
/// up for; and the new window is divided.
pub open spec fn shrinks<C>(
    view: AggregateView<C>,
    after: AggregateView<C>,
    loss: u32,
    sacked: u32,
    flows: int,
) -> bool {
    &&& after.cwnd == max(view.init_cwnd as int, view.cwnd - view.cwnd as int / (2 * flows))
    &&& after.ss_thresh == after.cwnd
    &&& after.curr_cwnd_reduction == view.curr_cwnd_reduction + sacked + loss
    &&& same_flows(view, after)
    &&& fairly_divided(after)
    &&& after == after.allocated()
}

/// Neither window nor threshold nor any flow's window moves; what is lost or misordered is
/// added to what must be made up for.
pub open spec fn counts_only<C>(
    view: AggregateView<C>,
    after: AggregateView<C>,
    loss: u32,
    sacked: u32,
) -> bool {
    &&& after.cwnd == view.cwnd
    &&& after.ss_thresh == view.ss_thresh
    &&& after.curr_cwnd_reduction == view.curr_cwnd_reduction + sacked + loss
    &&& after.subflow_cwnd == view.subflow_cwnd
    &&& same_flows(view, after)
}

/// A loss while nothing is left to make up for shrinks the window, whatever else is
/// reported, and the flows are told.
pub proof fn law_first_loss_shrinks<C>(
    view: AggregateView<C>,
    loss: u32,
    sacked: u32,
    acked: u32,
    flows: int,
)
    requires
        view.wf(),
        view.reduction_fits(loss, sacked, acked),
        flows == view.subflow.len() <= u32::MAX,
        loss > 0,
        view.curr_cwnd_reduction == 0,
    ensures
        view.must_reduce(loss, acked),
        shrinks(view, view.reduced(loss, sacked, acked), loss, sacked, flows),
{
    lemma_shrinks(view, loss, sacked, acked, flows);
}

/// Bytes acknowledged while the window stands at the threshold shrink the window, whatever
/// else is reported, and the flows are told.
pub proof fn law_probing_shrinks<C>(
    view: AggregateView<C>,
    loss: u32,
    sacked: u32,
    acked: u32,
    flows: int,
)
    requires
        view.wf(),
        view.reduction_fits(loss, sacked, acked),
        flows == view.subflow.len() <= u32::MAX,
        acked > 0,
        view.cwnd == view.ss_thresh,
    ensures
        view.must_reduce(loss, acked),
        shrinks(view, view.reduced(loss, sacked, acked), loss, sacked, flows),
{
    lemma_shrinks(view, loss, sacked, acked, flows);
}

proof fn lemma_shrinks<C>(
    view: AggregateView<C>,
    loss: u32,
    sacked: u32,
    acked: u32,
    flows: int,
)
    requires
        view.wf(),
        view.reduction_fits(loss, sacked, acked),
        flows == view.subflow.len() <= u32::MAX,
        view.must_reduce(loss, acked),
    ensures
        shrinks(view, view.reduced(loss, sacked, acked), loss, sacked, flows),
{
    lemma_flow_count(view, flows);
    vstd::arithmetic::div_mod::lemma_div_pos_is_pos(view.cwnd as int, 2 * flows);
    law_dividing(view.shrunk());
    let after = view.reduced(loss, sacked, acked);
    assert(after =~= after.allocated());
}

/// Otherwise the window is left alone and nobody is told anything.
pub proof fn law_other_losses_are_counted<C>(
    view: AggregateView<C>,
    loss: u32,
    sacked: u32,
    acked: u32,
)
    requires
        view.reduction_fits(loss, sacked, acked),
        loss == 0 || view.curr_cwnd_reduction > 0,
        acked == 0 || view.cwnd != view.ss_thresh,
    ensures
        !view.must_reduce(loss, acked),
        counts_only(view, view.reduced(loss, sacked, acked), loss, sacked),
{
}

/// Losses can be accounted for just if their count stays within 32 bits and, where the
/// window shrinks, twice the number of flows does too, there is a flow, and the new window
/// can be divided.
pub proof fn law_when_losses_can_be_counted<C>(
    view: AggregateView<C>,
    loss: u32,
    sacked: u32,
    acked: u32,
    flows: int,
)
    requires
        flows == view.subflow.len() <= u32::MAX,
    ensures
        view.reduction_fits(loss, sacked, acked) <==> {
            &&& view.curr_cwnd_reduction + sacked + loss <= u32::MAX
            &&& (loss > 0 && view.curr_cwnd_reduction == 0) || (acked > 0 && view.cwnd
                == view.ss_thresh) ==> {
                &&& flows > 0
                &&& 2 * flows <= u32::MAX
                &&& view.shrunk().can_allocate()
            }
        },
{
    lemma_flow_count(view, flows);
}

/// A report is put on record first: its flow's round trip time, pending bytes, packets in
/// flight, and bytes and packets acknowledged. Nothing else changes.
pub proof fn law_noting<C>(view: AggregateView<C>, sock: u32, fields: Fields, other: u32)
    requires
        fields.acked + fields.sacked <= u32::MAX,
        other != sock,
    ensures
        ({
            let after = view.noted(sock, fields);
            &&& after.cwnd == view.cwnd
            &&& after.ss_thresh == view.ss_thresh
            &&& after.curr_cwnd_reduction == view.curr_cwnd_reduction
            &&& after.init_cwnd == view.init_cwnd
            &&& after.num_flows == view.num_flows
            &&& after.subflow == view.subflow
            &&& after.subflow_cwnd == view.subflow_cwnd
            &&& on_record(view, after, sock, fields, other)
        }),
{
}

/// `after` has `fields` on record for `sock`, and of `other` what `view` has.
pub open spec fn on_record<C>(
    view: AggregateView<C>,
    after: AggregateView<C>,
    sock: u32,
    fields: Fields,
    other: u32,
) -> bool {
    &&& after.subflow_rtt.contains_key(sock)
    &&& after.subflow_rtt[sock] == fields.rtt
    &&& after.subflow_pending.contains_key(sock)
    &&& after.subflow_pending[sock] == fields.pending
    &&& after.subflow_inflight.contains_key(sock)
    &&& after.subflow_inflight[sock] == fields.inflight
    &&& after.subflow_util.contains_key(sock)
    &&& after.subflow_util[sock] == fields.acked + fields.sacked
    &&& same_entry(view.subflow_rtt, after.subflow_rtt, other)
    &&& same_entry(view.subflow_pending, after.subflow_pending, other)
    &&& same_entry(view.subflow_inflight, after.subflow_inflight, other)
    &&& same_entry(view.subflow_util, after.subflow_util, other)
}

/// Whatever a flow reports, the report is on record afterwards, and neither who belongs to
/// the aggregate nor what it started with changes.
pub proof fn law_reports_are_on_record<C>(
    view: AggregateView<C>,
    sock: u32,
    fields: Fields,
    other: u32,
)
    requires
        fields.acked + fields.sacked <= u32::MAX,
        other != sock,
    ensures
        ({
            let after = view.measured(sock, fields);
            &&& on_record(view, after, sock, fields, other)
            &&& after.subflow == view.subflow
            &&& after.num_flows == view.num_flows
            &&& after.init_cwnd == view.init_cwnd
        }),
{
}

/// A report of a timeout moves window and threshold as a timeout does, whatever else it
/// says, and the flows are told.
pub proof fn law_report_of_a_timeout<C>(
    view: AggregateView<C>,
    sock: u32,
    fields: Fields,
    flows: int,
)
    requires
        view.wf(),
        view.measurement_fits(sock, fields),
        flows == view.subflow.len() <= u32::MAX,
        fields.was_timeout,
    ensures
        view.must_announce(sock, fields),
        ({
            let after = view.measured(sock, fields);
            &&& after.ss_thresh == max(view.ss_thresh as int / 2, view.init_cwnd as int)
            &&& after.cwnd == (view.cwnd * (flows - 1)) / flows + view.init_cwnd
            &&& after.curr_cwnd_reduction == 0
            &&& fairly_divided(after)
        }),
{
    lemma_noted_is_wf(view, sock, fields);
    law_timing_out(view.noted(sock, fields), flows);
}

/// A report without a timeout first grows the window for the bytes acknowledged. If packets
/// were lost or misordered, the grown window is then reduced for them, and the flows are
/// told just if it shrinks.
pub proof fn law_report_of_losses<C>(
    view: AggregateView<C>,
    sock: u32,
    fields: Fields,
    flows: int,
)
    requires
        view.wf(),
        view.measurement_fits(sock, fields),
        flows == view.subflow.len() <= u32::MAX,
        !fields.was_timeout,
        fields.loss > 0 || fields.sacked > 0,
    ensures
        ({
            let after = view.measured(sock, fields);
            let grown = view.increased(fields.acked).cwnd;
            let shrunk = max(view.init_cwnd as int, grown - grown as int / (2 * flows));
            &&& after.curr_cwnd_reduction == view.curr_cwnd_reduction + fields.sacked
                + fields.loss
            &&& if (fields.loss > 0 && view.curr_cwnd_reduction == 0) || (fields.acked > 0
                && grown == view.ss_thresh) {
                &&& view.must_announce(sock, fields)
                &&& after.cwnd == shrunk
                &&& after.ss_thresh == shrunk
                &&& fairly_divided(after)
            } else {
                &&& !view.must_announce(sock, fields)
                &&& after.cwnd == grown
                &&& after.ss_thresh == view.ss_thresh
                &&& after.subflow_cwnd == view.subflow_cwnd
            }
        }),
{
    lemma_noted_is_wf(view, sock, fields);
    let grown = view.noted(sock, fields).increased(fields.acked);
    lemma_grown_is_wf(view.noted(sock, fields), fields.acked);
    if grown.must_reduce(fields.loss, fields.acked) {
        lemma_shrinks(grown, fields.loss, fields.sacked, fields.acked, flows);
    }
}

/// A report without timeout, loss or misordering grows the window for the bytes
/// acknowledged and leaves the threshold alone. Fewer bytes than are left to make up for
/// make up for a packet each packet's worth, and nobody is told anything; otherwise nothing
/// is left to make up for, the window is divided, and the flows are told.
pub proof fn law_report_without_losses<C>(view: AggregateView<C>, sock: u32, fields: Fields)
    requires
        view.wf(),
        view.measurement_fits(sock, fields),
        !fields.was_timeout,
        fields.loss == 0,
        fields.sacked == 0,
    ensures
        ({
            let after = view.measured(sock, fields);
            &&& after.cwnd == view.increased(fields.acked).cwnd
            &&& after.ss_thresh == view.ss_thresh
            &&& if fields.acked < view.curr_cwnd_reduction {
                &&& !view.must_announce(sock, fields)
                &&& after.curr_cwnd_reduction == view.curr_cwnd_reduction - fields.acked as int
                    / 1448
                &&& after.subflow_cwnd == view.subflow_cwnd
            } else {
                &&& view.must_announce(sock, fields)
                &&& after.curr_cwnd_reduction == 0
                &&& fairly_divided(after)
            }
        }),
{
    lemma_noted_is_wf(view, sock, fields);
    let grown = view.noted(sock, fields).increased(fields.acked);
    if fields.acked >= view.curr_cwnd_reduction {
        law_dividing(AggregateView { curr_cwnd_reduction: 0, ..grown });
    }
}

/// A report can be reacted to just if what it acknowledges stays within 32 bits and each
/// part of the reaction can be carried out.
pub proof fn law_when_a_report_can_be_handled<C>(view: AggregateView<C>, sock: u32, fields: Fields)
    ensures
        ({
            let noted = view.noted(sock, fields);
            let grown = noted.increased(fields.acked);
            view.measurement_fits(sock, fields) <==> {
                &&& fields.acked + fields.sacked <= u32::MAX
                &&& fields.was_timeout ==> noted.timeout_fits()
                &&& !fields.was_timeout ==> noted.increase_fits(fields.acked)
                &&& !fields.was_timeout && fields.loss + fields.sacked > 0
                    ==> grown.reduction_fits(fields.loss, fields.sacked, fields.acked)
                &&& !fields.was_timeout && fields.loss + fields.sacked == 0 && fields.acked
                    >= view.curr_cwnd_reduction ==> grown.can_allocate()
            }
        }),
{
}

proof fn lemma_noted_is_wf<C>(view: AggregateView<C>, sock: u32, fields: Fields)
    requires
        view.wf(),
    ensures
        view.noted(sock, fields).wf(),
        view.noted(sock, fields).flow_count() == view.flow_count(),
        view.noted(sock, fields).increased(fields.acked).cwnd == view.increased(fields.acked).cwnd,
{
    let after = view.noted(sock, fields);
    assert(after.subflow_pending.dom() =~= view.subflow_pending.dom().insert(sock));
    assert(after.subflow_rtt.dom() =~= after.subflow_pending.dom());
    assert(after.subflow_util.dom() =~= after.subflow_pending.dom());
    assert(after.subflow_inflight.dom() =~= after.subflow_pending.dom());
}

proof fn lemma_grown_is_wf<C>(view: AggregateView<C>, acked: u32)
    requires
        view.wf(),
        view.increase_fits(acked),
    ensures
        view.increased(acked).wf(),
{
    crate::laws::lemma_increase_grows(view.cwnd, view.ss_thresh, view.num_flows, acked);
}

} // verus!
