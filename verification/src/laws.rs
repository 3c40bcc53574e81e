//! What holds of the aggregate as a whole, beyond what single functions promise.

use crate::aggregate::{AggregateView, DatapathInfo};
use crate::allocation::{
    even_sharing, even_windows, fair_level, fair_level_exists, fair_sharing, fair_windows,
    lemma_level_at_least_split, lemma_proportional_share, lemma_served_domain, proportional_share,
    proportional_sharing, proportional_windows, served_in_order, KEPT_OUT_WINDOW,
};
use crate::flow_table::{
    ascending, ascends, enumerates, is_demand_order, lemma_ascending, lemma_demand_order,
    lemma_enumeration, lemma_listed, lemma_mapped_total, lemma_sum_drop_first, lemma_sum_take,
    lemma_sum_take_next, lemma_value_within_total, listed, sum, total, values_in,
};
use crate::measurement::Fields;
use crate::pattern::{
    addressed_to, announces, takes_turns, turn_pattern, waited_ns, window_pattern, Event, Message,
};
use crate::window::{
    additive_increase, after_slow_start, increase_fits, increased_window, left_by_slow_start,
    PACKET_BYTES,
};
use vstd::prelude::*;

verus! {

// ---------------------------------------------------------------------------
// Max-min fairness
// ---------------------------------------------------------------------------

/// With no more flows asking than there are to split among, the split never runs out.
proof fn lemma_fair_level_exists(demands: Seq<u32>, window: int, flows: int)
    requires
        demands.len() <= flows,
    ensures
        fair_level_exists(demands, window, flows),
    decreases demands.len(),
{
    if demands.len() > 0 {
        lemma_fair_level_exists(demands.drop_first(), window - demands[0], flows - 1);
    }
}

/// Max-min allocation works out wherever no more flows ask than have joined.
pub proof fn law_enough_flows_can_be_allocated(pending: Map<u32, u32>, window: u32, flows: u32)
    requires
        pending.dom().finite(),
        pending.len() <= flows,
    ensures
        fair_level_exists(ascending(pending), window as int, flows as int),
{
    let order = lemma_demand_order(pending);
    lemma_enumeration(order, pending);
    lemma_fair_level_exists(ascending(pending), window as int, flows as int);
}

proof fn lemma_level_not_negative(pending: Map<u32, u32>, window: u32, flows: u32)
    requires
        fair_level_exists(ascending(pending), window as int, flows as int),
    ensures
        fair_level(ascending(pending), window as int, flows as int) matches Some(level)
            ==> level >= 0,
{
    let demands = ascending(pending);
    lemma_level_at_least_split(demands, window as int, flows as int);
    if demands.len() > 0 {
        vstd::arithmetic::div_mod::lemma_div_pos_is_pos(window as int, flows as int);
    }
}

/// No flow gets more than it asks for.
pub proof fn law_fair_within_demand(
    pending: Map<u32, u32>,
    window: u32,
    flows: u32,
    sock_id: u32,
)
    requires
        fair_level_exists(ascending(pending), window as int, flows as int),
        pending.contains_key(sock_id),
    ensures
        fair_windows(pending, window, flows)[sock_id] <= pending[sock_id],
{
    lemma_level_not_negative(pending, window, flows);
}

/// Max-min fairness: a flow that gets less than it asks for gets no less than any other.
pub proof fn law_fair_max_min(
    pending: Map<u32, u32>,
    window: u32,
    flows: u32,
    short: u32,
    other: u32,
)
    requires
        fair_level_exists(ascending(pending), window as int, flows as int),
        pending.contains_key(short),
        pending.contains_key(other),
        fair_windows(pending, window, flows)[short] < pending[short],
    ensures
        fair_windows(pending, window, flows)[other] <= fair_windows(pending, window, flows)[short],
{
    lemma_level_not_negative(pending, window, flows);
}

/// A flow that gets less than it asks for gets the level.
pub proof fn law_level_of_a_short_flow(
    pending: Map<u32, u32>,
    window: u32,
    flows: u32,
    short: u32,
)
    requires
        fair_level_exists(ascending(pending), window as int, flows as int),
        pending.contains_key(short),
        fair_windows(pending, window, flows)[short] < pending[short],
    ensures
        fair_level(ascending(pending), window as int, flows as int) == Some(
            fair_windows(pending, window, flows)[short] as int,
        ),
{
    lemma_level_not_negative(pending, window, flows);
}

/// A flow that asks for more never gets less.
pub proof fn law_fair_monotone(
    pending: Map<u32, u32>,
    window: u32,
    flows: u32,
    small: u32,
    large: u32,
)
    requires
        fair_level_exists(ascending(pending), window as int, flows as int),
        pending.contains_key(small),
        pending.contains_key(large),
        pending[small] <= pending[large],
    ensures
        fair_windows(pending, window, flows)[small] <= fair_windows(pending, window, flows)[large],
{
    lemma_level_not_negative(pending, window, flows);
}

/// What demands of `demands` get at a level.
pub open spec fn fair_shares(demands: Seq<u32>, level: Option<int>) -> Seq<u32> {
    demands.map_values(fair_sharing(level))
}

proof fn lemma_fair_sum(demands: Seq<u32>, window: int, flows: int)
    requires
        ascends(demands),
        0 <= window,
        fair_level_exists(demands, window, flows),
    ensures
        match fair_level(demands, window, flows) {
            Some(level) => {
                let divided = sum(fair_shares(demands, Some(level))) + (flows - demands.len())
                    * level;
                divided <= window < divided + flows
            },
            None => sum(fair_shares(demands, None)) <= window,
        },
    decreases demands.len(),
{
    let level = fair_level(demands, window, flows);
    let shares = fair_shares(demands, level);
    lemma_level_at_least_split(demands, window, flows);
    if demands.len() > 0 {
        let rest = demands.drop_first();
        assert(shares.drop_first() =~= fair_shares(rest, level));
        lemma_sum_drop_first(shares);
        if demands[0] < window / flows {
            let demand = demands[0] as int;
            assert(demand <= window) by (nonlinear_arith)
                requires
                    flows > 0,
                    0 <= window,
                    demand < window / flows,
            ;
            assert forall|i: int, j: int| 0 <= i < j < rest.len() implies rest[i] <= rest[j] by {
                assert(demands[i + 1] <= demands[j + 1]);
            }
            lemma_fair_sum(rest, window - demand, flows - 1);
            assert(flows - 1 - rest.len() == flows - demands.len());
        } else {
            let split = window / flows;
            vstd::arithmetic::div_mod::lemma_div_pos_is_pos(window, flows);
            assert forall|i: int| 0 <= i < shares.len() implies #[trigger] shares[i] == split by {
                assert(demands[0] <= demands[i]);
            }
            lemma_sum_constant(shares, split as u32);
            let n = demands.len() as int;
            assert(n * split + (flows - n) * split <= window < n * split + (flows - n) * split
                + flows) by (nonlinear_arith)
                requires
                    flows > 0,
                    0 <= window,
                    split == window / flows,
            ;
        }
    }
}

proof fn lemma_sum_constant(s: Seq<u32>, value: u32)
    requires
        forall|i: int| 0 <= i < s.len() ==> s[i] == value,
    ensures
        sum(s) == s.len() * value,
    decreases s.len(),
{
    if s.len() > 0 {
        lemma_sum_constant(s.drop_last(), value);
        assert((s.len() - 1) * value + value == s.len() * value) by (nonlinear_arith);
    }
}

/// Where the window does not meet every demand, it is divided to within a byte per flow,
/// counting one level for each flow that has joined but does not ask, and one less for
/// each that asks but has not joined. Otherwise the flows get no more than the window.
pub proof fn law_fair_divides_window(pending: Map<u32, u32>, window: u32, flows: u32)
    requires
        pending.dom().finite(),
        fair_level_exists(ascending(pending), window as int, flows as int),
    ensures
        match fair_level(ascending(pending), window as int, flows as int) {
            Some(level) => {
                let divided = total(fair_windows(pending, window, flows)) + (flows
                    - pending.len()) * level;
                divided <= window < divided + flows
            },
            None => total(fair_windows(pending, window, flows)) <= window,
        },
{
    let level = fair_level(ascending(pending), window as int, flows as int);
    lemma_ascending(pending);
    lemma_mapped_total(pending, fair_sharing(level));
    lemma_fair_sum(ascending(pending), window as int, flows as int);
}

/// Together the flows get no more than the window, where no more flows ask than have
/// joined.
pub proof fn law_fair_within_window(pending: Map<u32, u32>, window: u32, flows: u32)
    requires
        pending.dom().finite(),
        pending.len() <= flows,
    ensures
        total(fair_windows(pending, window, flows)) <= window,
{
    law_enough_flows_can_be_allocated(pending, window, flows);
    law_fair_divides_window(pending, window, flows);
    lemma_level_not_negative(pending, window, flows);
    if let Some(level) = fair_level(ascending(pending), window as int, flows as int) {
        vstd::arithmetic::mul::lemma_mul_nonnegative(flows - pending.len(), level);
    }
}

/// The window is not held back: where every flow that has joined asks, and one gets less
/// than it asks for, what is left over is less than one byte per flow.
pub proof fn law_fair_uses_window(pending: Map<u32, u32>, window: u32, flows: u32, short: u32)
    requires
        pending.dom().finite(),
        pending.len() == flows,
        pending.contains_key(short),
        fair_windows(pending, window, flows)[short] < pending[short],
    ensures
        total(fair_windows(pending, window, flows)) + flows > window,
{
    law_enough_flows_can_be_allocated(pending, window, flows);
    law_fair_divides_window(pending, window, flows);
}

// ---------------------------------------------------------------------------
// The other ways to divide the window
// ---------------------------------------------------------------------------

/// An even split hands out the same to each flow that asks, and no more than the window
/// where no more flows ask than have joined.
pub proof fn law_even_within_window(pending: Map<u32, u32>, window: u32, flows: u32)
    requires
        pending.dom().finite(),
        pending.len() > 0 ==> flows > 0,
    ensures
        total(even_windows(pending, window, flows)) == pending.len() * (window / flows),
        pending.len() <= flows ==> total(even_windows(pending, window, flows)) <= window,
{
    let split = window / flows;
    let share = even_sharing(window, flows);
    lemma_ascending(pending);
    lemma_mapped_total(pending, share);
    lemma_sum_constant(ascending(pending).map_values(share), split);
    let asking = pending.len();
    if 0 < asking <= flows {
        assert(asking * split <= window) by (nonlinear_arith)
            requires
                asking <= flows,
                flows > 0,
                split == window / flows,
        ;
    }
}

/// What demands of `demands` get in proportion.
pub open spec fn proportional_shares(demands: Seq<u32>, window: u32, total_demand: nat) -> Seq<
    u32,
> {
    demands.map_values(proportional_sharing(window, total_demand))
}

/// The shares fall short of the exact parts of the window by less than one each.
proof fn lemma_proportional_sum(demands: Seq<u32>, window: u32, total_demand: nat)
    requires
        total_demand > 0,
        forall|i: int| 0 <= i < demands.len() ==> demands[i] <= total_demand,
    ensures
        ({
            let given = sum(proportional_shares(demands, window, total_demand)) * total_demand;
            let asked = window * sum(demands);
            given <= asked <= given + demands.len() * (total_demand - 1)
        }),
    decreases demands.len(),
{
    let shares = proportional_shares(demands, window, total_demand);
    let t = total_demand as int;
    if demands.len() > 0 {
        let rest = demands.drop_last();
        let rest_shares = proportional_shares(rest, window, total_demand);
        lemma_proportional_sum(rest, window, total_demand);
        assert(shares.drop_last() =~= rest_shares);
        let demand = demands.last();
        let share = proportional_share(demand, window, total_demand);
        lemma_proportional_share(demand, window, total_demand);
        assert(shares.last() == share);
        let part = window * demand;
        let exact = part / t;
        assert(exact * t <= part <= exact * t + (t - 1)) by (nonlinear_arith)
            requires
                t > 0,
                exact == part / t,
        ;
        assert((sum(rest_shares) + share) * t == sum(rest_shares) * t + share * t)
            by (nonlinear_arith);
        assert(window * (sum(rest) + demand) == window * sum(rest) + window * demand)
            by (nonlinear_arith);
        assert((demands.len() - 1) * (t - 1) + (t - 1) == demands.len() * (t - 1))
            by (nonlinear_arith);
    } else {
        assert(0 * total_demand == 0 && window * 0 == 0 && 0 * (t - 1) == 0) by (nonlinear_arith);
        assert(sum(shares) == 0 && sum(demands) == 0);
    }
}

/// Dividing in proportion to demand hands out the entire window: no more than it, and what
/// rounding leaves over is less than one byte per flow.
pub proof fn law_proportional_divides_window(pending: Map<u32, u32>, window: u32)
    requires
        pending.dom().finite(),
        total(pending) > 0,
    ensures
        total(proportional_windows(pending, window)) <= window < total(
            proportional_windows(pending, window),
        ) + pending.len(),
{
    let demands = ascending(pending);
    lemma_ascending(pending);
    lemma_mapped_total(pending, proportional_sharing(window, total(pending)));
    lemma_proportional_sum(demands, window, total(pending));
    let given = total(proportional_windows(pending, window)) as int;
    let asked = total(pending) as int;
    let flows = pending.len() as int;
    assert(flows > 0);
    assert(given <= window < given + flows) by (nonlinear_arith)
        requires
            given * asked <= window * asked <= given * asked + flows * (asked - 1),
            asked > 0,
            flows > 0,
    ;
}

/// In proportion to demand, a flow that asks for more never gets less.
pub proof fn law_proportional_monotone(
    pending: Map<u32, u32>,
    window: u32,
    small: u32,
    large: u32,
)
    requires
        pending.dom().finite(),
        total(pending) > 0,
        pending.contains_key(small),
        pending.contains_key(large),
        pending[small] <= pending[large],
    ensures
        proportional_windows(pending, window)[small] <= proportional_windows(
            pending,
            window,
        )[large],
{
    let (less, more) = (pending[small], pending[large]);
    lemma_value_within_total(pending, small);
    lemma_value_within_total(pending, large);
    lemma_proportional_share(less, window, total(pending));
    lemma_proportional_share(more, window, total(pending));
    assert(window * less <= window * more) by (nonlinear_arith)
        requires
            0 <= less <= more,
            0 <= window,
    ;
    vstd::arithmetic::div_mod::lemma_div_is_ordered(
        window * less,
        window * more,
        total(pending) as int,
    );
}

/// While the window lasts, the flows served so far together have all they asked for or
/// all of the window.
pub proof fn law_served_until_used_up(order: Seq<(u32, u32)>, window: u32, n: int)
    requires
        0 <= n < order.len(),
        sum(values_in(order).take(n)) < window,
    ensures
        sum(values_in(served_in_order(order, window)).take(n + 1)) == (if sum(
            values_in(order).take(n + 1),
        ) < window {
            sum(values_in(order).take(n + 1)) as int
        } else {
            window as int
        }),
    decreases n,
{
    let asked = values_in(order);
    let given = values_in(served_in_order(order, window));
    lemma_sum_take_next(asked, n);
    lemma_sum_take_next(given, n);
    if n > 0 {
        lemma_sum_take_next(asked, n - 1);
        law_served_until_used_up(order, window, n - 1);
    } else {
        assert(asked.take(0) =~= Seq::empty());
        assert(given.take(0) =~= Seq::empty());
    }
}

/// Flows are kept out from the back: once a flow gets less than it asks for, every flow
/// after it is kept out.
pub proof fn law_served_kept_out_from_the_back(
    order: Seq<(u32, u32)>,
    window: u32,
    short: int,
    later: int,
)
    requires
        0 <= short < later < order.len(),
        served_in_order(order, window)[short].1 < order[short].1,
    ensures
        served_in_order(order, window)[later].1 == KEPT_OUT_WINDOW,
{
    let asked = values_in(order);
    lemma_sum_take_next(asked, short);
    lemma_sum_take(asked.take(later), short + 1);
    assert(asked.take(later).take(short + 1) =~= asked.take(short + 1));
}

/// Shortest first keeps larger flows out: of two flows, the one that asks for more is
/// never served in full while the other is not.
pub proof fn law_served_smaller_first(
    order: Seq<(u32, u32)>,
    pending: Map<u32, u32>,
    window: u32,
    small: int,
    large: int,
)
    requires
        is_demand_order(order, pending),
        0 <= small < order.len(),
        0 <= large < order.len(),
        order[small].1 < order[large].1,
        served_in_order(order, window)[large].1 >= order[large].1,
    ensures
        served_in_order(order, window)[small].1 >= order[small].1,
{
    let asked = values_in(order);
    if large <= small {
        assert(asked[large] == order[large].1 && asked[small] == order[small].1);
        if large < small {
            assert(asked[large] <= asked[small]);
        }
    } else if served_in_order(order, window)[small].1 < order[small].1 {
        law_served_kept_out_from_the_back(order, window, small, large);
    }
}

/// Where there is room for all that the flows ask for, each gets just that, whatever the
/// order; if it fills the window, every flow must ask for something, for one that is served
/// after that is treated as kept out.
pub proof fn law_served_with_room(order: Seq<(u32, u32)>, pending: Map<u32, u32>, window: u32)
    requires
        enumerates(order, pending),
        total(pending) <= window,
        total(pending) == window ==> forall|k: u32| #[trigger]
            pending.contains_key(k) ==> pending[k] > 0,
    ensures
        listed(served_in_order(order, window)) == pending,
{
    let asked = values_in(order);
    lemma_enumeration(order, pending);
    assert forall|i: int| 0 <= i < order.len() implies served_in_order(order, window)[i]
        == order[i] by {
        lemma_sum_take(asked, i + 1);
        lemma_sum_take_next(asked, i);
        assert(pending.contains_key(order[i].0));
    }
    assert(served_in_order(order, window) =~= order);
    lemma_listed(order, pending);
}

/// Whatever its turn, a flow's pattern takes as long as all turns together.
pub proof fn law_turns_end_together(turn: int, flows: int, interval: u32, cwnd: u32)
    requires
        0 <= turn < flows,
        interval * (flows - 1) <= u32::MAX,
    ensures
        waited_ns(turn_pattern(turn, flows, interval, cwnd)) == interval * flows,
{
    reveal_with_fuel(waited_ns, 8);
    let p = turn_pattern(turn, flows, interval, cwnd);
    lemma_turn_times(turn, flows, interval);
    let p6 = p.drop_last();
    let p5 = p6.drop_last();
    let p4 = p5.drop_last();
    let p3 = p4.drop_last();
    let p2 = p3.drop_last();
    let p1 = p2.drop_last();
    assert(p1.drop_last() =~= Seq::empty());
    assert(p.last() == Event::Report);
    assert(p6.last() == p[5] && p5.last() == p[4] && p4.last() == p[3] && p3.last() == p[2]
        && p2.last() == p[1] && p1.last() == p[0]);
    assert(interval * turn + interval + interval * (flows - 1 - turn) == interval * flows)
        by (nonlinear_arith);
}

/// The waits before and after a turn stay within 32 bits.
pub proof fn lemma_turn_times(turn: int, flows: int, interval: u32)
    requires
        0 <= turn < flows,
        interval * (flows - 1) <= u32::MAX,
    ensures
        0 <= interval * turn <= u32::MAX,
        0 <= interval * (flows - 1 - turn) <= u32::MAX,
{
    assert(0 <= interval * turn <= interval * (flows - 1)) by (nonlinear_arith)
        requires
            0 <= turn < flows,
            0 <= interval,
    ;
    assert(0 <= interval * (flows - 1 - turn) <= interval * (flows - 1)) by (nonlinear_arith)
        requires
            0 <= turn < flows,
            0 <= interval,
    ;
}

/// When a pattern first raises the window, in nanoseconds from its start.
pub open spec fn turn_start(pattern: Seq<Event>) -> int {
    waited_ns(pattern.take(2))
}

/// When a pattern lowers the window again.
pub open spec fn turn_end(pattern: Seq<Event>) -> int {
    waited_ns(pattern.take(4))
}

/// Only one flow has the window at a time: an earlier turn is over when a later one
/// starts.
pub proof fn law_turns_do_not_overlap(
    earlier: int,
    later: int,
    flows: int,
    interval: u32,
    cwnd: u32,
)
    requires
        0 <= earlier < later < flows,
        interval * (flows - 1) <= u32::MAX,
    ensures
        turn_end(turn_pattern(earlier, flows, interval, cwnd)) <= turn_start(
            turn_pattern(later, flows, interval, cwnd),
        ),
{
    reveal_with_fuel(waited_ns, 5);
    lemma_turn_times(earlier, flows, interval);
    lemma_turn_times(later, flows, interval);
    let e4 = turn_pattern(earlier, flows, interval, cwnd).take(4);
    let e3 = e4.drop_last();
    let e2 = e3.drop_last();
    let e1 = e2.drop_last();
    assert(e1.drop_last() =~= Seq::empty());
    assert(waited_ns(e4) == interval * earlier + interval);
    let l2 = turn_pattern(later, flows, interval, cwnd).take(2);
    let l1 = l2.drop_last();
    assert(l1.drop_last() =~= Seq::empty());
    assert(waited_ns(l2) == interval * later);
    assert(interval * earlier + interval <= interval * later) by (nonlinear_arith)
        requires
            earlier + 1 <= later,
            0 <= interval,
    ;
}

// ---------------------------------------------------------------------------
// The window over time
// ---------------------------------------------------------------------------

/// Below the threshold the window grows by exactly the bytes acknowledged.
pub proof fn law_slow_start_counts_bytes(cwnd: u32, ss_thresh: u32, flows: u32, acked: u32)
    requires
        0 < cwnd + acked <= ss_thresh,
    ensures
        increased_window(cwnd, ss_thresh, flows, acked) == cwnd + acked,
{
    lemma_no_full_window(cwnd, ss_thresh, flows, acked);
}

/// Slow start stops at the threshold: unless a whole further window is acknowledged at
/// once, a window below the threshold does not pass it.
pub proof fn law_slow_start_stops_at_threshold(
    cwnd: u32,
    ss_thresh: u32,
    flows: u32,
    acked: u32,
)
    requires
        cwnd < ss_thresh,
        ss_thresh <= cwnd + acked < 2 * ss_thresh,
    ensures
        increased_window(cwnd, ss_thresh, flows, acked) == ss_thresh,
{
    lemma_no_full_window(cwnd, ss_thresh, flows, acked);
}

proof fn lemma_no_full_window(cwnd: u32, ss_thresh: u32, flows: u32, acked: u32)
    requires
        left_by_slow_start(cwnd, ss_thresh, acked) < after_slow_start(cwnd, ss_thresh, acked),
    ensures
        additive_increase(cwnd, ss_thresh, flows, acked) == 0,
{
    let started = after_slow_start(cwnd, ss_thresh, acked);
    let left = left_by_slow_start(cwnd, ss_thresh, acked);
    vstd::arithmetic::div_mod::lemma_basic_div(left, started);
    assert(PACKET_BYTES * flows * 0 == 0);
}

/// Acknowledged bytes never make the window smaller.
pub proof fn lemma_increase_grows(cwnd: u32, ss_thresh: u32, flows: u32, acked: u32)
    requires
        increase_fits(cwnd, ss_thresh, flows, acked),
    ensures
        cwnd <= increased_window(cwnd, ss_thresh, flows, acked) <= u32::MAX,
{
    let started = after_slow_start(cwnd, ss_thresh, acked);
    let left = left_by_slow_start(cwnd, ss_thresh, acked);
    vstd::arithmetic::div_mod::lemma_div_pos_is_pos(left, started);
    vstd::arithmetic::mul::lemma_mul_nonnegative(PACKET_BYTES * flows, left / started);
}

/// A report without timeout, loss or misordering never shrinks the window, and leaves the
/// threshold alone.
pub proof fn law_clean_report_never_shrinks<C>(
    view: AggregateView<C>,
    sock_id: u32,
    fields: Fields,
)
    requires
        view.wf(),
        view.measurement_fits(sock_id, fields),
        !fields.was_timeout,
        fields.loss == 0,
        fields.sacked == 0,
    ensures
        view.measured(sock_id, fields).cwnd >= view.cwnd,
        view.measured(sock_id, fields).ss_thresh == view.ss_thresh,
{
    lemma_increase_grows(view.cwnd, view.ss_thresh, view.num_flows, fields.acked);
}

/// Shrinking the window for a loss never makes it larger, nor smaller than half of it or
/// than the initial window, and moves the threshold to it.
pub proof fn law_shrinking_is_bounded<C>(view: AggregateView<C>)
    requires
        view.wf(),
        view.flow_count() > 0,
    ensures
        view.init_cwnd <= view.shrunk().cwnd <= view.cwnd,
        view.cwnd <= 2 * view.shrunk().cwnd,
        view.shrunk().ss_thresh == view.shrunk().cwnd,
{
    let flows = view.flow_count();
    vstd::arithmetic::div_mod::lemma_div_pos_is_pos(view.cwnd as int, 2 * flows);
    vstd::arithmetic::div_mod::lemma_div_is_ordered_by_denominator(
        view.cwnd as int,
        2,
        2 * flows,
    );
}

/// A loss is answered once: while earlier losses are being made up for, and the window is
/// not probing the threshold, further losses change neither window nor threshold.
pub proof fn law_losses_are_answered_once<C>(
    view: AggregateView<C>,
    loss: u32,
    sacked: u32,
    acked: u32,
)
    requires
        view.curr_cwnd_reduction > 0,
        acked == 0 || view.cwnd != view.ss_thresh,
    ensures
        view.reduced(loss, sacked, acked) == (AggregateView {
            curr_cwnd_reduction: (view.curr_cwnd_reduction + sacked + loss) as u32,
            ..view
        }),
{
}

/// A timeout clears what earlier losses left to make up for, leaves window and threshold
/// at the initial window or above, and adds no more than that to the window.
pub proof fn law_timeout_starts_over<C>(view: AggregateView<C>, sock_id: u32, fields: Fields)
    requires
        view.wf(),
        view.measurement_fits(sock_id, fields),
        fields.was_timeout,
    ensures
        view.measured(sock_id, fields).curr_cwnd_reduction == 0,
        view.init_cwnd <= view.measured(sock_id, fields).cwnd <= view.cwnd + view.init_cwnd,
        view.measured(sock_id, fields).ss_thresh >= view.init_cwnd,
        view.measured(sock_id, fields).ss_thresh <= view.ss_thresh || view.measured(
            sock_id,
            fields,
        ).ss_thresh == view.init_cwnd,
{
    let flows = view.flow_count();
    assert(view.noted(sock_id, fields).flow_count() == flows);
    vstd::arithmetic::mul::lemma_mul_nonnegative(view.cwnd as int, flows - 1);
    vstd::arithmetic::div_mod::lemma_div_pos_is_pos(view.cwnd * (flows - 1), flows);
    let cwnd = view.cwnd as int;
    assert((cwnd * (flows - 1)) / flows <= cwnd) by (nonlinear_arith)
        requires
            flows > 0,
            cwnd >= 0,
    ;
}

/// A report is about one flow: it changes what is known of no other, and neither who
/// belongs to the aggregate nor what it started with.
pub proof fn law_report_is_about_one_flow<C>(
    view: AggregateView<C>,
    sock_id: u32,
    fields: Fields,
    other: u32,
)
    requires
        other != sock_id,
    ensures
        ({
            let after = view.measured(sock_id, fields);
            &&& after.subflow == view.subflow
            &&& after.num_flows == view.num_flows
            &&& after.init_cwnd == view.init_cwnd
            &&& after.subflow_pending[sock_id] == fields.pending
            &&& after.subflow_rtt[sock_id] == fields.rtt
            &&& after.subflow_inflight[sock_id] == fields.inflight
            &&& after.subflow_pending.contains_key(other) == view.subflow_pending.contains_key(
                other,
            )
            &&& after.subflow_pending[other] == view.subflow_pending[other]
            &&& after.subflow_rtt[other] == view.subflow_rtt[other]
            &&& after.subflow_util[other] == view.subflow_util[other]
            &&& after.subflow_inflight[other] == view.subflow_inflight[other]
        }),
{
}

/// A flow that can be reached stays so: the founder from the start, and every flow whoever
/// joins after it.
pub proof fn law_channels_are_kept<C>(
    view: AggregateView<C>,
    control: C,
    info: DatapathInfo,
    sock_id: u32,
)
    ensures
        AggregateView::founded(control, info).subflow.contains_key(info.sock_id),
        view.subflow.contains_key(sock_id) ==> view.joined(
            control,
            info,
        ).allocated().subflow.contains_key(sock_id),
        view.joined(control, info).allocated().subflow[info.sock_id] == control,
{
}

/// Flows are told of their windows whenever these are divided anew, and then all windows
/// are the fair ones for the new state; otherwise every flow keeps its window, and there
/// are losses left to make up for.
pub proof fn law_windows_are_current_or_kept<C>(
    view: AggregateView<C>,
    sock_id: u32,
    fields: Fields,
)
    requires
        view.measurement_fits(sock_id, fields),
    ensures
        ({
            let after = view.measured(sock_id, fields);
            if view.must_announce(sock_id, fields) {
                after == after.allocated()
            } else {
                after.subflow_cwnd == view.subflow_cwnd && after.curr_cwnd_reduction > 0
            }
        }),
{
    let after = view.measured(sock_id, fields);
    if view.must_announce(sock_id, fields) {
        assert(after =~= after.allocated());
    }
}

/// As long as only flows that joined have reported, the window can be divided, a further
/// flow can join, and that stays so.
pub proof fn law_members_can_join<C>(view: AggregateView<C>, control: C, info: DatapathInfo)
    requires
        view.wf(),
        view.subflow_pending.len() <= view.num_flows < u32::MAX,
    ensures
        view.can_allocate(),
        view.join_fits(control, info),
        ({
            let after = view.joined(control, info).allocated();
            after.subflow_pending.len() <= after.num_flows
        }),
{
    let after = view.joined(control, info);
    assert(after.subflow_pending.dom() =~= view.subflow_pending.dom().insert(info.sock_id));
    law_enough_flows_can_be_allocated(view.subflow_pending, view.cwnd, view.num_flows);
    law_enough_flows_can_be_allocated(after.subflow_pending, after.cwnd, after.num_flows);
}

/// As long as only flows that joined have reported, a further report of one of them keeps
/// it so, and the window can be divided whatever the reaction made of it.
pub proof fn law_members_can_report<C>(view: AggregateView<C>, sock_id: u32, fields: Fields)
    requires
        view.wf(),
        view.subflow_pending.len() <= view.num_flows,
        view.subflow_pending.contains_key(sock_id),
    ensures
        view.measured(sock_id, fields).subflow_pending.len() == view.subflow_pending.len(),
        view.measured(sock_id, fields).num_flows == view.num_flows,
        view.measured(sock_id, fields).can_allocate(),
{
    let after = view.measured(sock_id, fields);
    assert(after.subflow_pending.dom() =~= view.subflow_pending.dom());
    law_enough_flows_can_be_allocated(after.subflow_pending, after.cwnd, after.num_flows);
}

// ---------------------------------------------------------------------------
// Who is told
// ---------------------------------------------------------------------------

/// A flow is a member of the aggregate: it can be reached, and what it has pending is known.
pub open spec fn is_member<C>(view: AggregateView<C>, sock_id: u32) -> bool {
    view.subflow.contains_key(sock_id) && view.subflow_pending.contains_key(sock_id)
}

/// Just one of the messages is addressed to a flow, and it holds `pattern`.
pub open spec fn told_once(messages: Seq<Message>, sock_id: u32, pattern: Seq<Event>) -> bool {
    exists|i: int|
        {
            &&& 0 <= i < messages.len()
            &&& (#[trigger] messages[i]).sock_id == sock_id
            &&& messages[i].pattern@ == pattern
            &&& forall|j: int|
                0 <= j < messages.len() && (#[trigger] messages[j]).sock_id == sock_id ==> j == i
        }
}

/// A flow that joins is a member, and a member stays one whoever joins.
pub proof fn law_joining_keeps_members<C>(
    view: AggregateView<C>,
    control: C,
    info: DatapathInfo,
    member: u32,
)
    ensures
        is_member(view.joined(control, info).allocated(), info.sock_id),
        is_member(view, member) ==> is_member(view.joined(control, info).allocated(), member),
{
}

/// A member stays one whatever is reported, and a flow that can be reached is a member once
/// it has reported.
pub proof fn law_reports_keep_members<C>(
    view: AggregateView<C>,
    sock_id: u32,
    fields: Fields,
    member: u32,
)
    ensures
        is_member(view, member) ==> is_member(view.measured(sock_id, fields), member),
        view.subflow.contains_key(sock_id) ==> is_member(
            view.measured(sock_id, fields),
            sock_id,
        ),
{
}

/// However the window is divided, the flows that get a window are those of which it is
/// known what they have pending.
pub proof fn law_every_division_covers_pending(
    pending: Map<u32, u32>,
    window: u32,
    flows: u32,
    order: Seq<(u32, u32)>,
)
    requires
        enumerates(order, pending),
    ensures
        fair_windows(pending, window, flows).dom() == pending.dom(),
        even_windows(pending, window, flows).dom() == pending.dom(),
        proportional_windows(pending, window).dom() == pending.dom(),
        listed(served_in_order(order, window)).dom() == pending.dom(),
{
    assert(fair_windows(pending, window, flows).dom() =~= pending.dom());
    assert(even_windows(pending, window, flows).dom() =~= pending.dom());
    assert(proportional_windows(pending, window).dom() =~= pending.dom());
    lemma_served_domain(order, pending, window);
}

/// An announcement tells each flow that has a window and can be reached just once, and
/// tells it its window.
pub proof fn law_announced_once(
    messages: Seq<Message>,
    windows: Map<u32, u32>,
    channels: Set<u32>,
    sock_id: u32,
)
    requires
        announces(messages, windows, channels),
        windows.contains_key(sock_id),
        channels.contains(sock_id),
    ensures
        told_once(messages, sock_id, window_pattern(windows[sock_id])),
{
    assert(windows.dom().intersect(channels).contains(sock_id));
    let i = choose|i: int| 0 <= i < messages.len() && (#[trigger] messages[i]).sock_id == sock_id;
    lemma_addressed_once(messages, windows.dom().intersect(channels), i);
    assert(messages[i].pattern@ == window_pattern(windows[sock_id]));
}

/// Patterns go to all members: whenever the window is divided, by whichever way, and
/// announced, each member is told its window just once.
pub proof fn law_members_are_told<C>(
    view: AggregateView<C>,
    windows: Map<u32, u32>,
    messages: Seq<Message>,
    member: u32,
)
    requires
        is_member(view, member),
        windows.dom() == view.subflow_pending.dom(),
        announces(messages, windows, view.subflow.dom()),
    ensures
        told_once(messages, member, window_pattern(windows[member])),
{
    assert(windows.dom().contains(member));
    law_announced_once(messages, windows, view.subflow.dom(), member);
}

/// When a flow joins, it and every member before it are told their new windows just once.
pub proof fn law_members_hear_of_a_new_flow<C>(
    view: AggregateView<C>,
    control: C,
    info: DatapathInfo,
    messages: Seq<Message>,
    member: u32,
)
    requires
        member == info.sock_id || is_member(view, member),
        ({
            let after = view.joined(control, info).allocated();
            announces(messages, after.subflow_cwnd, after.subflow.dom())
        }),
    ensures
        told_once(
            messages,
            member,
            window_pattern(view.joined(control, info).allocated().subflow_cwnd[member]),
        ),
{
    let after = view.joined(control, info).allocated();
    law_joining_keeps_members(view, control, info, member);
    assert(after.subflow_cwnd.dom() =~= after.subflow_pending.dom());
    law_members_are_told(after, after.subflow_cwnd, messages, member);
}

/// When one report leads to an announcement, every member is told its new window just once.
pub proof fn law_members_hear_of_a_report<C>(
    view: AggregateView<C>,
    sock_id: u32,
    fields: Fields,
    messages: Seq<Message>,
    member: u32,
)
    requires
        is_member(view, member),
        view.measurement_fits(sock_id, fields),
        view.must_announce(sock_id, fields),
        ({
            let after = view.measured(sock_id, fields);
            announces(messages, after.subflow_cwnd, after.subflow.dom())
        }),
    ensures
        told_once(
            messages,
            member,
            window_pattern(view.measured(sock_id, fields).subflow_cwnd[member]),
        ),
{
    let after = view.measured(sock_id, fields);
    law_reports_keep_members(view, sock_id, fields, member);
    law_windows_are_current_or_kept(view, sock_id, fields);
    assert(after.subflow_cwnd.dom() =~= after.subflow_pending.dom());
    law_members_are_told(after, after.subflow_cwnd, messages, member);
}

/// Where flows take turns, each that can be reached has just one turn.
pub proof fn law_everyone_has_a_turn(
    messages: Seq<Message>,
    socks: Set<u32>,
    interval: u32,
    cwnd: u32,
    sock_id: u32,
)
    requires
        takes_turns(messages, socks, interval, cwnd),
        socks.contains(sock_id),
    ensures
        exists|turn: int|
            0 <= turn < messages.len() && #[trigger] told_once(
                messages,
                sock_id,
                turn_pattern(turn, messages.len() as int, interval, cwnd),
            ),
{
    let i = choose|i: int| 0 <= i < messages.len() && (#[trigger] messages[i]).sock_id == sock_id;
    lemma_addressed_once(messages, socks, i);
    let pattern = turn_pattern(i, messages.len() as int, interval, cwnd);
    assert(messages[i].pattern@ == pattern);
    assert(told_once(messages, sock_id, pattern));
}

proof fn lemma_addressed_once(messages: Seq<Message>, socks: Set<u32>, i: int)
    requires
        addressed_to(messages, socks),
        0 <= i < messages.len(),
    ensures
        forall|j: int|
            0 <= j < messages.len() && (#[trigger] messages[j]).sock_id == messages[i].sock_id
                ==> j == i,
{
    assert forall|j: int|
        0 <= j < messages.len() && (#[trigger] messages[j]).sock_id
            == messages[i].sock_id implies j == i by {
        if j < i {
            assert(messages[j].sock_id != messages[i].sock_id);
        } else if i < j {
            assert(messages[i].sock_id != messages[j].sock_id);
        }
    }
}

} // verus!
