//! The max-min division, flow by flow, in terms of the flows that ask for less.
//!
//! Let the flows that ask for less than some flow be served first. The flow *fits* if what
//! it asks for lies strictly below an even split of what they leave of the window among the
//! flows they leave. Flows are served in full up to the first demand that does not fit, and
//! from there on all flows get the split at that demand.

use crate::aggregate::AggregateView;
use crate::allocation::{fair_level, fair_level_exists, fair_windows, lemma_level_at_least_split};
use crate::flow_table::{
    ascending, ascends, enumerates, is_demand_order, lemma_demand_order, lemma_enumeration,
    lemma_sum_take_next, sum, total, values_in,
};
use vstd::prelude::*;

verus! {

/// The entries of flows that ask for less than `demand`.
pub open spec fn below(pending: Map<u32, u32>, demand: int) -> Map<u32, u32> {
    pending.restrict(Set::new(|sock: u32| pending.contains_key(sock) && pending[sock] < demand))
}

/// An even split of what is left of `window` when the flows that ask for less than `demand`
/// have what they ask for, among the flows that are left of `flows`.
pub open spec fn split_at(pending: Map<u32, u32>, window: int, flows: int, demand: int) -> int {
    (window - total(below(pending, demand))) / (flows - below(pending, demand).len())
}

/// What a flow asks for lies strictly below the split at its demand.
pub open spec fn fits(pending: Map<u32, u32>, window: int, flows: int, sock: u32) -> bool {
    pending[sock] < split_at(pending, window, flows, pending[sock] as int)
}

/// Every flow that asks for less than `demand` fits.
pub open spec fn all_below_fit(
    pending: Map<u32, u32>,
    window: int,
    flows: int,
    demand: int,
) -> bool {
    forall|sock: u32| #[trigger]
        pending.contains_key(sock) && pending[sock] < demand ==> fits(pending, window, flows, sock)
}

/// `demands[i]` lies strictly below the split that the demands before it leave.
spec fn met_at(demands: Seq<u32>, window: int, flows: int, i: int) -> bool {
    demands[i] < (window - sum(demands.take(i))) / (flows - i)
}

/// If all demands before the one with number `n` are met, a flow is left for it.
spec fn flow_left(demands: Seq<u32>, window: int, flows: int, n: int) -> bool {
    (forall|i: int| 0 <= i < n ==> #[trigger] met_at(demands, window, flows, i)) ==> flows > n
}

/// Demands that are met leave the filling to those after them.
proof fn lemma_after_met(demands: Seq<u32>, window: int, flows: int, n: int)
    requires
        0 <= n <= demands.len(),
        forall|i: int| 0 <= i < n ==> #[trigger] met_at(demands, window, flows, i),
    ensures
        fair_level(demands, window, flows) == fair_level(
            demands.skip(n),
            window - sum(demands.take(n)),
            flows - n,
        ),
        fair_level_exists(demands, window, flows) <==> ((n > 0 ==> flows >= n)
            && fair_level_exists(
            demands.skip(n),
            window - sum(demands.take(n)),
            flows - n,
        )),
    decreases n,
{
    if n == 0 {
        assert(demands.skip(0) =~= demands);
        assert(demands.take(0) =~= Seq::empty());
    } else {
        lemma_after_met(demands, window, flows, n - 1);
        lemma_sum_take_next(demands, n - 1);
        assert(met_at(demands, window, flows, n - 1));
        let open = demands.skip(n - 1);
        assert(open[0] == demands[n - 1]);
        assert(open.drop_first() =~= demands.skip(n));
    }
}

/// Filling always has a flow left to split among just if it has one at every demand that
/// comes after demands that are met.
proof fn lemma_exists_by_index(demands: Seq<u32>, window: int, flows: int, from: int)
    requires
        0 <= from <= demands.len(),
        forall|i: int| 0 <= i < from ==> #[trigger] met_at(demands, window, flows, i),
        forall|n: int|
            from <= n < demands.len() ==> #[trigger] flow_left(demands, window, flows, n),
    ensures
        fair_level_exists(demands.skip(from), window - sum(demands.take(from)), flows - from),
    decreases demands.len() - from,
{
    if from < demands.len() {
        let open = demands.skip(from);
        assert(open[0] == demands[from]);
        assert(open.drop_first() =~= demands.skip(from + 1));
        assert(flow_left(demands, window, flows, from));
        if met_at(demands, window, flows, from) {
            lemma_sum_take_next(demands, from);
            lemma_exists_by_index(demands, window, flows, from + 1);
        }
    }
}

/// Where demands come in ascending order, those below `demand` are the first ones.
proof fn lemma_below_is_prefix(
    order: Seq<(u32, u32)>,
    pending: Map<u32, u32>,
    demand: int,
) -> (n: int)
    requires
        is_demand_order(order, pending),
    ensures
        0 <= n <= order.len(),
        forall|i: int| 0 <= i < n ==> (#[trigger] order[i]).1 < demand,
        forall|i: int| n <= i < order.len() ==> (#[trigger] order[i]).1 >= demand,
        below(pending, demand).dom().finite(),
        below(pending, demand).len() == n,
        total(below(pending, demand)) == sum(values_in(order).take(n)),
{
    let values = values_in(order);
    let n = lemma_first_at_least(values, demand);
    let part = order.take(n);
    let smaller = below(pending, demand);
    assert forall|i: int| 0 <= i < n implies (#[trigger] order[i]).1 < demand by {
        assert(values[i] == order[i].1);
    }
    assert forall|i: int| n <= i < order.len() implies (#[trigger] order[i]).1 >= demand by {
        assert(values[i] == order[i].1);
    }
    assert(enumerates(part, smaller)) by {
        assert forall|i: int| 0 <= i < part.len() implies smaller.contains_key(
            (#[trigger] part[i]).0,
        ) && smaller[part[i].0] == part[i].1 by {
            assert(part[i] == order[i]);
        }
        assert forall|k: u32| #[trigger] smaller.contains_key(k) implies exists|i: int|
            0 <= i < part.len() && (#[trigger] part[i]).0 == k by {
            assert(pending.contains_key(k));
            let i = choose|i: int| 0 <= i < order.len() && (#[trigger] order[i]).0 == k;
            assert(order[i].1 < demand);
            assert(part[i].0 == k);
        }
    }
    lemma_enumeration(part, smaller);
    assert(values_in(part) =~= values.take(n));
    n
}

proof fn lemma_first_at_least(values: Seq<u32>, demand: int) -> (n: int)
    requires
        ascends(values),
    ensures
        0 <= n <= values.len(),
        forall|i: int| 0 <= i < n ==> values[i] < demand,
        forall|i: int| n <= i < values.len() ==> values[i] >= demand,
    decreases values.len(),
{
    if values.len() == 0 || values.last() < demand {
        assert forall|i: int| 0 <= i < values.len() implies values[i] < demand by {
            if i < values.len() - 1 {
                assert(values[i] <= values[values.len() - 1]);
            }
        }
        values.len() as int
    } else {
        let rest = values.drop_last();
        let n = lemma_first_at_least(rest, demand);
        assert forall|i: int| 0 <= i < n implies values[i] < demand by {
            assert(rest[i] == values[i]);
        }
        assert forall|i: int| n <= i < values.len() implies values[i] >= demand by {
            if i < rest.len() {
                assert(rest[i] == values[i]);
            }
        }
        n
    }
}

/// Of equal demands, if the first is met, so are the others, as long as flows are left.
proof fn lemma_ties_are_met(demands: Seq<u32>, window: int, flows: int, first: int, i: int)
    requires
        0 <= first <= i < demands.len(),
        forall|j: int| first <= j <= i ==> demands[j] == demands[first],
        met_at(demands, window, flows, first),
        flows > i,
    ensures
        met_at(demands, window, flows, i),
    decreases i - first,
{
    if first < i {
        lemma_ties_are_met(demands, window, flows, first, i - 1);
        lemma_sum_take_next(demands, i - 1);
        let d = demands[first] as int;
        let left = window - sum(demands.take(i - 1));
        let n = flows - (i - 1);
        assert(d < (left - d) / (n - 1)) by (nonlinear_arith)
            requires
                0 <= d,
                d < left / n,
                n - 1 > 0,
        ;
    }
}

/// Where all flows that ask for less fit, all demands before the first that does not fit
/// are met, as long as flows are left.
proof fn lemma_met_up_to(
    order: Seq<(u32, u32)>,
    pending: Map<u32, u32>,
    window: int,
    flows: int,
    n: int,
)
    requires
        is_demand_order(order, pending),
        0 <= n <= order.len(),
        forall|i: int| 0 <= i < n ==> fits(pending, window, flows, (#[trigger] order[i]).0),
        forall|m: int| 0 <= m < n ==> #[trigger] flow_left(values_in(order), window, flows, m),
    ensures
        forall|i: int| 0 <= i < n ==> #[trigger] met_at(values_in(order), window, flows, i),
    decreases n,
{
    if n > 0 {
        lemma_met_up_to(order, pending, window, flows, n - 1);
        let i = n - 1;
        let values = values_in(order);
        assert(flow_left(values, window, flows, i));
        assert(pending.contains_key(order[i].0));
        let first = lemma_below_is_prefix(order, pending, order[i].1 as int);
        assert(fits(pending, window, flows, order[i].0));
        assert(first <= i);
        assert forall|j: int| first <= j <= i implies values[j] == values[first] by {
            assert(values[j] == order[j].1 && order[j].1 >= order[i].1);
            assert(values[first] == order[first].1 && order[first].1 >= order[i].1);
            if j < i {
                assert(values[j] <= values[i]);
            }
            if first < i {
                assert(values[first] <= values[i]);
            }
        }
        assert(met_at(values, window, flows, first));
        lemma_ties_are_met(values, window, flows, first, i);
    }
}

/// Where filling always has a flow left to split among, it has one at every demand.
proof fn lemma_flow_left(demands: Seq<u32>, window: int, flows: int, n: int)
    requires
        fair_level_exists(demands, window, flows),
        0 <= n < demands.len(),
    ensures
        flow_left(demands, window, flows, n),
{
    if forall|i: int| 0 <= i < n ==> #[trigger] met_at(demands, window, flows, i) {
        lemma_after_met(demands, window, flows, n);
        assert(demands.skip(n).len() > 0);
    }
}

proof fn lemma_fair_in_full(
    pending: Map<u32, u32>,
    window: u32,
    flows: u32,
    sock: u32,
)
    requires
        pending.dom().finite(),
        fair_level_exists(ascending(pending), window as int, flows as int),
        pending.contains_key(sock),
        all_below_fit(pending, window as int, flows as int, pending[sock] as int),
        fits(pending, window as int, flows as int, sock),
    ensures
        fair_windows(pending, window, flows)[sock] == pending[sock],
{
    let (w, f) = (window as int, flows as int);
    let order = lemma_demand_order(pending);
    let values = values_in(order);
    let at = choose|i: int| 0 <= i < order.len() && (#[trigger] order[i]).0 == sock;
    assert(pending.contains_key(order[at].0) && order[at].1 == pending[sock]);
    assert forall|i: int| 0 <= i < at + 1 implies fits(pending, w, f, (#[trigger] order[i]).0) by {
        assert(pending.contains_key(order[i].0));
        assert(values[i] == order[i].1 && values[at] == order[at].1);
        if i < at {
            assert(values[i] <= values[at]);
        }
    }
    assert forall|m: int| 0 <= m < at + 1 implies #[trigger] flow_left(values, w, f, m) by {
        lemma_flow_left(values, w, f, m);
    }
    lemma_met_up_to(order, pending, w, f, at + 1);
    lemma_after_met(values, w, f, at);
    lemma_sums_within(values, w, f, at);
    lemma_level_at_least_split(values.skip(at), w - sum(values.take(at)), f - at);
    assert(met_at(values, w, f, at));
}

/// Demands that are met take no more than the window.
proof fn lemma_sums_within(demands: Seq<u32>, window: int, flows: int, n: int)
    requires
        0 <= window,
        0 <= n <= demands.len(),
        n > 0 ==> flows >= n,
        forall|i: int| 0 <= i < n ==> #[trigger] met_at(demands, window, flows, i),
    ensures
        sum(demands.take(n)) <= window,
    decreases n,
{
    if n > 0 {
        lemma_sums_within(demands, window, flows, n - 1);
        lemma_sum_take_next(demands, n - 1);
        assert(met_at(demands, window, flows, n - 1));
        let left = window - sum(demands.take(n - 1));
        let d = demands[n - 1] as int;
        let m = flows - (n - 1);
        assert(d <= left) by (nonlinear_arith)
            requires
                0 <= left,
                m > 0,
                d < left / m,
        ;
    } else {
        assert(demands.take(0) =~= Seq::empty());
    }
}

proof fn lemma_fair_at_level(
    pending: Map<u32, u32>,
    window: u32,
    flows: u32,
    first: u32,
    sock: u32,
)
    requires
        pending.dom().finite(),
        fair_level_exists(ascending(pending), window as int, flows as int),
        pending.contains_key(first),
        pending.contains_key(sock),
        all_below_fit(pending, window as int, flows as int, pending[first] as int),
        !fits(pending, window as int, flows as int, first),
        pending[first] <= pending[sock],
    ensures
        fair_windows(pending, window, flows)[sock] == split_at(
            pending,
            window as int,
            flows as int,
            pending[first] as int,
        ),
{
    let (w, f) = (window as int, flows as int);
    let order = lemma_demand_order(pending);
    let values = values_in(order);
    let at = lemma_below_is_prefix(order, pending, pending[first] as int);
    let i = choose|i: int| 0 <= i < order.len() && (#[trigger] order[i]).0 == first;
    assert(pending.contains_key(order[i].0) && order[i].1 == pending[first]);
    assert(at <= i);
    assert forall|i: int| 0 <= i < at implies fits(pending, w, f, (#[trigger] order[i]).0) by {
        assert(pending.contains_key(order[i].0));
    }
    assert forall|m: int| 0 <= m < at implies #[trigger] flow_left(values, w, f, m) by {
        lemma_flow_left(values, w, f, m);
    }
    lemma_met_up_to(order, pending, w, f, at);
    lemma_after_met(values, w, f, at);
    lemma_sums_within(values, w, f, at);
    let open = values.skip(at);
    let split = split_at(pending, w, f, pending[first] as int);
    assert(open[0] == order[at].1);
    assert(open[0] >= pending[first]);
    assert(fair_level(values, w, f) == Some(split));
    assert(split >= 0) by (nonlinear_arith)
        requires
            split == (w - sum(values.take(at))) / (f - at),
            w - sum(values.take(at)) >= 0,
            f - at > 0,
    ;
}

/// Serving in full: if a flow fits, and so does every flow that asks for less, it gets just
/// what it asks for of the aggregate's window.
pub proof fn law_served_in_full<C>(view: AggregateView<C>, sock: u32)
    requires
        view.subflow_pending.dom().finite(),
        view.can_allocate(),
        view.subflow_pending.contains_key(sock),
        all_below_fit(
            view.subflow_pending,
            view.cwnd as int,
            view.num_flows as int,
            view.subflow_pending[sock] as int,
        ),
        fits(view.subflow_pending, view.cwnd as int, view.num_flows as int, sock),
    ensures
        view.allocated().subflow_cwnd.contains_key(sock),
        view.allocated().subflow_cwnd[sock] == view.subflow_pending[sock],
{
    lemma_fair_in_full(view.subflow_pending, view.cwnd, view.num_flows, sock);
}

/// The common level: if `first` is a flow that asks for the least of those that do not fit,
/// every flow that asks for as much or more gets the split of the aggregate's window at
/// that demand.
pub proof fn law_served_at_level<C>(view: AggregateView<C>, first: u32, sock: u32)
    requires
        view.subflow_pending.dom().finite(),
        view.can_allocate(),
        view.subflow_pending.contains_key(first),
        view.subflow_pending.contains_key(sock),
        all_below_fit(
            view.subflow_pending,
            view.cwnd as int,
            view.num_flows as int,
            view.subflow_pending[first] as int,
        ),
        !fits(view.subflow_pending, view.cwnd as int, view.num_flows as int, first),
        view.subflow_pending[first] <= view.subflow_pending[sock],
    ensures
        view.allocated().subflow_cwnd.contains_key(sock),
        view.allocated().subflow_cwnd[sock] == split_at(
            view.subflow_pending,
            view.cwnd as int,
            view.num_flows as int,
            view.subflow_pending[first] as int,
        ),
{
    lemma_fair_at_level(view.subflow_pending, view.cwnd, view.num_flows, first, sock);
}

/// Just when the window can be divided: at each demand for which all smaller ones fit, a
/// flow must be left to split among, and if it fits too, one for each flow that asks for
/// as much.
pub proof fn law_when_the_window_can_be_divided<C>(view: AggregateView<C>)
    requires
        view.subflow_pending.dom().finite(),
    ensures
        view.can_allocate() <==> forall|sock: u32| #[trigger]
            view.subflow_pending.contains_key(sock) && all_below_fit(
                view.subflow_pending,
                view.cwnd as int,
                view.num_flows as int,
                view.subflow_pending[sock] as int,
            ) ==> {
                &&& below(view.subflow_pending, view.subflow_pending[sock] as int).len()
                    < view.num_flows
                &&& fits(view.subflow_pending, view.cwnd as int, view.num_flows as int, sock)
                    ==> below(view.subflow_pending, view.subflow_pending[sock] + 1).len()
                    <= view.num_flows
            },
{
    let pending = view.subflow_pending;
    let (w, f) = (view.cwnd as int, view.num_flows as int);
    let order = lemma_demand_order(pending);
    let values = values_in(order);
    if view.can_allocate() {
        assert forall|m: int| 0 <= m < values.len() implies #[trigger] flow_left(
            values,
            w,
            f,
            m,
        ) by {
            lemma_flow_left(values, w, f, m);
        }
        assert forall|sock: u32| #[trigger]
            pending.contains_key(sock) && all_below_fit(
                pending,
                w,
                f,
                pending[sock] as int,
            ) implies {
            &&& below(pending, pending[sock] as int).len() < f
            &&& fits(pending, w, f, sock) ==> below(pending, pending[sock] + 1).len() <= f
        } by {
            let n = lemma_below_is_prefix(order, pending, pending[sock] as int);
            let m = lemma_below_is_prefix(order, pending, pending[sock] + 1);
            let at = choose|i: int| 0 <= i < order.len() && (#[trigger] order[i]).0 == sock;
            assert(pending.contains_key(order[at].0) && order[at].1 == pending[sock]);
            assert(n <= at < m);
            assert forall|i: int| 0 <= i < n implies fits(
                pending,
                w,
                f,
                (#[trigger] order[i]).0,
            ) by {
                assert(pending.contains_key(order[i].0));
            }
            lemma_met_up_to(order, pending, w, f, n);
            assert(flow_left(values, w, f, n));
            if fits(pending, w, f, sock) {
                assert forall|i: int| 0 <= i < m implies fits(
                    pending,
                    w,
                    f,
                    (#[trigger] order[i]).0,
                ) by {
                    assert(pending.contains_key(order[i].0));
                    if i >= n {
                        assert(order[i].1 == pending[sock]);
                    }
                }
                lemma_met_up_to(order, pending, w, f, m);
                assert(flow_left(values, w, f, m - 1));
            }
        }
    } else {
        if forall|sock: u32| #[trigger]
            pending.contains_key(sock) && all_below_fit(pending, w, f, pending[sock] as int) ==> {
                &&& below(pending, pending[sock] as int).len() < f
                &&& fits(pending, w, f, sock) ==> below(pending, pending[sock] + 1).len() <= f
            } {
            assert forall|n: int| 0 <= n < values.len() implies #[trigger] flow_left(
                values,
                w,
                f,
                n,
            ) by {
                if forall|i: int| 0 <= i < n ==> #[trigger] met_at(values, w, f, i) {
                    lemma_flow_left_by_demand(order, pending, w, f, n);
                }
            }
            lemma_exists_by_index(values, w, f, 0);
            assert(values.skip(0) =~= values);
            assert(values.take(0) =~= Seq::empty());
        }
    }
}

proof fn lemma_flow_left_by_demand(
    order: Seq<(u32, u32)>,
    pending: Map<u32, u32>,
    window: int,
    flows: int,
    n: int,
)
    requires
        is_demand_order(order, pending),
        0 <= n < order.len(),
        forall|i: int| 0 <= i < n ==> #[trigger] met_at(values_in(order), window, flows, i),
        forall|sock: u32| #[trigger]
            pending.contains_key(sock) && all_below_fit(
                pending,
                window,
                flows,
                pending[sock] as int,
            ) ==> {
                &&& below(pending, pending[sock] as int).len() < flows
                &&& fits(pending, window, flows, sock) ==> below(pending, pending[sock] + 1).len()
                    <= flows
            },
    ensures
        flows > n,
{
    let values = values_in(order);
    let sock = order[n].0;
    assert(pending.contains_key(sock) && pending[sock] == order[n].1);
    let first = lemma_below_is_prefix(order, pending, pending[sock] as int);
    let past = lemma_below_is_prefix(order, pending, pending[sock] + 1);
    assert(first <= n < past);
    assert(all_below_fit(pending, window, flows, pending[sock] as int)) by {
        assert forall|other: u32| #[trigger]
            pending.contains_key(other) && pending[other] < pending[sock] implies fits(
            pending,
            window,
            flows,
            other,
        ) by {
            let j = lemma_below_is_prefix(order, pending, pending[other] as int);
            let i = choose|i: int| 0 <= i < order.len() && (#[trigger] order[i]).0 == other;
            assert(pending.contains_key(order[i].0) && order[i].1 == pending[other]);
            assert(j <= i < first);
            assert(met_at(values, window, flows, j));
            assert(values[j] == order[j].1 && values[i] == order[i].1);
            assert(order[j].1 >= pending[other]);
            if j < i {
                assert(values[j] <= values[i]);
            }
        }
    }
    if first < n {
        assert(met_at(values, window, flows, first));
        assert(values[first] == order[first].1 && values[n] == order[n].1);
        assert(order[first].1 >= pending[sock]);
        assert(values[first] <= values[n]);
        assert(fits(pending, window, flows, sock));
    }
}

} // verus!
