//! Ways to divide one congestion window among the flows of an aggregate.
//!
//! Each flow asks for as many bytes as it has pending. A listing pairs socket ids with
//! these demands; the functions here answer with a listing of windows for the same
//! sockets, in the same order.

use crate::flow_table::{
    ascending, ascends, enumerates, lemma_listed, lemma_listed_domain, lemma_sum_take,
    lemma_sum_take_next, listed, sum, total, values_in,
};
use vstd::prelude::*;

verus! {

/// What a flow gets that shortest-first allocation keeps out, so that it still has a
/// little in flight.
pub const KEPT_OUT_WINDOW: u32 = 1;

// ---------------------------------------------------------------------------
// Max-min fairness
// ---------------------------------------------------------------------------

/// The level at which max-min filling of `window` stops, for demands given smallest
/// first: while the smallest open demand lies below an even split of what is left, it is
/// met and leaves the split. `None` if every demand is met.
pub open spec fn fair_level(demands: Seq<u32>, window: int, flows: int) -> Option<int>
    decreases demands.len(),
{
    if demands.len() == 0 {
        None
    } else if demands[0] < window / flows {
        fair_level(demands.drop_first(), window - demands[0], flows - 1)
    } else {
        Some(window / flows)
    }
}

/// While a demand is open there is a flow left to split among. This always holds where
/// there are at least as many flows as demands.
pub open spec fn fair_level_exists(demands: Seq<u32>, window: int, flows: int) -> bool
    decreases demands.len(),
{
    demands.len() > 0 ==> {
        &&& flows > 0
        &&& demands[0] < window / flows ==> fair_level_exists(
            demands.drop_first(),
            window - demands[0],
            flows - 1,
        )
    }
}

/// A flow gets what it asks for, up to the level.
pub open spec fn fair_share(demand: u32, level: Option<int>) -> u32 {
    match level {
        Some(l) => if l < demand {
            l as u32
        } else {
            demand
        },
        None => demand,
    }
}

/// [`fair_share`] as a function of the demand.
pub open spec fn fair_sharing(level: Option<int>) -> spec_fn(u32) -> u32 {
    |demand: u32| fair_share(demand, level)
}

/// The max-min fair windows for the demands in `pending`.
pub open spec fn fair_windows(pending: Map<u32, u32>, window: u32, flows: u32) -> Map<u32, u32> {
    let level = fair_level(ascending(pending), window as int, flows as int);
    pending.map_values(fair_sharing(level))
}

/// As the filling proceeds the even split only grows.
pub proof fn lemma_level_at_least_split(demands: Seq<u32>, window: int, flows: int)
    requires
        window >= 0,
        fair_level_exists(demands, window, flows),
    ensures
        fair_level(demands, window, flows) matches Some(level) ==> level >= window / flows,
    decreases demands.len(),
{
    if demands.len() > 0 && demands[0] < window / flows {
        let demand = demands[0] as int;
        let rest = demands.drop_first();
        assert(demand <= window) by (nonlinear_arith)
            requires
                flows > 0,
                window >= 0,
                demand < window / flows,
        ;
        lemma_level_at_least_split(rest, window - demand, flows - 1);
        if rest.len() > 0 {
            assert(fair_level_exists(rest, window - demand, flows - 1));
            assert((window - demand) / (flows - 1) >= window / flows) by (nonlinear_arith)
                requires
                    flows - 1 > 0,
                    window >= 0,
                    0 <= demand < window / flows,
            ;
        }
    }
}

/// Divides `window` max-min fairly among `flows` flows, of which those in `order`,
/// smallest demand first, have something pending.
pub fn allocate_fairly(order: &Vec<(u32, u32)>, window: u32, flows: u32) -> (res: Vec<(u32, u32)>)
    requires
        ascends(values_in(order@)),
        fair_level_exists(values_in(order@), window as int, flows as int),
    ensures
        res@.len() == order@.len(),
        forall|i: int|
            0 <= i < res@.len() ==> #[trigger] res@[i] == (
                order@[i].0,
                fair_share(
                    order@[i].1,
                    fair_level(values_in(order@), window as int, flows as int),
                ),
            ),
{
    let ghost demands = values_in(order@);
    let ghost level = fair_level(demands, window as int, flows as int);
    let mut res: Vec<(u32, u32)> = Vec::new();
    let mut available: u32 = window;
    let mut flows_left: u32 = flows;
    let ghost mut filled = false;
    let mut i: usize = 0;
    assert(demands.skip(0) =~= demands);
    while i < order.len()
        invariant
            i <= order@.len(),
            demands == values_in(order@),
            ascends(demands),
            level == fair_level(demands, window as int, flows as int),
            !filled ==> level == fair_level(
                demands.skip(i as int),
                available as int,
                flows_left as int,
            ),
            !filled ==> fair_level_exists(
                demands.skip(i as int),
                available as int,
                flows_left as int,
            ),
            filled ==> flows_left > 0 && level == Some((available / flows_left) as int) && i > 0
                && demands[i - 1] >= available / flows_left,
            res@.len() == i,
            forall|j: int|
                0 <= j < i ==> #[trigger] res@[j] == (
                    order@[j].0,
                    fair_share(order@[j].1, level),
                ),
        decreases order@.len() - i,
    {
        let (sock_id, demand) = order[i];
        let ghost open = demands.skip(i as int);
        proof {
            assert(open[0] == demand && demands[i as int] == demand);
            assert(open.drop_first() =~= demands.skip(i + 1));
            if filled {
                assert(demands[i - 1] <= demands[i as int]);
            } else {
                lemma_level_at_least_split(open, available as int, flows_left as int);
            }
        }
        let split: u32 = available / flows_left;
        if demand < split {
            assert(demand <= available) by (nonlinear_arith)
                requires
                    flows_left > 0,
                    demand < available / flows_left,
            ;
            res.push((sock_id, demand));
            available -= demand;
            flows_left -= 1;
        } else {
            res.push((sock_id, split));
            proof {
                filled = true;
            }
        }
        i += 1;
    }
    res
}

/// Whether filling `window` for `order` always has a flow left to split among.
pub fn can_allocate_fairly(order: &Vec<(u32, u32)>, window: u32, flows: u32) -> (res: bool)
    ensures
        res == fair_level_exists(values_in(order@), window as int, flows as int),
{
    let ghost demands = values_in(order@);
    let mut available: u32 = window;
    let mut flows_left: u32 = flows;
    let mut i: usize = 0;
    assert(demands.skip(0) =~= demands);
    while i < order.len()
        invariant
            i <= order@.len(),
            demands == values_in(order@),
            fair_level_exists(demands, window as int, flows as int) == fair_level_exists(
                demands.skip(i as int),
                available as int,
                flows_left as int,
            ),
        decreases order@.len() - i,
    {
        let (_, demand) = order[i];
        assert(demands.skip(i as int)[0] == demand);
        assert(demands.skip(i as int).drop_first() =~= demands.skip(i + 1));
        if flows_left == 0 {
            return false;
        }
        if demand >= available / flows_left {
            return true;
        }
        assert(demand <= available) by (nonlinear_arith)
            requires
                flows_left > 0,
                demand < available / flows_left,
        ;
        available -= demand;
        flows_left -= 1;
        i += 1;
    }
    true
}

// ---------------------------------------------------------------------------
// Even split
// ---------------------------------------------------------------------------

/// Whatever a flow asks for, it gets the same part of `window`.
pub open spec fn even_share(_demand: u32, window: u32, flows: u32) -> u32 {
    window / flows
}

/// [`even_share`] as a function of the demand.
pub open spec fn even_sharing(window: u32, flows: u32) -> spec_fn(u32) -> u32 {
    |demand: u32| even_share(demand, window, flows)
}

/// Windows of the same size for every flow with an entry in `pending`.
pub open spec fn even_windows(pending: Map<u32, u32>, window: u32, flows: u32) -> Map<u32, u32> {
    pending.map_values(even_sharing(window, flows))
}

/// Gives each flow in `order` an even split of `window` among `flows` flows.
pub fn allocate_evenly(order: &Vec<(u32, u32)>, window: u32, flows: u32) -> (res: Vec<(u32, u32)>)
    requires
        order@.len() > 0 ==> flows > 0,
    ensures
        res@.len() == order@.len(),
        forall|i: int|
            0 <= i < res@.len() ==> #[trigger] res@[i] == (order@[i].0, window / flows),
{
    let mut res: Vec<(u32, u32)> = Vec::new();
    let mut i: usize = 0;
    while i < order.len()
        invariant
            i <= order@.len(),
            order@.len() > 0 ==> flows > 0,
            res@.len() == i,
            forall|j: int| 0 <= j < i ==> #[trigger] res@[j] == (order@[j].0, window / flows),
        decreases order@.len() - i,
    {
        res.push((order[i].0, window / flows));
        i += 1;
    }
    res
}

// ---------------------------------------------------------------------------
// In proportion to demand
// ---------------------------------------------------------------------------

/// The part of `window` that `demand` is of `total_demand`, rounded down.
pub open spec fn proportional_share(demand: u32, window: u32, total_demand: nat) -> u32 {
    ((window * demand) / total_demand as int) as u32
}

/// [`proportional_share`] as a function of the demand.
pub open spec fn proportional_sharing(window: u32, total_demand: nat) -> spec_fn(u32) -> u32 {
    |demand: u32| proportional_share(demand, window, total_demand)
}

/// A part of the window is no more than the window.
pub proof fn lemma_proportional_share(demand: u32, window: u32, total_demand: nat)
    requires
        demand <= total_demand,
        total_demand > 0,
    ensures
        0 <= window * demand,
        0 <= (window * demand) / total_demand as int <= window,
{
    let (w, d, t) = (window as int, demand as int, total_demand as int);
    assert(0 <= w * d && 0 <= (w * d) / t <= w) by (nonlinear_arith)
        requires
            0 <= w,
            0 <= d <= t,
            t > 0,
    ;
}

/// The windows that divide `window` in proportion to the demands in `pending`.
pub open spec fn proportional_windows(pending: Map<u32, u32>, window: u32) -> Map<u32, u32> {
    pending.map_values(proportional_sharing(window, total(pending)))
}

/// Gives each flow in `order` its share of `window` in proportion to its demand.
pub fn allocate_proportionally(
    order: &Vec<(u32, u32)>,
    window: u32,
    total_demand: u32,
) -> (res: Vec<(u32, u32)>)
    requires
        total_demand > 0,
        forall|i: int| 0 <= i < order@.len() ==> (#[trigger] order@[i]).1 <= total_demand,
    ensures
        res@.len() == order@.len(),
        forall|i: int|
            0 <= i < res@.len() ==> #[trigger] res@[i] == (
                order@[i].0,
                proportional_share(order@[i].1, window, total_demand as nat),
            ),
{
    let mut res: Vec<(u32, u32)> = Vec::new();
    let mut i: usize = 0;
    while i < order.len()
        invariant
            i <= order@.len(),
            total_demand > 0,
            forall|j: int| 0 <= j < order@.len() ==> (#[trigger] order@[j]).1 <= total_demand,
            res@.len() == i,
            forall|j: int|
                0 <= j < i ==> #[trigger] res@[j] == (
                    order@[j].0,
                    proportional_share(order@[j].1, window, total_demand as nat),
                ),
        decreases order@.len() - i,
    {
        let (sock_id, demand) = order[i];
        assert(0 <= window * demand <= u32::MAX * u32::MAX) by (nonlinear_arith)
            requires
                0 <= window <= u32::MAX,
                0 <= demand <= u32::MAX,
        ;
        let share: u64 = (window as u64) * (demand as u64) / (total_demand as u64);
        proof {
            lemma_proportional_share(demand, window, total_demand as nat);
        }
        res.push((sock_id, share as u32));
        i += 1;
    }
    res
}

// ---------------------------------------------------------------------------
// Shortest first
// ---------------------------------------------------------------------------

/// What a flow gets of `window` when flows asking for `before` bytes in all come first.
pub open spec fn served_share(demand: u32, window: u32, before: nat) -> u32 {
    if before >= window {
        KEPT_OUT_WINDOW
    } else if before + demand < window {
        demand
    } else {
        (window - before) as u32
    }
}

/// The windows that serving `order` from front to back gives.
pub open spec fn served_in_order(order: Seq<(u32, u32)>, window: u32) -> Seq<(u32, u32)> {
    Seq::new(
        order.len(),
        |i: int|
            (order[i].0, served_share(order[i].1, window, sum(values_in(order).take(i)))),
    )
}

/// Serving a listing of a table gives every flow in the table a window, and no other.
pub proof fn lemma_served_domain(order: Seq<(u32, u32)>, pending: Map<u32, u32>, window: u32)
    requires
        enumerates(order, pending),
    ensures
        listed(served_in_order(order, window)).dom() == pending.dom(),
{
    lemma_listed(order, pending);
    lemma_listed_domain(order, served_in_order(order, window));
}

/// Serves the flows in `order` from front to back: each gets its demand until `window` is
/// used up, and those after that are kept out.
pub fn serve_in_order(order: &Vec<(u32, u32)>, window: u32) -> (res: Vec<(u32, u32)>)
    requires
        sum(values_in(order@)) <= u32::MAX,
    ensures
        res@ == served_in_order(order@, window),
{
    let ghost demands = values_in(order@);
    let mut res: Vec<(u32, u32)> = Vec::new();
    let mut allocated: u32 = 0;
    let mut i: usize = 0;
    while i < order.len()
        invariant
            i <= order@.len(),
            demands == values_in(order@),
            sum(demands) <= u32::MAX,
            allocated == (if sum(demands.take(i as int)) < window {
                sum(demands.take(i as int)) as int
            } else {
                window as int
            }),
            res@ =~= served_in_order(order@, window).take(i as int),
        decreases order@.len() - i,
    {
        let (sock_id, demand) = order[i];
        proof {
            lemma_sum_take_next(demands, i as int);
            lemma_sum_take(demands, i + 1);
        }
        let share: u32;
        if allocated < window {
            if allocated + demand < window {
                share = demand;
                allocated += demand;
            } else {
                share = window - allocated;
                allocated = window;
            }
        } else {
            share = KEPT_OUT_WINDOW;
        }
        res.push((sock_id, share));
        i += 1;
    }
    res
}

} // verus!
