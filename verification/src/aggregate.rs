//! The aggregate: the state that the flows of one source share, and how it reacts to new
//! flows and to measurements.

use crate::allocation::{
    allocate_evenly, allocate_fairly, allocate_proportionally, can_allocate_fairly, even_sharing,
    even_windows, fair_level, fair_level_exists, fair_sharing, fair_windows, lemma_served_domain,
    proportional_sharing, proportional_windows, serve_in_order, served_in_order,
};
use crate::flow_table::{
    add_up, ascending, ascends, enter_all, enumerates, is_demand_order, lemma_ascending_is,
    lemma_enumeration, lemma_mapped_listing, lemma_value_within_total, list_by_demand, list_entries,
    list_socks, listed, total, values_in,
};
use crate::measurement::{Fields, Measurement};
use crate::pattern::{
    announces, make_turn_pattern, make_window_pattern, takes_turns, turn_pattern, window_pattern,
    Message,
};
use crate::window::{
    checked_increase, checked_timeout, increase_fits, increased_window, reduce, reduced_window,
    timed_out_threshold, timed_out_window, timeout_fits, PACKET_BYTES,
};
use std::collections::HashMap;
use vstd::prelude::*;
use vstd::std_specs::convert::FromSpec;

verus! {

broadcast use vstd::std_specs::hash::group_hash_axioms;

/// The slow start threshold of a new aggregate.
pub const DEFAULT_SS_THRESH: u32 = 0x7fffffff;

/// What a new flow is taken to have pending before it reports.
pub const DEFAULT_PENDING_BYTES: u32 = 14480;

/// The configuration of the algorithm: there is nothing to configure.
#[derive(Clone)]
pub struct AggregationExampleConfig {}

impl Default for AggregationExampleConfig {
    fn default() -> (cfg: Self)
        ensures
            cfg == (AggregationExampleConfig {  }),
    {
        AggregationExampleConfig {  }
    }
}

/// What a new flow tells about itself.
#[derive(Clone, Copy, Debug)]
pub struct DatapathInfo {
    pub sock_id: u32,
    pub init_cwnd: u32,
    pub src_ip: u32,
}

/// Which aggregate a flow belongs to.
#[derive(Clone, Copy, Debug, PartialEq, Eq, Structural, Hash)]
pub struct AggregationExampleKey(u32);

impl View for AggregationExampleKey {
    type V = u32;

    /// The source address that the flows of the aggregate have in common.
    closed spec fn view(&self) -> u32 {
        self.0
    }
}

impl From<DatapathInfo> for AggregationExampleKey {
    /// Aggregates all flows from one address. A more complete heuristic for whether flows
    /// share a bottleneck might also consider where they go.
    fn from(d: DatapathInfo) -> (key: Self)
        ensures
            key@ == d.src_ip,
    {
        AggregationExampleKey(d.src_ip)
    }
}

impl vstd::std_specs::convert::FromSpecImpl<DatapathInfo> for AggregationExampleKey {
    open spec fn obeys_from_spec() -> bool {
        true
    }

    closed spec fn from_spec(d: DatapathInfo) -> Self {
        AggregationExampleKey(d.src_ip)
    }
}

/// Two flows belong to one aggregate just if they come from one address.
pub proof fn law_one_aggregate_per_source(left: DatapathInfo, right: DatapathInfo)
    ensures
        AggregationExampleKey::from_spec(left) == AggregationExampleKey::from_spec(right)
            <==> left.src_ip == right.src_ip,
{
}

/// An aggregate as a mathematical value.
#[verifier::ext_equal]
pub struct AggregateView<C> {
    /// The window that the flows share.
    pub cwnd: u32,
    /// Losses for which the window has already been reduced.
    pub curr_cwnd_reduction: u32,
    /// The window that the aggregate started with.
    pub init_cwnd: u32,
    /// The slow start threshold.
    pub ss_thresh: u32,
    /// How to reach each flow.
    pub subflow: Map<u32, C>,
    /// The bytes that each flow last had pending.
    pub subflow_pending: Map<u32, u32>,
    /// The round trip time that each flow last reported.
    pub subflow_rtt: Map<u32, u32>,
    /// The window that each flow was last given.
    pub subflow_cwnd: Map<u32, u32>,
    /// What each flow last had acknowledged.
    pub subflow_util: Map<u32, u32>,
    /// The packets that each flow last had in flight.
    pub subflow_inflight: Map<u32, u32>,
    /// How many flows have joined.
    pub num_flows: u32,
}

impl<C> AggregateView<C> {
    /// What holds of an aggregate at all times.
    pub open spec fn wf(self) -> bool {
        &&& self.subflow.dom().finite()
        &&& self.subflow_pending.dom().finite()
        &&& self.subflow.len() <= self.num_flows + 1
        &&& self.subflow_rtt.dom() == self.subflow_pending.dom()
        &&& self.subflow_util.dom() == self.subflow_pending.dom()
        &&& self.subflow_inflight.dom() == self.subflow_pending.dom()
        &&& self.subflow_cwnd.dom().subset_of(self.subflow_pending.dom())
        &&& self.init_cwnd <= self.cwnd
        &&& self.init_cwnd <= self.ss_thresh || self.ss_thresh == DEFAULT_SS_THRESH
    }

    /// The number of flows that can be reached, as a 32-bit count.
    pub open spec fn flow_count(self) -> int {
        self.subflow.len() as int % 0x1_0000_0000
    }

    /// The aggregate that a first flow founds. That flow can be reached, but counts as
    /// joined, with something pending, only once it joins.
    pub open spec fn founded(control: C, info: DatapathInfo) -> Self {
        AggregateView {
            cwnd: info.init_cwnd,
            curr_cwnd_reduction: 0,
            init_cwnd: info.init_cwnd,
            ss_thresh: DEFAULT_SS_THRESH,
            subflow: Map::empty().insert(info.sock_id, control),
            subflow_pending: Map::empty(),
            subflow_rtt: Map::empty(),
            subflow_cwnd: Map::empty(),
            subflow_util: Map::empty(),
            subflow_inflight: Map::empty(),
            num_flows: 0,
        }
    }

    /// Max-min allocation never runs out of flows to split among.
    pub open spec fn can_allocate(self) -> bool {
        fair_level_exists(
            ascending(self.subflow_pending),
            self.cwnd as int,
            self.num_flows as int,
        )
    }

    /// The window divided max-min fairly.
    pub open spec fn allocated(self) -> Self {
        AggregateView {
            subflow_cwnd: fair_windows(self.subflow_pending, self.cwnd, self.num_flows),
            ..self
        }
    }

    /// `order` is one in which shortest-first allocation may serve the flows: some listing
    /// of them, with the least pending first if they ask for more than the window.
    pub open spec fn may_serve(self, order: Seq<(u32, u32)>) -> bool {
        &&& enumerates(order, self.subflow_pending)
        &&& total(self.subflow_pending) > self.cwnd ==> ascends(values_in(order))
    }

    /// The average round trip time over the flows that have joined; zero if none has.
    pub open spec fn average_rtt(self) -> int {
        if self.num_flows == 0 {
            0
        } else {
            total(self.subflow_rtt) as int / self.num_flows as int
        }
    }

    /// How long a flow's turn lasts: the average round trip time, times a thousand.
    pub open spec fn turn_interval(self) -> int {
        self.average_rtt() * 1000
    }

    /// Every time that a turn pattern mentions fits in 32 bits.
    pub open spec fn turns_fit(self) -> bool {
        &&& self.num_flows > 0 ==> total(self.subflow_rtt) <= u32::MAX
        &&& self.turn_interval() <= u32::MAX
        &&& self.turn_interval() * (self.flow_count() - 1) <= u32::MAX
    }

    /// A flow has joined, but the window is not yet divided anew.
    pub open spec fn joined(self, control: C, info: DatapathInfo) -> Self {
        AggregateView {
            subflow: self.subflow.insert(info.sock_id, control),
            subflow_rtt: self.subflow_rtt.insert(info.sock_id, 0),
            subflow_pending: self.subflow_pending.insert(info.sock_id, DEFAULT_PENDING_BYTES),
            subflow_cwnd: self.subflow_cwnd.insert(info.sock_id, DEFAULT_PENDING_BYTES),
            subflow_util: self.subflow_util.insert(info.sock_id, 0),
            subflow_inflight: self.subflow_inflight.insert(info.sock_id, 0),
            num_flows: (self.num_flows + 1) as u32,
            ..self
        }
    }

    /// A flow can join.
    pub open spec fn join_fits(self, control: C, info: DatapathInfo) -> bool {
        self.num_flows < u32::MAX && self.joined(control, info).can_allocate()
    }

    /// What a flow reports is noted.
    pub open spec fn noted(self, sock_id: u32, fields: Fields) -> Self {
        AggregateView {
            subflow_rtt: self.subflow_rtt.insert(sock_id, fields.rtt),
            subflow_pending: self.subflow_pending.insert(sock_id, fields.pending),
            subflow_util: self.subflow_util.insert(
                sock_id,
                (fields.acked + fields.sacked) as u32,
            ),
            subflow_inflight: self.subflow_inflight.insert(sock_id, fields.inflight),
            ..self
        }
    }

    /// The window has grown for `acked` bytes.
    pub open spec fn increased(self, acked: u32) -> Self {
        AggregateView {
            cwnd: increased_window(self.cwnd, self.ss_thresh, self.num_flows, acked) as u32,
            ..self
        }
    }

    /// See [`increase_fits`].
    pub open spec fn increase_fits(self, acked: u32) -> bool {
        increase_fits(self.cwnd, self.ss_thresh, self.num_flows, acked)
    }

    /// A timeout has moved window and threshold, but the window is not yet divided anew.
    pub open spec fn backed_off(self) -> Self {
        AggregateView {
            ss_thresh: timed_out_threshold(self.ss_thresh, self.init_cwnd),
            cwnd: timed_out_window(self.cwnd, self.flow_count(), self.init_cwnd) as u32,
            curr_cwnd_reduction: 0,
            ..self
        }
    }

    /// See [`timeout_fits`].
    pub open spec fn timeout_fits(self) -> bool {
        &&& timeout_fits(self.cwnd, self.flow_count(), self.init_cwnd)
        &&& self.backed_off().can_allocate()
    }

    /// The window must shrink: there is a loss that has not been accounted for, or a
    /// partial acknowledgement while the window was probing the threshold.
    pub open spec fn must_reduce(self, loss: u32, acked: u32) -> bool {
        (loss > 0 && self.curr_cwnd_reduction == 0) || (acked > 0 && self.cwnd == self.ss_thresh)
    }

    /// The window has shrunk and the threshold with it, but the window is not yet divided
    /// anew.
    pub open spec fn shrunk(self) -> Self {
        let cwnd = reduced_window(self.cwnd, self.flow_count(), self.init_cwnd);
        AggregateView { cwnd, ss_thresh: cwnd, ..self }
    }

    /// Lost and misordered packets are accounted for.
    pub open spec fn reduced(self, loss: u32, sacked: u32, acked: u32) -> Self {
        let after = if self.must_reduce(loss, acked) {
            self.shrunk().allocated()
        } else {
            self
        };
        AggregateView {
            curr_cwnd_reduction: (self.curr_cwnd_reduction + sacked + loss) as u32,
            ..after
        }
    }

    /// Every step of the reduction stays within 32 bits.
    pub open spec fn reduction_fits(self, loss: u32, sacked: u32, acked: u32) -> bool {
        &&& self.must_reduce(loss, acked) ==> {
            &&& 0 < 2 * self.flow_count() <= u32::MAX
            &&& self.shrunk().can_allocate()
        }
        &&& self.curr_cwnd_reduction + sacked + loss <= u32::MAX
    }

    /// The reaction to what a flow reports.
    pub open spec fn measured(self, sock_id: u32, fields: Fields) -> Self {
        let noted = self.noted(sock_id, fields);
        let grown = noted.increased(fields.acked);
        if fields.was_timeout {
            noted.backed_off().allocated()
        } else if fields.loss > 0 || fields.sacked > 0 {
            grown.reduced(fields.loss, fields.sacked, fields.acked)
        } else if fields.acked < grown.curr_cwnd_reduction {
            AggregateView {
                curr_cwnd_reduction: (grown.curr_cwnd_reduction - fields.acked
                    / PACKET_BYTES) as u32,
                ..grown
            }
        } else {
            AggregateView { curr_cwnd_reduction: 0, ..grown }.allocated()
        }
    }

    /// The reaction divides the window anew, so the flows must be told.
    pub open spec fn must_announce(self, sock_id: u32, fields: Fields) -> bool {
        let grown = self.noted(sock_id, fields).increased(fields.acked);
        if fields.was_timeout {
            true
        } else if fields.loss > 0 || fields.sacked > 0 {
            grown.must_reduce(fields.loss, fields.acked)
        } else {
            fields.acked >= grown.curr_cwnd_reduction
        }
    }

    /// Every step of the reaction stays within 32 bits and divides by a nonzero number.
    pub open spec fn measurement_fits(self, sock_id: u32, fields: Fields) -> bool {
        let noted = self.noted(sock_id, fields);
        let grown = noted.increased(fields.acked);
        &&& fields.acked + fields.sacked <= u32::MAX
        &&& if fields.was_timeout {
            noted.timeout_fits()
        } else {
            &&& noted.increase_fits(fields.acked)
            &&& if fields.loss > 0 || fields.sacked > 0 {
                grown.reduction_fits(fields.loss, fields.sacked, fields.acked)
            } else {
                fields.acked >= grown.curr_cwnd_reduction ==> grown.can_allocate()
            }
        }
    }
}

/// Congestion control for the flows of one aggregate, which share a window. `C` is how a
/// flow is reached; it is kept for the caller and never looked into.
///
/// Methods that divide the window return what the flows must be told. Sending it is up to
/// the caller.
#[verifier::reject_recursive_types(C)]
pub struct AggregationExample<C> {
    cwnd: u32,
    curr_cwnd_reduction: u32,
    init_cwnd: u32,
    ss_thresh: u32,
    subflow: HashMap<u32, C>,
    subflow_pending: HashMap<u32, u32>,
    subflow_rtt: HashMap<u32, u32>,
    subflow_cwnd: HashMap<u32, u32>,
    subflow_util: HashMap<u32, u32>,
    subflow_inflight: HashMap<u32, u32>,
    num_flows: u32,
}

impl<C> View for AggregationExample<C> {
    type V = AggregateView<C>;

    closed spec fn view(&self) -> AggregateView<C> {
        AggregateView {
            cwnd: self.cwnd,
            curr_cwnd_reduction: self.curr_cwnd_reduction,
            init_cwnd: self.init_cwnd,
            ss_thresh: self.ss_thresh,
            subflow: self.subflow@,
            subflow_pending: self.subflow_pending@,
            subflow_rtt: self.subflow_rtt@,
            subflow_cwnd: self.subflow_cwnd@,
            subflow_util: self.subflow_util@,
            subflow_inflight: self.subflow_inflight@,
            num_flows: self.num_flows,
        }
    }
}

impl<C> AggregationExample<C> {
    /// The number of flows that can be reached, as a 32-bit count.
    fn flow_count(&self) -> (res: u32)
        ensures
            res == self@.flow_count(),
    {
        let n: u64 = self.subflow.len() as u64;
        assert(n as u32 == n % 0x1_0000_0000) by (bit_vector);
        #[verifier::truncate]
        (n as u32)
    }

    /// The messages that tell each flow its window. A flow that cannot be reached is
    /// passed over.
    pub fn send_pattern_alloc_messages(&self) -> (messages: Vec<Message>)
        ensures
            announces(messages@, self@.subflow_cwnd, self@.subflow.dom()),
    {
        let order = list_entries(&self.subflow_cwnd);
        let mut messages: Vec<Message> = Vec::new();
        let ghost mut from: Seq<int> = Seq::empty();
        let mut i: usize = 0;
        while i < order.len()
            invariant
                i <= order@.len(),
                enumerates(order@, self.subflow_cwnd@),
                forall|m: int|
                    0 <= m < messages@.len() ==> self.subflow@.contains_key(
                        (#[trigger] messages@[m]).sock_id,
                    ) && messages@[m].pattern@ == window_pattern(
                        self.subflow_cwnd@[messages@[m].sock_id],
                    ),
                from.len() == messages@.len(),
                forall|m: int|
                    0 <= m < messages@.len() ==> 0 <= #[trigger] from[m] < i
                        && order@[from[m]].0 == messages@[m].sock_id,
                forall|m: int, n: int|
                    0 <= m < n < messages@.len() ==> #[trigger] from[m] < #[trigger] from[n],
                forall|j: int|
                    0 <= j < i && self.subflow@.contains_key((#[trigger] order@[j]).0)
                        ==> exists|m: int|
                        0 <= m < messages@.len() && (#[trigger] messages@[m]).sock_id
                            == order@[j].0,
            decreases order@.len() - i,
        {
            let (sock_id, flow_cwnd) = order[i];
            let ghost before = messages@;
            if self.subflow.contains_key(&sock_id) {
                messages.push(Message { sock_id, pattern: make_window_pattern(flow_cwnd) });
                proof {
                    from = from.push(i as int);
                    assert(self.subflow_cwnd@.contains_key(order@[i as int].0));
                    assert(messages@[before.len() as int].sock_id == sock_id);
                    assert forall|j: int|
                        0 <= j < i + 1 && self.subflow@.contains_key(
                            (#[trigger] order@[j]).0,
                        ) implies exists|m: int|
                        0 <= m < messages@.len() && (#[trigger] messages@[m]).sock_id
                            == order@[j].0 by {
                        if j < i {
                            let m = choose|m: int|
                                0 <= m < before.len() && (#[trigger] before[m]).sock_id
                                    == order@[j].0;
                            assert(messages@[m].sock_id == order@[j].0);
                        }
                    }
                }
            }
            i += 1;
        }
        proof {
            let socks = self.subflow_cwnd@.dom().intersect(self.subflow@.dom());
            assert forall|m: int| 0 <= m < messages@.len() implies socks.contains(
                (#[trigger] messages@[m]).sock_id,
            ) by {
                assert(self.subflow_cwnd@.contains_key(order@[from[m]].0));
            }
            assert forall|m: int, n: int| 0 <= m < n < messages@.len() implies (
            #[trigger] messages@[m]).sock_id != (#[trigger] messages@[n]).sock_id by {
                assert(from[m] < from[n]);
                assert(order@[from[m]].0 != order@[from[n]].0);
            }
            assert forall|k: u32| #[trigger] socks.contains(k) implies exists|m: int|
                0 <= m < messages@.len() && (#[trigger] messages@[m]).sock_id == k by {
                assert(self.subflow_cwnd@.contains_key(k));
                let j = choose|j: int| 0 <= j < order@.len() && (#[trigger] order@[j]).0 == k;
            }
        }
        messages
    }

    /// The flows and what they have pending, least pending first.
    pub fn get_demand_vec(&self) -> (demand_vec: Vec<(u32, u32)>)
        ensures
            is_demand_order(demand_vec@, self@.subflow_pending),
            values_in(demand_vec@) == ascending(self@.subflow_pending),
    {
        let demand_vec = list_by_demand(&self.subflow_pending);
        proof {
            lemma_ascending_is(demand_vec@, self.subflow_pending@);
        }
        demand_vec
    }

    /// Gives the flows the windows listed, and returns the messages that tell them.
    fn give_windows(&mut self, windows: &Vec<(u32, u32)>) -> (messages: Vec<Message>)
        requires
            old(self)@.wf(),
            listed(windows@).dom() == old(self)@.subflow_pending.dom(),
        ensures
            final(self)@ == (AggregateView { subflow_cwnd: listed(windows@), ..old(self)@ }),
            final(self)@.wf(),
            announces(messages@, listed(windows@), old(self)@.subflow.dom()),
    {
        enter_all(&mut self.subflow_cwnd, windows);
        assert(self.subflow_cwnd@ =~= listed(windows@));
        self.send_pattern_alloc_messages()
    }

    /// Divides the window max-min fairly.
    pub fn send_pattern_alloc_maxmin(&mut self) -> (messages: Vec<Message>)
        requires
            old(self)@.wf(),
            old(self)@.can_allocate(),
        ensures
            final(self)@ == old(self)@.allocated(),
            final(self)@.wf(),
            announces(messages@, final(self)@.subflow_cwnd, final(self)@.subflow.dom()),
    {
        let demand_vec = self.get_demand_vec();
        let windows = allocate_fairly(&demand_vec, self.cwnd, self.num_flows);
        proof {
            let pending = self.subflow_pending@;
            let level = fair_level(ascending(pending), self.cwnd as int, self.num_flows as int);
            lemma_mapped_listing(demand_vec@, pending, fair_sharing(level), windows@);
        }
        self.give_windows(&windows)
    }

    /// Divides the window and returns what the flows must be told.
    pub fn send_pattern(&mut self) -> (messages: Vec<Message>)
        requires
            old(self)@.wf(),
            old(self)@.can_allocate(),
        ensures
            final(self)@ == old(self)@.allocated(),
            final(self)@.wf(),
            announces(messages@, final(self)@.subflow_cwnd, final(self)@.subflow.dom()),
    {
        self.send_pattern_alloc_maxmin()
    }

    /// Divides the window evenly.
    pub fn send_pattern_alloc_rr(&mut self) -> (messages: Vec<Message>)
        requires
            old(self)@.wf(),
            old(self)@.subflow_pending.len() > 0 ==> old(self)@.num_flows > 0,
        ensures
            final(self)@ == (AggregateView {
                subflow_cwnd: even_windows(
                    old(self)@.subflow_pending,
                    old(self)@.cwnd,
                    old(self)@.num_flows,
                ),
                ..old(self)@
            }),
            final(self)@.wf(),
            announces(messages@, final(self)@.subflow_cwnd, final(self)@.subflow.dom()),
    {
        let order = list_entries(&self.subflow_pending);
        proof {
            lemma_enumeration(order@, self.subflow_pending@);
        }
        let windows = allocate_evenly(&order, self.cwnd, self.num_flows);
        proof {
            let share = even_sharing(self.cwnd, self.num_flows);
            lemma_mapped_listing(order@, self.subflow_pending@, share, windows@);
        }
        self.give_windows(&windows)
    }

    /// Divides the entire window in proportion to demand, or evenly where nothing is pending.
    pub fn send_pattern_alloc_proportional(&mut self) -> (messages: Vec<Message>)
        requires
            old(self)@.wf(),
            total(old(self)@.subflow_pending) <= u32::MAX,
            total(old(self)@.subflow_pending) == 0 && old(self)@.subflow_pending.len() > 0
                ==> old(self)@.num_flows > 0,
        ensures
            final(self)@ == (AggregateView {
                subflow_cwnd: if total(old(self)@.subflow_pending) > 0 {
                    proportional_windows(old(self)@.subflow_pending, old(self)@.cwnd)
                } else {
                    even_windows(
                        old(self)@.subflow_pending,
                        old(self)@.cwnd,
                        old(self)@.num_flows,
                    )
                },
                ..old(self)@
            }),
            final(self)@.wf(),
            announces(messages@, final(self)@.subflow_cwnd, final(self)@.subflow.dom()),
    {
        let total_demand: u32 = add_up(&self.subflow_pending);
        if total_demand > 0 {
            let order = list_entries(&self.subflow_pending);
            proof {
                assert forall|i: int| 0 <= i < order@.len() implies (#[trigger] order@[i]).1
                    <= total_demand by {
                    lemma_value_within_total(self.subflow_pending@, order@[i].0);
                }
            }
            let windows = allocate_proportionally(&order, self.cwnd, total_demand);
            proof {
                let share = proportional_sharing(self.cwnd, total_demand as nat);
                lemma_mapped_listing(order@, self.subflow_pending@, share, windows@);
            }
            self.give_windows(&windows)
        } else {
            self.send_pattern_alloc_rr()
        }
    }

    /// Serves the flows one after the other. If they ask for more than the window, those
    /// with the least pending come first; otherwise the order is open.
    pub fn send_pattern_alloc_srpt(&mut self) -> (messages: Vec<Message>)
        requires
            old(self)@.wf(),
            total(old(self)@.subflow_pending) <= u32::MAX,
        ensures
            exists|order: Seq<(u32, u32)>| #[trigger]
                old(self)@.may_serve(order) && final(self)@ == (AggregateView {
                    subflow_cwnd: listed(served_in_order(order, old(self)@.cwnd)),
                    ..old(self)@
                }),
            final(self)@.wf(),
            announces(messages@, final(self)@.subflow_cwnd, final(self)@.subflow.dom()),
    {
        let demand_sum: u32 = add_up(&self.subflow_pending);
        let order = if demand_sum > self.cwnd {
            list_by_demand(&self.subflow_pending)
        } else {
            list_entries(&self.subflow_pending)
        };
        proof {
            lemma_enumeration(order@, self.subflow_pending@);
            assert(self@.may_serve(order@));
        }
        let windows = serve_in_order(&order, self.cwnd);
        proof {
            lemma_served_domain(order@, self.subflow_pending@, self.cwnd);
        }
        self.give_windows(&windows)
    }

    /// The average round trip time over the flows that have joined; zero if none has.
    pub fn get_average_rtt(&self) -> (res: u32)
        requires
            self@.num_flows > 0 ==> total(self@.subflow_rtt) <= u32::MAX,
        ensures
            res == self@.average_rtt(),
    {
        if self.num_flows == 0 {
            return 0;
        }
        add_up(&self.subflow_rtt) / self.num_flows
    }

    /// The window split evenly among the flows that can be reached.
    pub fn get_window_rr(&self) -> (res: u32)
        requires
            self@.flow_count() > 0,
        ensures
            res == self@.cwnd as int / self@.flow_count(),
    {
        self.cwnd / self.flow_count()
    }

    /// Lets the flows take turns with the window instead of dividing it.
    pub fn send_pattern_sched_rr(&self) -> (messages: Vec<Message>)
        requires
            self@.wf(),
            self@.flow_count() > 0 ==> self@.turns_fit(),
        ensures
            self@.flow_count() > 0 ==> takes_turns(
                messages@,
                self@.subflow.dom(),
                self@.turn_interval() as u32,
                (self@.cwnd as int / self@.flow_count()) as u32,
            ),
            self@.flow_count() == 0 ==> messages@.len() == 0,
    {
        let num_flows: u32 = self.flow_count();
        let mut messages: Vec<Message> = Vec::new();
        if num_flows == 0 {
            return messages;
        }
        let rr_interval_ns: u32 = self.get_average_rtt() * 1000;
        let flow_cwnd: u32 = self.get_window_rr();
        let socks = list_socks(&self.subflow);
        assert(socks@.len() == num_flows);
        let mut turn: u32 = 0;
        while turn < num_flows
            invariant
                turn <= num_flows,
                socks@.len() == num_flows,
                rr_interval_ns * (num_flows - 1) <= u32::MAX,
                messages@.len() == turn,
                forall|i: int|
                    0 <= i < turn ==> (#[trigger] messages@[i]).sock_id == socks@[i]
                        && messages@[i].pattern@ == turn_pattern(
                        i,
                        num_flows as int,
                        rr_interval_ns,
                        flow_cwnd,
                    ),
            decreases num_flows - turn,
        {
            proof {
                vstd::arithmetic::mul::lemma_mul_inequality(
                    turn as int,
                    num_flows - 1,
                    rr_interval_ns as int,
                );
                vstd::arithmetic::mul::lemma_mul_inequality(
                    num_flows - 1 - turn,
                    num_flows - 1,
                    rr_interval_ns as int,
                );
                vstd::arithmetic::mul::lemma_mul_is_commutative(
                    turn as int,
                    rr_interval_ns as int,
                );
                vstd::arithmetic::mul::lemma_mul_is_commutative(
                    num_flows - 1,
                    rr_interval_ns as int,
                );
                vstd::arithmetic::mul::lemma_mul_is_commutative(
                    num_flows - 1 - turn,
                    rr_interval_ns as int,
                );
            }
            let sock_id: u32 = socks[turn as usize];
            let pattern = make_turn_pattern(turn, num_flows, rr_interval_ns, flow_cwnd);
            messages.push(Message { sock_id, pattern });
            turn += 1;
        }
        proof {
            let dom = self.subflow@.dom();
            assert forall|i: int| 0 <= i < messages@.len() implies dom.contains(
                (#[trigger] messages@[i]).sock_id,
            ) by {
                assert(socks@.to_set().contains(socks@[i]));
            }
            assert forall|k: u32| #[trigger] dom.contains(k) implies exists|i: int|
                0 <= i < messages@.len() && (#[trigger] messages@[i]).sock_id == k by {
                assert(socks@.to_set().contains(k));
                let i = choose|i: int| 0 <= i < socks@.len() && socks@[i] == k;
                assert(messages@[i].sock_id == k);
            }
        }
        messages
    }

    /// The name under which the algorithm is known.
    pub fn name() -> (res: String)
        ensures
            res@ == "aggregation"@,
    {
        "aggregation".to_string()
    }

    /// Founds an aggregate with its first flow. No flow has a window yet, so there is
    /// nothing to tell anyone.
    pub fn create(control: C, _cfg: AggregationExampleConfig, info: DatapathInfo) -> (res: Self)
        ensures
            res@ == AggregateView::founded(control, info),
            res@.wf(),
    {
        let mut subflow: HashMap<u32, C> = HashMap::new();
        subflow.insert(info.sock_id, control);
        AggregationExample {
            cwnd: info.init_cwnd,
            curr_cwnd_reduction: 0,
            init_cwnd: info.init_cwnd,
            ss_thresh: DEFAULT_SS_THRESH,
            subflow,
            subflow_pending: HashMap::new(),
            subflow_rtt: HashMap::new(),
            subflow_cwnd: HashMap::new(),
            subflow_util: HashMap::new(),
            subflow_inflight: HashMap::new(),
            num_flows: 0,
        }
    }

    /// Adds a flow to the aggregate, or replaces the one with the same socket id, and
    /// divides the window anew.
    pub fn new_flow(&mut self, info: DatapathInfo, control: C) -> (messages: Vec<Message>)
        requires
            old(self)@.wf(),
            old(self)@.join_fits(control, info),
        ensures
            final(self)@ == old(self)@.joined(control, info).allocated(),
            final(self)@.wf(),
            announces(messages@, final(self)@.subflow_cwnd, final(self)@.subflow.dom()),
    {
        self.subflow.insert(info.sock_id, control);
        self.subflow_rtt.insert(info.sock_id, 0);
        self.subflow_pending.insert(info.sock_id, DEFAULT_PENDING_BYTES);
        self.subflow_cwnd.insert(info.sock_id, DEFAULT_PENDING_BYTES);
        self.subflow_util.insert(info.sock_id, 0);
        self.subflow_inflight.insert(info.sock_id, 0);
        self.num_flows += 1;
        proof {
            lemma_joined_wf(old(self)@, control, info);
            assert(self@ =~= old(self)@.joined(control, info));
        }
        self.send_pattern()
    }

    /// Grows the window for `acked` bytes acknowledged in order.
    pub fn additive_increase_with_slow_start(&mut self, acked: u32)
        requires
            old(self)@.wf(),
            old(self)@.increase_fits(acked),
        ensures
            final(self)@ == old(self)@.increased(acked),
            final(self)@.wf(),
    {
        let mut new_bytes_acked: u32 = acked;
        if self.cwnd < self.ss_thresh {
            if self.cwnd + new_bytes_acked > self.ss_thresh {
                new_bytes_acked -= self.ss_thresh - self.cwnd;
                self.cwnd = self.ss_thresh;
            } else {
                self.cwnd += new_bytes_acked;
                new_bytes_acked = 0;
            }
        }
        let windows: u32 = new_bytes_acked / self.cwnd;
        proof {
            vstd::arithmetic::mul::lemma_mul_nonnegative(
                (PACKET_BYTES * self.num_flows) as int,
                windows as int,
            );
        }
        self.cwnd += PACKET_BYTES * self.num_flows * windows;
    }

    /// Starts the part of the window over that belongs to a flow that timed out.
    pub fn handle_timeout(&mut self) -> (messages: Vec<Message>)
        requires
            old(self)@.wf(),
            old(self)@.timeout_fits(),
        ensures
            final(self)@ == old(self)@.backed_off().allocated(),
            final(self)@.wf(),
            announces(messages@, final(self)@.subflow_cwnd, final(self)@.subflow.dom()),
    {
        self.ss_thresh = self.ss_thresh / 2;
        if self.ss_thresh < self.init_cwnd {
            self.ss_thresh = self.init_cwnd;
        }
        let num_flows: u32 = self.flow_count();
        proof {
            vstd::arithmetic::mul::lemma_mul_nonnegative(self.cwnd as int, num_flows - 1);
            vstd::arithmetic::div_mod::lemma_div_pos_is_pos(
                self.cwnd * (num_flows - 1),
                num_flows as int,
            );
        }
        self.cwnd = self.cwnd * (num_flows - 1) / num_flows + self.init_cwnd;
        self.curr_cwnd_reduction = 0;
        assert(self@ =~= old(self)@.backed_off());
        self.send_pattern()
    }

    /// Accounts for lost and misordered packets; for reports in which there are any.
    pub fn cwnd_reduction(&mut self, loss: u32, sacked: u32, acked: u32) -> (messages: Vec<Message>)
        requires
            old(self)@.wf(),
            old(self)@.reduction_fits(loss, sacked, acked),
        ensures
            final(self)@ == old(self)@.reduced(loss, sacked, acked),
            final(self)@.wf(),
            old(self)@.must_reduce(loss, acked) ==> announces(
                messages@,
                final(self)@.subflow_cwnd,
                final(self)@.subflow.dom(),
            ),
            !old(self)@.must_reduce(loss, acked) ==> messages@.len() == 0,
    {
        let mut messages: Vec<Message> = Vec::new();
        if loss > 0 && self.curr_cwnd_reduction == 0 || (acked > 0 && self.cwnd
            == self.ss_thresh) {
            let num_flows: u32 = self.flow_count();
            self.cwnd = reduce(self.cwnd, num_flows, self.init_cwnd);
            self.ss_thresh = self.cwnd;
            assert(self@ =~= old(self)@.shrunk());
            messages = self.send_pattern();
        }
        self.curr_cwnd_reduction += sacked + loss;
        messages
    }

    /// Reacts to what a flow reports.
    pub fn measurement(&mut self, sock_id: u32, m: Measurement) -> (messages: Vec<Message>)
        requires
            old(self)@.wf(),
            old(self)@.measurement_fits(sock_id, m.fields()),
        ensures
            final(self)@ == old(self)@.measured(sock_id, m.fields()),
            final(self)@.wf(),
            old(self)@.must_announce(sock_id, m.fields()) ==> announces(
                messages@,
                final(self)@.subflow_cwnd,
                final(self)@.subflow.dom(),
            ),
            !old(self)@.must_announce(sock_id, m.fields()) ==> messages@.len() == 0,
    {
        let Fields { acked, was_timeout, sacked, loss, rtt, inflight, pending } = m.get_fields();
        self.subflow_rtt.insert(sock_id, rtt);
        self.subflow_pending.insert(sock_id, pending);
        self.subflow_util.insert(sock_id, acked + sacked);
        self.subflow_inflight.insert(sock_id, inflight);
        proof {
            assert(self@ =~= old(self)@.noted(sock_id, m.fields()));
            lemma_noted_wf(old(self)@, sock_id, m.fields());
        }
        if was_timeout {
            return self.handle_timeout();
        }
        self.additive_increase_with_slow_start(acked);
        let mut messages: Vec<Message> = Vec::new();
        if loss > 0 || sacked > 0 {
            messages = self.cwnd_reduction(loss, sacked, acked);
        } else if acked < self.curr_cwnd_reduction {
            self.curr_cwnd_reduction -= acked / PACKET_BYTES;
        } else {
            self.curr_cwnd_reduction = 0;
        }
        if self.curr_cwnd_reduction > 0 {
            return messages;
        }
        self.send_pattern()
    }

    /// Whether a flow can join without a number outgrowing its place.
    pub fn can_join(&self, info: &DatapathInfo) -> (res: bool)
        ensures
            forall|control: C| res == #[trigger] self@.join_fits(control, *info),
    {
        if self.num_flows == u32::MAX {
            return false;
        }
        let mut pending = self.subflow_pending.clone();
        pending.insert(info.sock_id, DEFAULT_PENDING_BYTES);
        let order = list_by_demand(&pending);
        proof {
            lemma_ascending_is(order@, pending@);
        }
        can_allocate_fairly(&order, self.cwnd, self.num_flows + 1)
    }

    /// Whether a report can be reacted to without a number outgrowing its place or a
    /// division by zero.
    pub fn can_measure(&self, sock_id: u32, m: &Measurement) -> (res: bool)
        ensures
            res == self@.measurement_fits(sock_id, m.fields()),
    {
        let fields = m.get_fields();
        let max: u64 = u32::MAX as u64;
        if fields.acked as u64 + fields.sacked as u64 > max {
            return false;
        }
        let mut pending = self.subflow_pending.clone();
        pending.insert(sock_id, fields.pending);
        let order = list_by_demand(&pending);
        proof {
            lemma_ascending_is(order@, pending@);
        }
        if fields.was_timeout {
            return match checked_timeout(self.cwnd, self.flow_count(), self.init_cwnd) {
                Some(cwnd) => can_allocate_fairly(&order, cwnd, self.num_flows),
                None => false,
            };
        }
        let cwnd: u32 = match checked_increase(
            self.cwnd,
            self.ss_thresh,
            self.num_flows,
            fields.acked,
        ) {
            Some(cwnd) => cwnd,
            None => {
                return false;
            },
        };
        if fields.loss > 0 || fields.sacked > 0 {
            if fields.loss > 0 && self.curr_cwnd_reduction == 0 || (fields.acked > 0 && cwnd
                == self.ss_thresh) {
                let num_flows: u32 = self.flow_count();
                if num_flows == 0 || 2 * num_flows as u64 > max {
                    return false;
                }
                let shrunk: u32 = reduce(cwnd, num_flows, self.init_cwnd);
                if !can_allocate_fairly(&order, shrunk, self.num_flows) {
                    return false;
                }
            }
            self.curr_cwnd_reduction as u64 + fields.sacked as u64 + fields.loss as u64 <= max
        } else {
            fields.acked < self.curr_cwnd_reduction || can_allocate_fairly(
                &order,
                cwnd,
                self.num_flows,
            )
        }
    }

    /// The window that the flows share.
    pub fn cwnd(&self) -> (res: u32)
        ensures
            res == self@.cwnd,
    {
        self.cwnd
    }

    /// The slow start threshold.
    pub fn ss_thresh(&self) -> (res: u32)
        ensures
            res == self@.ss_thresh,
    {
        self.ss_thresh
    }

    /// Losses for which the window has already been reduced.
    pub fn curr_cwnd_reduction(&self) -> (res: u32)
        ensures
            res == self@.curr_cwnd_reduction,
    {
        self.curr_cwnd_reduction
    }

    /// How many flows have joined.
    pub fn num_flows(&self) -> (res: u32)
        ensures
            res == self@.num_flows,
    {
        self.num_flows
    }

    /// The window that a flow was last given.
    pub fn flow_cwnd(&self, sock_id: u32) -> (res: Option<u32>)
        ensures
            res == (if self@.subflow_cwnd.contains_key(sock_id) {
                Some(self@.subflow_cwnd[sock_id])
            } else {
                None
            }),
    {
        match self.subflow_cwnd.get(&sock_id) {
            Some(cwnd) => Some(*cwnd),
            None => None,
        }
    }

    /// How to reach a flow.
    pub fn channel(&self, sock_id: u32) -> (res: Option<&C>)
        ensures
            res == (if self@.subflow.contains_key(sock_id) {
                Some(&self@.subflow[sock_id])
            } else {
                None
            }),
    {
        self.subflow.get(&sock_id)
    }
}

/// A flow that joins leaves the aggregate well formed.
proof fn lemma_joined_wf<C>(view: AggregateView<C>, control: C, info: DatapathInfo)
    requires
        view.wf(),
        view.num_flows < u32::MAX,
    ensures
        view.joined(control, info).wf(),
{
    let after = view.joined(control, info);
    assert(after.subflow.dom() =~= view.subflow.dom().insert(info.sock_id));
    assert(after.subflow_pending.dom() =~= view.subflow_pending.dom().insert(info.sock_id));
    assert(after.subflow_rtt.dom() =~= after.subflow_pending.dom());
    assert(after.subflow_util.dom() =~= after.subflow_pending.dom());
    assert(after.subflow_inflight.dom() =~= after.subflow_pending.dom());
}

/// Noting a report leaves the aggregate well formed.
proof fn lemma_noted_wf<C>(view: AggregateView<C>, sock_id: u32, fields: Fields)
    requires
        view.wf(),
    ensures
        view.noted(sock_id, fields).wf(),
{
    let after = view.noted(sock_id, fields);
    assert(after.subflow_pending.dom() =~= view.subflow_pending.dom().insert(sock_id));
    assert(after.subflow_rtt.dom() =~= after.subflow_pending.dom());
    assert(after.subflow_util.dom() =~= after.subflow_pending.dom());
    assert(after.subflow_inflight.dom() =~= after.subflow_pending.dom());
}

} // verus!
