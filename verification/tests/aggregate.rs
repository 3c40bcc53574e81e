use ccp_aggregation_example::measurement::{
    ACKED_FIELD, INFLIGHT_FIELD, LOSS_FIELD, MEASUREMENT_PROGRAM, PENDING_FIELD, RTT_FIELD,
    SACKED_FIELD, TIMEOUT_FIELD,
};
use ccp_aggregation_example::{
    AggregationExample, AggregationExampleConfig, AggregationExampleKey, DatapathInfo, Event,
    Measurement, Message, Register, DEFAULT_PENDING_BYTES, DEFAULT_SS_THRESH,
};

fn info(sock_id: u32, init_cwnd: u32) -> DatapathInfo {
    DatapathInfo { sock_id, init_cwnd, src_ip: 0x0a000001 }
}

fn quiet(pending: u64) -> Measurement {
    Measurement { acked: 0, sacked: 0, timeout: 0, inflight: 3, loss: 0, rtt: 100, pending }
}

/// An aggregate in which each of `flows` flows has joined.
fn joined(flows: u32, init_cwnd: u32) -> AggregationExample<&'static str> {
    let cfg = AggregationExampleConfig::default();
    let mut agg = AggregationExample::create("first", cfg, info(1, init_cwnd));
    for sock_id in 1..flows + 1 {
        assert!(agg.can_join(&info(sock_id, init_cwnd)));
        agg.new_flow(info(sock_id, init_cwnd), "channel");
    }
    agg
}

fn report(
    agg: &mut AggregationExample<&'static str>,
    sock_id: u32,
    m: Measurement,
) -> Vec<Message> {
    assert!(agg.can_measure(sock_id, &m));
    agg.measurement(sock_id, m)
}

fn told(mut messages: Vec<Message>) -> Vec<(u32, u32)> {
    messages.sort_by_key(|m| m.sock_id);
    messages
        .iter()
        .map(|m| {
            assert_eq!(m.pattern.len(), 3);
            assert_eq!(m.pattern[1], Event::WaitRtts(1));
            assert_eq!(m.pattern[2], Event::Report);
            match m.pattern[0] {
                Event::SetCwndAbs(cwnd) => (m.sock_id, cwnd),
                _ => panic!("no window"),
            }
        })
        .collect()
}

#[test]
fn algorithm_name() {
    assert_eq!(AggregationExample::<u8>::name(), "aggregation");
}

#[test]
fn flows_from_one_address_share_a_key() {
    let a = DatapathInfo { sock_id: 1, init_cwnd: 10, src_ip: 7 };
    let b = DatapathInfo { sock_id: 2, init_cwnd: 20, src_ip: 7 };
    let c = DatapathInfo { sock_id: 1, init_cwnd: 10, src_ip: 8 };
    assert!(AggregationExampleKey::from(a) == AggregationExampleKey::from(b));
    assert!(AggregationExampleKey::from(a) != AggregationExampleKey::from(c));
}

#[test]
fn a_new_aggregate_knows_only_its_founder() {
    let agg = AggregationExample::create(5u8, AggregationExampleConfig::default(), info(9, 14480));
    assert_eq!(agg.cwnd(), 14480);
    assert_eq!(agg.ss_thresh(), DEFAULT_SS_THRESH);
    assert_eq!(agg.curr_cwnd_reduction(), 0);
    assert_eq!(agg.num_flows(), 0);
    assert_eq!(agg.channel(9), Some(&5u8));
    assert_eq!(agg.channel(8), None);
    assert_eq!(agg.flow_cwnd(9), None);
    assert_eq!(agg.send_pattern_alloc_messages(), vec![]);
    assert_eq!(agg.get_demand_vec(), vec![]);
    assert_eq!(agg.get_average_rtt(), 0);
    assert_eq!(agg.get_window_rr(), 14480);
}

#[test]
fn a_founder_that_has_not_joined_cannot_report() {
    let agg = AggregationExample::create(0u8, AggregationExampleConfig::default(), info(9, 14480));
    assert!(!agg.can_measure(9, &quiet(100)));
}

#[test]
fn a_flow_that_joins_gets_a_window() {
    let cfg = AggregationExampleConfig::default();
    let mut agg = AggregationExample::create(0u8, cfg, info(1, 20000));
    assert_eq!(told(agg.new_flow(info(1, 20000), 0)), vec![(1, DEFAULT_PENDING_BYTES)]);
    assert_eq!(told(agg.new_flow(info(2, 20000), 0)), vec![(1, 10000), (2, 10000)]);
    assert_eq!(agg.num_flows(), 2);
    assert_eq!(agg.flow_cwnd(2), Some(10000));
    assert_eq!(agg.flow_cwnd(3), None);
}

#[test]
fn a_flow_that_joins_twice_counts_twice() {
    let mut agg = joined(1, 20000);
    assert_eq!(told(agg.new_flow(info(1, 20000), "again")), vec![(1, 10000)]);
    assert_eq!(agg.num_flows(), 2);
    assert_eq!(agg.channel(1), Some(&"again"));
    assert_eq!(agg.get_window_rr(), 20000);
}

#[test]
fn the_window_is_divided_max_min_fairly() {
    let mut agg = joined(3, 30000);
    report(&mut agg, 1, quiet(30000));
    report(&mut agg, 2, quiet(1000));
    let messages = report(&mut agg, 3, quiet(9000));
    assert_eq!(told(messages), vec![(1, 20000), (2, 1000), (3, 9000)]);
    assert_eq!(agg.get_demand_vec(), vec![(2, 1000), (3, 9000), (1, 30000)]);
}

#[test]
fn a_flow_that_cannot_be_reached_is_passed_over() {
    let mut agg = joined(2, 20000);
    report(&mut agg, 1, quiet(20000));
    report(&mut agg, 2, quiet(20000));
    assert_eq!(told(report(&mut agg, 77, quiet(20000))), vec![(1, 10000), (2, 10000)]);
    assert_eq!(agg.flow_cwnd(77), Some(10000));
}

#[test]
fn splitting_among_more_flows_than_joined_can_fail() {
    let agg = joined(1, 20000);
    assert!(!agg.can_measure(77, &quiet(20000)));
    let mut agg = joined(1, 14480);
    assert!(agg.can_measure(77, &quiet(20000)));
    assert_eq!(told(report(&mut agg, 77, quiet(20000))), vec![(1, 14480)]);
}

#[test]
fn slow_start_grows_by_the_bytes_acknowledged() {
    let mut agg = joined(1, 14480);
    agg.additive_increase_with_slow_start(1448);
    assert_eq!(agg.cwnd(), 15928);
    report(&mut agg, 1, Measurement { acked: 72, ..quiet(100000) });
    assert_eq!(agg.cwnd(), 16000);
    assert_eq!(agg.flow_cwnd(1), Some(16000));
}

#[test]
fn past_the_threshold_the_window_grows_by_packets() {
    let mut agg = joined(2, 10000);
    // The threshold falls to the window: 10000 - 10000 / 4 is below the initial window.
    agg.cwnd_reduction(1, 0, 0);
    assert_eq!((agg.cwnd(), agg.ss_thresh()), (10000, 10000));
    agg.additive_increase_with_slow_start(25000);
    assert_eq!(agg.cwnd(), 10000 + 1448 * 2 * 2);
    agg.additive_increase_with_slow_start(15791);
    assert_eq!(agg.cwnd(), 15792);
}

#[test]
fn slow_start_stops_at_the_threshold() {
    let mut agg = joined(1, 10000);
    agg.additive_increase_with_slow_start(30000);
    agg.cwnd_reduction(1, 0, 0);
    assert_eq!((agg.cwnd(), agg.ss_thresh()), (20000, 20000));
    agg.handle_timeout();
    assert_eq!((agg.cwnd(), agg.ss_thresh()), (10000, 10000));
    agg.additive_increase_with_slow_start(0);
    agg.cwnd_reduction(0, 4, 0);
    assert_eq!(agg.curr_cwnd_reduction(), 4);
}

#[test]
fn a_loss_shrinks_one_flow_s_part() {
    let mut agg = joined(2, 10000);
    agg.additive_increase_with_slow_start(30000);
    let messages = report(&mut agg, 1, Measurement { loss: 2, sacked: 3, ..quiet(100000) });
    assert_eq!(agg.cwnd(), 30000);
    assert_eq!(agg.ss_thresh(), 30000);
    assert_eq!(agg.curr_cwnd_reduction(), 5);
    assert_eq!(told(messages), vec![(1, 15520), (2, 14480)]);
}

#[test]
fn losses_are_answered_once() {
    let mut agg = joined(2, 10000);
    agg.additive_increase_with_slow_start(30000);
    report(&mut agg, 1, Measurement { loss: 5000, ..quiet(100000) });
    let messages = report(&mut agg, 2, Measurement { loss: 1, ..quiet(100000) });
    assert_eq!(messages, vec![]);
    assert_eq!(agg.cwnd(), 30000);
    assert_eq!(agg.curr_cwnd_reduction(), 5001);
    // Two packets are made up for; nobody is told anything.
    assert_eq!(report(&mut agg, 1, Measurement { acked: 2900, ..quiet(100000) }), vec![]);
    assert_eq!(agg.curr_cwnd_reduction(), 4999);
    // More bytes than are left to make up for end the reduction.
    let messages = report(&mut agg, 1, Measurement { acked: 4999, ..quiet(100000) });
    assert_eq!(agg.curr_cwnd_reduction(), 0);
    assert_eq!(told(messages), vec![(1, 15000), (2, 15000)]);
}

#[test]
fn a_partial_acknowledgement_at_the_threshold_shrinks_again() {
    let mut agg = joined(1, 10000);
    agg.additive_increase_with_slow_start(30000);
    agg.cwnd_reduction(1, 0, 0);
    assert_eq!(agg.cwnd(), 20000);
    assert_eq!(told(agg.cwnd_reduction(0, 1, 100)), vec![(1, 10000)]);
    assert_eq!(agg.curr_cwnd_reduction(), 2);
}

#[test]
fn a_timeout_starts_one_part_over() {
    let mut agg = joined(3, 9000);
    agg.additive_increase_with_slow_start(21000);
    agg.cwnd_reduction(0, 7, 0);
    assert_eq!(agg.cwnd(), 30000);
    let messages = report(&mut agg, 2, Measurement { timeout: 1, acked: 500, ..quiet(100000) });
    assert_eq!(agg.cwnd(), 29000);
    assert_eq!(agg.ss_thresh(), DEFAULT_SS_THRESH / 2);
    assert_eq!(agg.curr_cwnd_reduction(), 0);
    assert_eq!(told(messages), vec![(1, 9666), (2, 9666), (3, 9666)]);
}

#[test]
fn registers_are_cut_to_32_bits() {
    let fields = Measurement {
        acked: 0x1_0000_0005,
        sacked: 6,
        timeout: 0x7_0000_0001,
        inflight: 0xffff_ffff,
        loss: 0xffff_ffff_0000_0000,
        rtt: 1,
        pending: 0x2_0000_0000 + 9,
    }
    .get_fields();
    assert_eq!(fields.acked, 5);
    assert_eq!(fields.sacked, 6);
    assert!(fields.was_timeout);
    assert_eq!(fields.inflight, 0xffff_ffff);
    assert_eq!(fields.loss, 0);
    assert_eq!(fields.rtt, 1);
    assert_eq!(fields.pending, 9);
    assert!(!Measurement { timeout: 2, ..quiet(0) }.get_fields().was_timeout);
    assert!(!quiet(0).get_fields().was_timeout);
}

#[test]
fn numbers_that_outgrow_their_place_are_refused() {
    let agg = joined(2, 10000);
    let max = u32::MAX as u64;
    assert!(!agg.can_measure(1, &Measurement { acked: max, sacked: 1, ..quiet(0) }));
    assert!(!agg.can_measure(1, &Measurement { acked: max, ..quiet(0) }));
    assert!(agg.can_measure(1, &Measurement { acked: max - 0x8000_0000, ..quiet(0) }));
    assert!(!agg.can_measure(1, &Measurement { loss: max, sacked: 1, ..quiet(0) }));
    assert!(agg.can_measure(1, &Measurement { loss: max, ..quiet(0) }));
    let zero = joined(1, 0);
    assert!(!zero.can_measure(1, &quiet(0)));
    assert!(zero.can_measure(1, &Measurement { acked: 1, ..quiet(0) }));
    let mut large = joined(4, 0x7000_0000);
    assert!(!large.can_measure(1, &Measurement { timeout: 1, ..quiet(0) }));
    large.cwnd_reduction(1, 0, 0);
    assert_eq!(large.cwnd(), 0x7000_0000);
}

#[test]
fn an_even_split_ignores_demand() {
    let mut agg = joined(3, 30001);
    report(&mut agg, 2, quiet(5));
    assert_eq!(
        told(agg.send_pattern_alloc_rr()),
        vec![(1, 10000), (2, 10000), (3, 10000)]
    );
}

#[test]
fn windows_in_proportion_to_demand_use_the_entire_window() {
    let mut agg = joined(3, 8000);
    report(&mut agg, 1, quiet(100));
    report(&mut agg, 2, quiet(300));
    report(&mut agg, 3, quiet(600));
    assert_eq!(
        told(agg.send_pattern_alloc_proportional()),
        vec![(1, 800), (2, 2400), (3, 4800)]
    );
}

#[test]
fn without_demand_the_split_is_even() {
    let mut agg = joined(2, 8000);
    report(&mut agg, 1, quiet(0));
    report(&mut agg, 2, quiet(0));
    assert_eq!(told(agg.send_pattern_alloc_proportional()), vec![(1, 4000), (2, 4000)]);
}

#[test]
fn shortest_first_keeps_larger_flows_out() {
    let mut agg = joined(4, 10000);
    report(&mut agg, 1, quiet(9000));
    report(&mut agg, 2, quiet(2000));
    report(&mut agg, 3, quiet(50000));
    report(&mut agg, 4, quiet(100));
    assert_eq!(
        told(agg.send_pattern_alloc_srpt()),
        vec![(1, 7900), (2, 2000), (3, 1), (4, 100)]
    );
}

#[test]
fn shortest_first_with_room_meets_every_demand() {
    let mut agg = joined(3, 10000);
    report(&mut agg, 1, quiet(9000));
    report(&mut agg, 2, quiet(0));
    report(&mut agg, 3, quiet(999));
    assert_eq!(told(agg.send_pattern_alloc_srpt()), vec![(1, 9000), (2, 0), (3, 999)]);
}

#[test]
fn flows_take_turns() {
    let mut agg = joined(3, 9000);
    report(&mut agg, 1, Measurement { rtt: 10, ..quiet(1) });
    report(&mut agg, 2, Measurement { rtt: 20, ..quiet(1) });
    report(&mut agg, 3, Measurement { rtt: 31, ..quiet(1) });
    assert_eq!(agg.get_average_rtt(), 20);
    assert_eq!(agg.get_window_rr(), 3000);
    let messages = agg.send_pattern_sched_rr();
    assert_eq!(messages.len(), 3);
    let mut socks: Vec<u32> = messages.iter().map(|m| m.sock_id).collect();
    socks.sort();
    assert_eq!(socks, vec![1, 2, 3]);
    for (i, m) in messages.iter().enumerate() {
        let turn = i as u32;
        assert_eq!(
            m.pattern,
            vec![
                Event::SetCwndAbs(2),
                Event::WaitNs(20000 * turn),
                Event::SetCwndAbs(3000),
                Event::WaitNs(20000),
                Event::SetCwndAbs(2),
                Event::WaitNs(20000 * (2 - turn)),
                Event::Report,
            ]
        );
    }
}

#[test]
fn the_program_fills_the_registers_that_are_read() {
    for field in vec![
        ACKED_FIELD,
        SACKED_FIELD,
        TIMEOUT_FIELD,
        INFLIGHT_FIELD,
        LOSS_FIELD,
        RTT_FIELD,
        PENDING_FIELD,
    ] {
        assert!(MEASUREMENT_PROGRAM.contains(&format!("(bind {} ", field)));
    }
}

#[test]
fn a_report_is_about_one_flow() {
    let mut agg = joined(2, 20000);
    report(&mut agg, 1, Measurement { rtt: 40, ..quiet(700) });
    report(&mut agg, 2, Measurement { rtt: 60, ..quiet(900) });
    report(&mut agg, 1, Measurement { rtt: 80, ..quiet(300) });
    assert_eq!(agg.get_demand_vec(), vec![(1, 300), (2, 900)]);
    assert_eq!(agg.get_average_rtt(), 70);
    assert_eq!(agg.num_flows(), 2);
}

#[test]
fn a_clean_report_never_shrinks_the_window() {
    let mut agg = joined(2, 20000);
    for acked in vec![0, 1, 1448, 100000] {
        let before = agg.cwnd();
        report(&mut agg, 2, Measurement { acked, ..quiet(5000) });
        assert!(agg.cwnd() >= before);
        assert_eq!(agg.ss_thresh(), DEFAULT_SS_THRESH);
    }
    assert_eq!(agg.cwnd(), 20000 + 1 + 1448 + 100000);
}

#[test]
fn members_can_always_report_and_join() {
    let mut agg = joined(3, 100);
    for pending in vec![0, 33, 34, 1000000] {
        for sock_id in 1..4 {
            report(&mut agg, sock_id, quiet(pending));
        }
        assert!(agg.can_join(&info(4, 100)));
    }
}

#[test]
fn one_flow_gets_the_entire_window() {
    let mut agg = joined(1, 10000);
    assert_eq!(told(agg.send_pattern_alloc_proportional()), vec![(1, 10000)]);
}

#[test]
fn what_rounding_leaves_is_less_than_a_byte_per_flow() {
    let mut agg = joined(3, 10000);
    let windows = told(agg.send_pattern_alloc_proportional());
    assert_eq!(windows, vec![(1, 3333), (2, 3333), (3, 3333)]);
}

#[test]
fn a_report_with_a_register_missing_is_refused() {
    let full = |missing: usize| {
        let at = |i: usize| if i == missing { None } else { Some(i as u64 + 1) };
        Measurement::from_registers(at(0), at(1), at(2), at(3), at(4), at(5), at(6))
    };
    let m = full(7).unwrap();
    assert_eq!((m.acked, m.sacked, m.timeout, m.inflight), (1, 2, 3, 4));
    assert_eq!((m.loss, m.rtt, m.pending), (5, 6, 7));
    assert_eq!(full(0).err(), Some(Register::Acked));
    assert_eq!(full(1).err(), Some(Register::Sacked));
    assert_eq!(full(2).err(), Some(Register::Timeout));
    assert_eq!(full(3).err(), Some(Register::Inflight));
    assert_eq!(full(4).err(), Some(Register::Loss));
    assert_eq!(full(5).err(), Some(Register::Rtt));
    assert_eq!(full(6).err(), Some(Register::Pending));
    let none = Measurement::from_registers(None, None, None, None, None, None, None);
    assert_eq!(none.err(), Some(Register::Acked));
}

#[test]
fn channels_are_kept() {
    let mut agg = joined(2, 20000);
    agg.new_flow(info(3, 20000), "third");
    report(&mut agg, 2, quiet(10));
    assert_eq!(agg.channel(1), Some(&"channel"));
    assert_eq!(agg.channel(2), Some(&"channel"));
    assert_eq!(agg.channel(3), Some(&"third"));
}

#[test]
fn members_hear_every_announcement_once() {
    let mut agg = joined(3, 30000);
    let members = |messages: Vec<Message>| -> Vec<u32> {
        told(messages).iter().map(|t| t.0).collect()
    };
    assert_eq!(members(report(&mut agg, 2, quiet(40))), vec![1, 2, 3]);
    assert_eq!(members(agg.new_flow(info(4, 30000), "fourth")), vec![1, 2, 3, 4]);
    let timeout = Measurement { timeout: 1, ..quiet(40) };
    assert_eq!(members(report(&mut agg, 1, timeout)), vec![1, 2, 3, 4]);
    assert_eq!(members(agg.send_pattern_alloc_rr()), vec![1, 2, 3, 4]);
    assert_eq!(members(agg.send_pattern_alloc_proportional()), vec![1, 2, 3, 4]);
    assert_eq!(members(agg.send_pattern_alloc_srpt()), vec![1, 2, 3, 4]);
}

#[test]
fn a_founder_is_a_member_once_it_reports() {
    let cfg = AggregationExampleConfig::default();
    let mut agg = AggregationExample::create("first", cfg, info(1, 14480));
    agg.new_flow(info(2, 14480), "second");
    assert_eq!(agg.flow_cwnd(1), None);
    assert_eq!(told(report(&mut agg, 1, quiet(20000))), vec![(1, 14480), (2, 14480)]);
}
