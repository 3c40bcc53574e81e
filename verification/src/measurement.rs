//! What flows are asked to measure, and what they report.

use vstd::prelude::*;

verus! {

/// The program that each flow runs per packet, to gather what it reports.
pub const MEASUREMENT_PROGRAM: &'static str = "
                (def (acked 0) (sacked 0) (loss 0) (timeout false) (rtt 0) (inflight 0) (pending 0))
                (bind Flow.inflight Pkt.packets_in_flight)
                (bind Flow.rtt Pkt.rtt_sample_us)
                (bind Flow.acked (+ Flow.acked Pkt.bytes_acked))
                (bind Flow.sacked (+ Flow.sacked Pkt.packets_misordered))
                (bind Flow.loss Pkt.lost_pkts_sample)
                (bind Flow.timeout Pkt.was_timeout)
                (bind Flow.pending Pkt.bytes_pending)
                (bind isUrgent Pkt.was_timeout)
                (bind isUrgent (!if isUrgent (> Flow.loss 0)))
             ";

/// The register for `acked`.
pub const ACKED_FIELD: &'static str = "Flow.acked";

/// The register for `sacked`.
pub const SACKED_FIELD: &'static str = "Flow.sacked";

/// The register for `timeout`.
pub const TIMEOUT_FIELD: &'static str = "Flow.timeout";

/// The register for `inflight`.
pub const INFLIGHT_FIELD: &'static str = "Flow.inflight";

/// The register for `loss`.
pub const LOSS_FIELD: &'static str = "Flow.loss";

/// The register for `rtt`.
pub const RTT_FIELD: &'static str = "Flow.rtt";

/// The register for `pending`.
pub const PENDING_FIELD: &'static str = "Flow.pending";

/// The registers that a flow reports, as it sends them.
#[derive(Clone, Copy, Debug)]
pub struct Measurement {
    pub acked: u64,
    pub sacked: u64,
    pub timeout: u64,
    pub inflight: u64,
    pub loss: u64,
    pub rtt: u64,
    pub pending: u64,
}

/// A register that a report must hold.
#[derive(Clone, Copy, Debug, PartialEq, Eq, Structural)]
pub enum Register {
    Acked,
    Sacked,
    Timeout,
    Inflight,
    Loss,
    Rtt,
    Pending,
}

/// The first register that is missing, in the order in which they are read.
pub open spec fn first_missing(
    acked: Option<u64>,
    sacked: Option<u64>,
    timeout: Option<u64>,
    inflight: Option<u64>,
    loss: Option<u64>,
    rtt: Option<u64>,
    pending: Option<u64>,
) -> Option<Register> {
    if acked is None {
        Some(Register::Acked)
    } else if sacked is None {
        Some(Register::Sacked)
    } else if timeout is None {
        Some(Register::Timeout)
    } else if inflight is None {
        Some(Register::Inflight)
    } else if loss is None {
        Some(Register::Loss)
    } else if rtt is None {
        Some(Register::Rtt)
    } else if pending is None {
        Some(Register::Pending)
    } else {
        None
    }
}

/// What a report says.
#[derive(Clone, Copy, Debug, PartialEq, Eq, Structural)]
pub struct Fields {
    /// Bytes acknowledged in order.
    pub acked: u32,
    /// Whether the flow timed out.
    pub was_timeout: bool,
    /// Packets acknowledged out of order.
    pub sacked: u32,
    /// Packets lost.
    pub loss: u32,
    /// The round trip time in microseconds.
    pub rtt: u32,
    /// Packets in flight.
    pub inflight: u32,
    /// Bytes waiting to be sent.
    pub pending: u32,
}

/// The low 32 bits of a register.
pub open spec fn low_bits(register: u64) -> u32 {
    (register % 0x1_0000_0000) as u32
}

impl Measurement {
    /// Puts a report together from its registers. A report with a register missing is
    /// refused, with the first one missing.
    pub fn from_registers(
        acked: Option<u64>,
        sacked: Option<u64>,
        timeout: Option<u64>,
        inflight: Option<u64>,
        loss: Option<u64>,
        rtt: Option<u64>,
        pending: Option<u64>,
    ) -> (res: Result<Measurement, Register>)
        ensures
            match first_missing(acked, sacked, timeout, inflight, loss, rtt, pending) {
                Some(register) => res == Err::<Measurement, Register>(register),
                None => res == Ok::<Measurement, Register>(
                    Measurement {
                        acked: acked->0,
                        sacked: sacked->0,
                        timeout: timeout->0,
                        inflight: inflight->0,
                        loss: loss->0,
                        rtt: rtt->0,
                        pending: pending->0,
                    },
                ),
            },
    {
        let acked: u64 = match acked {
            Some(value) => value,
            None => {
                return Err(Register::Acked);
            },
        };
        let sacked: u64 = match sacked {
            Some(value) => value,
            None => {
                return Err(Register::Sacked);
            },
        };
        let timeout: u64 = match timeout {
            Some(value) => value,
            None => {
                return Err(Register::Timeout);
            },
        };
        let inflight: u64 = match inflight {
            Some(value) => value,
            None => {
                return Err(Register::Inflight);
            },
        };
        let loss: u64 = match loss {
            Some(value) => value,
            None => {
                return Err(Register::Loss);
            },
        };
        let rtt: u64 = match rtt {
            Some(value) => value,
            None => {
                return Err(Register::Rtt);
            },
        };
        let pending: u64 = match pending {
            Some(value) => value,
            None => {
                return Err(Register::Pending);
            },
        };
        Ok(Measurement { acked, sacked, timeout, inflight, loss, rtt, pending })
    }

    /// Each register is cut to 32 bits; a flow timed out if its register then holds one.
    pub open spec fn fields(self) -> Fields {
        Fields {
            acked: low_bits(self.acked),
            was_timeout: low_bits(self.timeout) == 1,
            sacked: low_bits(self.sacked),
            loss: low_bits(self.loss),
            rtt: low_bits(self.rtt),
            inflight: low_bits(self.inflight),
            pending: low_bits(self.pending),
        }
    }

    /// Reads the fields of a report.
    pub fn get_fields(&self) -> (res: Fields)
        ensures
            res == self.fields(),
    {
        Fields {
            acked: cut(self.acked),
            was_timeout: cut(self.timeout) == 1,
            sacked: cut(self.sacked),
            loss: cut(self.loss),
            rtt: cut(self.rtt),
            inflight: cut(self.inflight),
            pending: cut(self.pending),
        }
    }
}

fn cut(register: u64) -> (res: u32)
    ensures
        res == low_bits(register),
{
    assert(register as u32 == register % 0x1_0000_0000) by (bit_vector);
    #[verifier::truncate]
    (register as u32)
}

/// `text` has `part` in it, starting at `at`.
pub open spec fn has_at(text: Seq<char>, part: Seq<char>, at: int) -> bool {
    &&& 0 <= at
    &&& at + part.len() <= text.len()
    &&& text.subrange(at, at + part.len()) == part
}

/// `text` has `part` in it.
pub open spec fn has(text: Seq<char>, part: Seq<char>) -> bool {
    exists|at: int| has_at(text, part, at)
}

/// The names under which registers are looked up are those that the program binds.
pub proof fn law_register_names()
    ensures
        ACKED_FIELD@ == "Flow."@ + "acked"@,
        SACKED_FIELD@ == "Flow."@ + "sacked"@,
        TIMEOUT_FIELD@ == "Flow."@ + "timeout"@,
        INFLIGHT_FIELD@ == "Flow."@ + "inflight"@,
        LOSS_FIELD@ == "Flow."@ + "loss"@,
        RTT_FIELD@ == "Flow."@ + "rtt"@,
        PENDING_FIELD@ == "Flow."@ + "pending"@,
{
    reveal_strlit("Flow.");
    reveal_strlit("Flow.acked");
    reveal_strlit("acked");
    assert(ACKED_FIELD@ =~= "Flow."@ + "acked"@);
    reveal_strlit("Flow.sacked");
    reveal_strlit("sacked");
    assert(SACKED_FIELD@ =~= "Flow."@ + "sacked"@);
    reveal_strlit("Flow.timeout");
    reveal_strlit("timeout");
    assert(TIMEOUT_FIELD@ =~= "Flow."@ + "timeout"@);
    reveal_strlit("Flow.inflight");
    reveal_strlit("inflight");
    assert(INFLIGHT_FIELD@ =~= "Flow."@ + "inflight"@);
    reveal_strlit("Flow.loss");
    reveal_strlit("loss");
    assert(LOSS_FIELD@ =~= "Flow."@ + "loss"@);
    reveal_strlit("Flow.rtt");
    reveal_strlit("rtt");
    assert(RTT_FIELD@ =~= "Flow."@ + "rtt"@);
    reveal_strlit("Flow.pending");
    reveal_strlit("pending");
    assert(PENDING_FIELD@ =~= "Flow."@ + "pending"@);
}

/// What the program gathers: registers start at zero; bytes acknowledged and packets
/// misordered add up; the others hold what the last packet showed; and a report is urgent
/// on a timeout or a loss.
pub proof fn law_program()
    ensures
        has(
            MEASUREMENT_PROGRAM@,
            "(def (acked 0) (sacked 0) (loss 0) (timeout false) (rtt 0) (inflight 0) (pending 0))"@,
        ),
        has(MEASUREMENT_PROGRAM@, "(bind Flow.inflight Pkt.packets_in_flight)"@),
        has(MEASUREMENT_PROGRAM@, "(bind Flow.rtt Pkt.rtt_sample_us)"@),
        has(MEASUREMENT_PROGRAM@, "(bind Flow.acked (+ Flow.acked Pkt.bytes_acked))"@),
        has(MEASUREMENT_PROGRAM@, "(bind Flow.sacked (+ Flow.sacked Pkt.packets_misordered))"@),
        has(MEASUREMENT_PROGRAM@, "(bind Flow.loss Pkt.lost_pkts_sample)"@),
        has(MEASUREMENT_PROGRAM@, "(bind Flow.timeout Pkt.was_timeout)"@),
        has(MEASUREMENT_PROGRAM@, "(bind Flow.pending Pkt.bytes_pending)"@),
        has(MEASUREMENT_PROGRAM@, "(bind isUrgent Pkt.was_timeout)"@),
        has(MEASUREMENT_PROGRAM@, "(bind isUrgent (!if isUrgent (> Flow.loss 0)))"@),
{
    let program = MEASUREMENT_PROGRAM@;
    reveal_strlit("
                (def (acked 0) (sacked 0) (loss 0) (timeout false) (rtt 0) (inflight 0) (pending 0))
                (bind Flow.inflight Pkt.packets_in_flight)
                (bind Flow.rtt Pkt.rtt_sample_us)
                (bind Flow.acked (+ Flow.acked Pkt.bytes_acked))
                (bind Flow.sacked (+ Flow.sacked Pkt.packets_misordered))
                (bind Flow.loss Pkt.lost_pkts_sample)
                (bind Flow.timeout Pkt.was_timeout)
                (bind Flow.pending Pkt.bytes_pending)
                (bind isUrgent Pkt.was_timeout)
                (bind isUrgent (!if isUrgent (> Flow.loss 0)))
             ");
    reveal_strlit("(def (acked 0) (sacked 0) (loss 0) (timeout false) (rtt 0) (inflight 0) (pending 0))");
    assert(program.subrange(17, 101)
        =~= "(def (acked 0) (sacked 0) (loss 0) (timeout false) (rtt 0) (inflight 0) (pending 0))"@);
    assert(has_at(
        program,
        "(def (acked 0) (sacked 0) (loss 0) (timeout false) (rtt 0) (inflight 0) (pending 0))"@,
        17,
    ));
    reveal_strlit("(bind Flow.inflight Pkt.packets_in_flight)");
    assert(program.subrange(118, 160)
        =~= "(bind Flow.inflight Pkt.packets_in_flight)"@);
    assert(has_at(program, "(bind Flow.inflight Pkt.packets_in_flight)"@, 118));
    reveal_strlit("(bind Flow.rtt Pkt.rtt_sample_us)");
    assert(program.subrange(177, 210)
        =~= "(bind Flow.rtt Pkt.rtt_sample_us)"@);
    assert(has_at(program, "(bind Flow.rtt Pkt.rtt_sample_us)"@, 177));
    reveal_strlit("(bind Flow.acked (+ Flow.acked Pkt.bytes_acked))");
    assert(program.subrange(227, 275)
        =~= "(bind Flow.acked (+ Flow.acked Pkt.bytes_acked))"@);
    assert(has_at(program, "(bind Flow.acked (+ Flow.acked Pkt.bytes_acked))"@, 227));
    reveal_strlit("(bind Flow.sacked (+ Flow.sacked Pkt.packets_misordered))");
    assert(program.subrange(292, 349)
        =~= "(bind Flow.sacked (+ Flow.sacked Pkt.packets_misordered))"@);
    assert(has_at(program, "(bind Flow.sacked (+ Flow.sacked Pkt.packets_misordered))"@, 292));
    reveal_strlit("(bind Flow.loss Pkt.lost_pkts_sample)");
    assert(program.subrange(366, 403)
        =~= "(bind Flow.loss Pkt.lost_pkts_sample)"@);
    assert(has_at(program, "(bind Flow.loss Pkt.lost_pkts_sample)"@, 366));
    reveal_strlit("(bind Flow.timeout Pkt.was_timeout)");
    assert(program.subrange(420, 455)
        =~= "(bind Flow.timeout Pkt.was_timeout)"@);
    assert(has_at(program, "(bind Flow.timeout Pkt.was_timeout)"@, 420));
    reveal_strlit("(bind Flow.pending Pkt.bytes_pending)");
    assert(program.subrange(472, 509)
        =~= "(bind Flow.pending Pkt.bytes_pending)"@);
    assert(has_at(program, "(bind Flow.pending Pkt.bytes_pending)"@, 472));
    reveal_strlit("(bind isUrgent Pkt.was_timeout)");
    assert(program.subrange(526, 557)
        =~= "(bind isUrgent Pkt.was_timeout)"@);
    assert(has_at(program, "(bind isUrgent Pkt.was_timeout)"@, 526));
    reveal_strlit("(bind isUrgent (!if isUrgent (> Flow.loss 0)))");
    assert(program.subrange(574, 620)
        =~= "(bind isUrgent (!if isUrgent (> Flow.loss 0)))"@);
    assert(has_at(program, "(bind isUrgent (!if isUrgent (> Flow.loss 0)))"@, 574));
}

} // verus!
