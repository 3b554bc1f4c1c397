//! The congestion controller of a connection: loss-based CUBIC, or model-based BBR.
use vstd::prelude::*;

use crate::bbr::Bbr;
use crate::congestion::CongestionControl;
use crate::rate::{Gain, Pace, Rate};

verus! {

/// Which controller limits the sender.
#[derive(Debug)]
pub enum Controller {
    Cubic(CongestionControl),
    Bbr(Bbr),
}

/// The state of a controller.
#[verifier::ext_equal]
pub enum ControllerState {
    Cubic(CongestionControl),
    Bbr(crate::bbr::BbrState),
}

impl ControllerState {
    pub open spec fn wf(self) -> bool {
        match self {
            ControllerState::Cubic(c) => c.wf(),
            ControllerState::Bbr(b) => b.wf(),
        }
    }

    /// Bytes that may be in flight.
    pub open spec fn window(self) -> u32 {
        match self {
            ControllerState::Cubic(c) => c.cwnd,
            ControllerState::Bbr(b) => b.model.cwnd,
        }
    }

    /// Inside a fast-recovery episode; never so under BBR.
    pub open spec fn in_recovery(self) -> bool {
        match self {
            ControllerState::Cubic(c) => c.in_recovery,
            ControllerState::Bbr(_) => false,
        }
    }

    /// The modelled send rate; a standstill (no pacing) under CUBIC.
    pub open spec fn pace(self) -> Pace {
        match self {
            ControllerState::Cubic(_) => Pace {
                gain: crate::bbr::unit_gain(),
                rate: crate::rate::zero_rate(),
            },
            ControllerState::Bbr(b) => b.pace(),
        }
    }

    pub open spec fn acknowledged(self, acked: u32, rtt: Option<u64>, now_ms: u64) -> Self {
        match self {
            ControllerState::Cubic(c) => ControllerState::Cubic(
                crate::congestion::acknowledged(c, acked, now_ms),
            ),
            ControllerState::Bbr(b) => ControllerState::Bbr(
                crate::bbr::acknowledged(b, acked, rtt, now_ms),
            ),
        }
    }

    pub open spec fn partially_acknowledged(self, acked: u32) -> Self {
        match self {
            ControllerState::Cubic(c) => ControllerState::Cubic(
                crate::congestion::partially_acknowledged(c, acked),
            ),
            ControllerState::Bbr(_) => self,
        }
    }

    pub open spec fn duplicated(self) -> Self {
        match self {
            ControllerState::Cubic(c) => ControllerState::Cubic(crate::congestion::duplicated(c)),
            ControllerState::Bbr(b) => ControllerState::Bbr(crate::bbr::duplicated(b)),
        }
    }

    /// The next duplicate ACK is the one that calls for a fast retransmit.
    pub open spec fn at_threshold(self) -> bool {
        let seen = match self {
            ControllerState::Cubic(c) => c.dup_acks,
            ControllerState::Bbr(b) => b.model.dup_acks,
        };
        crate::congestion::counted(seen) == crate::congestion::DUP_ACK_THRESHOLD
    }

    pub open spec fn timed_out(self) -> Self {
        match self {
            ControllerState::Cubic(c) => ControllerState::Cubic(crate::congestion::timed_out(c)),
            ControllerState::Bbr(b) => ControllerState::Bbr(crate::bbr::timed_out(b)),
        }
    }
}

impl View for Controller {
    type V = ControllerState;

    open spec fn view(&self) -> ControllerState {
        match self {
            Controller::Cubic(c) => ControllerState::Cubic(*c),
            Controller::Bbr(b) => ControllerState::Bbr(b@),
        }
    }
}

impl Controller {
    pub open spec fn wf(self) -> bool {
        self@.wf()
    }

    /// A fresh loss-based controller.
    pub fn cubic() -> (c: Controller)
        ensures
            c@ == ControllerState::Cubic(crate::congestion::fresh()),
            c.wf(),
    {
        Controller::Cubic(CongestionControl::default())
    }

    /// A fresh model-based controller.
    pub fn bbr() -> (c: Controller)
        ensures
            c@ == ControllerState::Bbr(crate::bbr::fresh()),
            c.wf(),
    {
        Controller::Bbr(Bbr::new())
    }

    /// Bytes the network will currently let us keep in flight.
    pub fn window(&self) -> (w: u32)
        ensures
            w == self@.window(),
    {
        match self {
            Controller::Cubic(c) => c.window(),
            Controller::Bbr(b) => b.window(),
        }
    }

    /// An ACK of `acked` new bytes, with an RTT sample when one was measured. CUBIC ignores the
    /// sample.
    pub fn on_ack(&mut self, acked: u32, rtt_ms: Option<u64>, now_ms: u64)
        requires
            old(self).wf(),
        ensures
            final(self)@ == old(self)@.acknowledged(acked, rtt_ms, now_ms),
            final(self).wf(),
    {
        match self {
            Controller::Cubic(c) => c.on_ack(acked, now_ms),
            Controller::Bbr(b) => b.on_ack(acked, rtt_ms, now_ms),
        }
    }

    /// A partial ACK during fast recovery.
    pub fn on_partial_ack(&mut self, acked: u32)
        requires
            old(self).wf(),
        ensures
            final(self)@ == old(self)@.partially_acknowledged(acked),
            final(self).wf(),
    {
        match self {
            Controller::Cubic(c) => c.on_partial_ack(acked),
            Controller::Bbr(_) => {},
        }
    }

    /// A duplicate ACK. Returns `true` exactly on the third.
    pub fn on_dup_ack(&mut self, flight: u32) -> (retransmit: bool)
        requires
            old(self).wf(),
        ensures
            final(self)@ == old(self)@.duplicated(),
            retransmit == old(self)@.at_threshold(),
            final(self).wf(),
    {
        match self {
            Controller::Cubic(c) => c.on_dup_ack(flight),
            Controller::Bbr(b) => b.on_dup_ack(),
        }
    }

    /// The retransmission timer fired.
    pub fn on_timeout(&mut self, flight: u32)
        requires
            old(self).wf(),
        ensures
            final(self)@ == old(self)@.timed_out(),
            final(self).wf(),
    {
        match self {
            Controller::Cubic(c) => c.on_timeout(flight),
            Controller::Bbr(b) => b.on_timeout(),
        }
    }

    /// Are we inside a fast-recovery episode?
    pub fn in_recovery(&self) -> (r: bool)
        ensures
            r == self@.in_recovery(),
    {
        match self {
            Controller::Cubic(c) => c.in_recovery(),
            Controller::Bbr(b) => b.in_recovery(),
        }
    }

    /// The modelled send rate: zero until BBR has learned a bandwidth, and always under CUBIC.
    pub fn pacing_rate_bps(&self) -> (p: Pace)
        ensures
            p == self@.pace(),
    {
        match self {
            Controller::Cubic(_) => Pace { gain: Gain { num: 1, den: 1 }, rate: Rate::zero() },
            Controller::Bbr(b) => b.pacing_rate_bps(),
        }
    }
}

/// Under CUBIC every event reaches the loss-based controller; nothing is paced.
pub proof fn law_cubic_hears_every_event(
    k: CongestionControl,
    acked: u32,
    rtt: Option<u64>,
    now_ms: u64,
)
    ensures
        ({
            let c = ControllerState::Cubic(k);
            &&& c.acknowledged(acked, rtt, now_ms) == ControllerState::Cubic(
                crate::congestion::acknowledged(k, acked, now_ms),
            )
            &&& c.partially_acknowledged(acked) == ControllerState::Cubic(
                crate::congestion::partially_acknowledged(k, acked),
            )
            &&& c.duplicated() == ControllerState::Cubic(crate::congestion::duplicated(k))
            &&& c.timed_out() == ControllerState::Cubic(crate::congestion::timed_out(k))
            &&& c.at_threshold() <==> k.dup_acks == 2
            &&& c.in_recovery() == k.in_recovery && c.window() == k.cwnd
            &&& c.pace().rate.bytes == 0
        }),
{
}

/// Under BBR every event reaches the model; losses never put it into recovery, but the third
/// duplicate ACK still calls for a fast retransmit, and the rate is paced.
pub proof fn law_bbr_hears_every_event(
    b: crate::bbr::BbrState,
    acked: u32,
    rtt: Option<u64>,
    now_ms: u64,
)
    ensures
        ({
            let c = ControllerState::Bbr(b);
            &&& c.acknowledged(acked, rtt, now_ms) == ControllerState::Bbr(
                crate::bbr::acknowledged(b, acked, rtt, now_ms),
            )
            &&& c.partially_acknowledged(acked) == c
            &&& c.duplicated() == ControllerState::Bbr(crate::bbr::duplicated(b))
            &&& c.timed_out() == ControllerState::Bbr(crate::bbr::timed_out(b))
            &&& c.at_threshold() <==> b.model.dup_acks == 2
            &&& !c.in_recovery() && c.window() == b.model.cwnd
            &&& c.pace().gain == b.model.pacing_gain && c.pace().rate == crate::bbr::peak(b.bw)
        }),
{
}

} // verus!
