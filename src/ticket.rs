//! Citations and the average-speed arithmetic behind them.
use vstd::prelude::*;

verus! {

/// Seconds in an hour times one hundred: speeds are reported in hundredths
/// of a distance unit per hour.
pub const HUNDREDTHS_PER_HOUR: u64 = 360000;

/// Average speed between two sightings, in hundredths of a unit per hour,
/// rounded down.
pub open spec fn speed_of(timestamp1: u32, mile1: u16, timestamp2: u32, mile2: u16) -> int {
    ((mile2 - mile1) * 360000) / (timestamp2 - timestamp1)
}

/// Average speed between `mile1` at `timestamp1` and `mile2` at `timestamp2`,
/// in hundredths of a unit per hour, rounded down. Both time and position
/// must strictly increase.
pub fn speed(timestamp1: u32, mile1: u16, timestamp2: u32, mile2: u16) -> (r: u64)
    requires
        timestamp2 > timestamp1,
        mile2 > mile1,
    ensures
        r == speed_of(timestamp1, mile1, timestamp2, mile2),
{
    let distance = (mile2 - mile1) as u64;
    let elapsed = (timestamp2 - timestamp1) as u64;
    assert(distance * 360000 <= 65535 * 360000) by (nonlinear_arith)
        requires
            distance <= 65535,
    ;
    (distance * HUNDREDTHS_PER_HOUR) / elapsed
}

/// What a citation is, abstractly.
pub struct TicketView {
    pub plate: Seq<char>,
    pub road_id: u16,
    pub mile1: u16,
    pub timestamp1: u32,
    pub mile2: u16,
    pub timestamp2: u32,
}

/// One citation: a vehicle seen at `mile1` at `timestamp1` and at `mile2` at
/// `timestamp2` on one road, too fast in between.
pub struct Ticket {
    pub plate: String,
    pub road_id: u16,
    pub mile1: u16,
    pub timestamp1: u32,
    pub mile2: u16,
    pub timestamp2: u32,
}

impl View for Ticket {
    type V = TicketView;

    open spec fn view(&self) -> TicketView {
        TicketView {
            plate: self.plate@,
            road_id: self.road_id,
            mile1: self.mile1,
            timestamp1: self.timestamp1,
            mile2: self.mile2,
            timestamp2: self.timestamp2,
        }
    }
}

impl Ticket {
    /// Time and position both strictly increase over the citation's interval.
    pub open spec fn wf(&self) -> bool {
        self.timestamp1 < self.timestamp2 && self.mile1 < self.mile2
    }

    /// The average speed over the citation's interval.
    pub fn calculate_speed(&self) -> (r: u64)
        requires
            self.wf(),
        ensures
            r == speed_of(self.timestamp1, self.mile1, self.timestamp2, self.mile2),
    {
        speed(self.timestamp1, self.mile1, self.timestamp2, self.mile2)
    }
}

impl PartialEq for Ticket {
    fn eq(&self, other: &Ticket) -> (r: bool) {
        self.plate == other.plate && self.road_id == other.road_id && self.mile1 == other.mile1
            && self.timestamp1 == other.timestamp1 && self.mile2 == other.mile2
            && self.timestamp2 == other.timestamp2
    }
}

impl vstd::std_specs::cmp::PartialEqSpecImpl for Ticket {
    open spec fn obeys_eq_spec() -> bool {
        true
    }

    open spec fn eq_spec(&self, other: &Ticket) -> bool {
        self@ == other@
    }
}

} // verus!
