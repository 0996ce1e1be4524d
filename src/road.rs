//! One road's monitor: sightings per vehicle, attached dispatchers, and the
//! queue of citations waiting for a dispatcher.
//!
//! A dispatcher is known to the monitor by its id. The monitor does not send
//! anything itself: recording a sighting returns the deliveries to make, and
//! attaching a dispatcher returns the citations that were waiting for it, so
//! the caller performs each send. Every operation takes the monitor by `&mut`,
//! so "check the attached dispatchers, then deliver or queue" and "attach, then
//! drain the queue" never interleave; a monitor shared between threads sits
//! behind one lock.
use crate::car::{Car, CarView};
use crate::keyed::{as_map, has_key, keys_distinct, lemma_as_map_at, lemma_as_map_push, lemma_as_map_update};
use crate::sightings::{
    all_citations, citation_for, citations, covers, insert_sighting, is_table, is_violation,
    lemma_citations_days, table_insert,
};
use crate::ticket::{speed, Ticket, TicketView};
use vstd::prelude::*;

verus! {

/// A citation handed to the dispatcher with id `dispatcher`, abstractly.
pub struct DeliveryView {
    pub dispatcher: u32,
    pub ticket: TicketView,
}

/// A citation to be handed to the dispatcher with id `dispatcher`.
pub struct Delivery {
    pub dispatcher: u32,
    pub ticket: Ticket,
}

impl View for Delivery {
    type V = DeliveryView;

    open spec fn view(&self) -> DeliveryView {
        DeliveryView { dispatcher: self.dispatcher, ticket: self.ticket@ }
    }
}

/// A dispatcher with this id is already attached to the road.
#[derive(Debug, PartialEq, Eq, Structural)]
pub struct ConflictError {
    pub id: u32,
}

/// No dispatcher with this id is attached to the road.
#[derive(Debug, PartialEq, Eq, Structural)]
pub struct NotFoundError {
    pub id: u32,
}

/// What a road monitor is, abstractly.
pub struct RoadMonitorView {
    pub road_id: u16,
    /// Citations issued while no dispatcher was attached, oldest first.
    pub pending: Seq<TicketView>,
    /// Ids of the attached dispatchers.
    pub dispatchers: Set<u32>,
    /// Each vehicle's sightings on this road, by plate, ordered by time.
    pub sightings: Map<Seq<char>, Seq<(u32, u16)>>,
}

/// A monitor for `road_id` that has seen nothing yet.
pub open spec fn fresh_monitor(road_id: u16) -> RoadMonitorView {
    RoadMonitorView {
        road_id,
        pending: Seq::empty(),
        dispatchers: Set::empty(),
        sightings: Map::empty(),
    }
}

/// The sightings of the vehicle with `plate` on the road; none if never seen.
pub open spec fn table_of(m: RoadMonitorView, plate: Seq<char>) -> Seq<(u32, u16)> {
    if m.sightings.contains_key(plate) {
        m.sightings[plate]
    } else {
        Seq::empty()
    }
}

/// `d` is the lowest id of the set.
pub open spec fn is_lowest(s: Set<u32>, d: u32) -> bool {
    s.contains(d) && forall|e: u32| #[trigger] s.contains(e) ==> d <= e
}

/// The citations that a sighting recorded on `old_m` issued, given the
/// vehicle as it was before and the monitor after.
pub open spec fn emitted(old_m: RoadMonitorView, old_c: CarView, limit: u16, new_m: RoadMonitorView) -> Seq<TicketView> {
    all_citations(new_m.sightings[old_c.plate], old_c.days, limit, old_c.plate, old_m.road_id).0
}

/// Recording a sighting of `old_c` at `mile` and `time` under `limit` took the
/// monitor from `old_m` to `new_m`, the vehicle to `new_c`, and handed out `out`.
/// The sighting enters the vehicle's table; every adjacent pair of the table is
/// scanned in order; each citation goes to the attached dispatcher with the
/// lowest id, or to the end of the pending queue when none is attached.
pub open spec fn recorded(
    old_m: RoadMonitorView,
    old_c: CarView,
    mile: u16,
    time: u32,
    limit: u16,
    new_m: RoadMonitorView,
    new_c: CarView,
    out: Seq<DeliveryView>,
) -> bool {
    let table = new_m.sightings[old_c.plate];
    let scan = all_citations(table, old_c.days, limit, old_c.plate, old_m.road_id);
    &&& new_m.road_id == old_m.road_id
    &&& new_m.dispatchers == old_m.dispatchers
    &&& new_m.sightings == old_m.sightings.insert(old_c.plate, table)
    &&& table_insert(table_of(old_m, old_c.plate), time, mile, table)
    &&& new_c == CarView { plate: old_c.plate, days: scan.1 }
    &&& if old_m.dispatchers == Set::<u32>::empty() {
        &&& out.len() == 0
        &&& new_m.pending == old_m.pending + scan.0
    } else {
        &&& new_m.pending == old_m.pending
        &&& out.len() == scan.0.len()
        &&& forall|i: int|
            0 <= i < out.len() ==> is_lowest(old_m.dispatchers, #[trigger] out[i].dispatcher)
                && out[i].ticket == scan.0[i]
    }
}

/// Attaching dispatcher `id` to `old_m` gave `new_m` and handed it `drained`:
/// the id was not attached, the whole pending queue went to it in order, and
/// the queue is empty.
pub open spec fn attached(old_m: RoadMonitorView, id: u32, new_m: RoadMonitorView, drained: Seq<TicketView>) -> bool {
    &&& !old_m.dispatchers.contains(id)
    &&& drained == old_m.pending
    &&& new_m == RoadMonitorView {
        dispatchers: old_m.dispatchers.insert(id),
        pending: Seq::empty(),
        ..old_m
    }
}

/// Each citation, in order, addressed to dispatcher `d`.
pub open spec fn deliver_all(d: u32, tickets: Seq<TicketView>) -> Seq<DeliveryView> {
    tickets.map_values(|t: TicketView| DeliveryView { dispatcher: d, ticket: t })
}

/// One vehicle's sightings on the road.
struct Sightings {
    plate: String,
    table: Vec<(u32, u16)>,
}

/// The plate/table pairs of a list of sightings.
spec fn entries(obs: Seq<Sightings>) -> Seq<(Seq<char>, Seq<(u32, u16)>)> {
    obs.map_values(|o: Sightings| (o.plate@, o.table@))
}

/// All state of one road.
pub struct RoadMonitor {
    road_id: u16,
    pending_tickets: Vec<Ticket>,
    dispatchers: Vec<u32>,
    observations: Vec<Sightings>,
}

impl View for RoadMonitor {
    type V = RoadMonitorView;

    closed spec fn view(&self) -> RoadMonitorView {
        RoadMonitorView {
            road_id: self.road_id,
            pending: self.pending_tickets@.map_values(|t: Ticket| t@),
            dispatchers: Set::new(|d: u32| self.dispatchers@.contains(d)),
            sightings: as_map(entries(self.observations@)),
        }
    }
}

impl RoadMonitor {
    /// Dispatcher ids are kept in increasing order, plates are distinct, each
    /// table is ordered by time, and citations wait only while no dispatcher
    /// is attached.
    pub closed spec fn wf(&self) -> bool {
        &&& forall|i: int, j: int|
            0 <= i < j < self.dispatchers@.len() ==> #[trigger] self.dispatchers@[i]
                < #[trigger] self.dispatchers@[j]
        &&& keys_distinct(entries(self.observations@))
        &&& forall|i: int|
            0 <= i < self.observations@.len() ==> is_table(#[trigger] self.observations@[i].table@)
        &&& self.pending_tickets@.len() > 0 ==> self.dispatchers@.len() == 0
    }

    /// A monitor for `road_id` that has seen nothing yet.
    pub fn new(road_id: u16) -> (r: RoadMonitor)
        ensures
            r.wf(),
            r@ == fresh_monitor(road_id),
    {
        let r = RoadMonitor {
            road_id,
            pending_tickets: Vec::new(),
            dispatchers: Vec::new(),
            observations: Vec::new(),
        };
        proof {
            assert(r@.pending =~= Seq::empty());
            assert(r@.dispatchers =~= Set::empty());
            assert(r@.sightings =~= Map::empty());
        }
        r
    }

    /// The id of the road.
    pub fn road_id(&self) -> (r: u16)
        ensures
            r == self@.road_id,
    {
        self.road_id
    }

    /// The citations waiting for a dispatcher, oldest first.
    pub fn pending_tickets(&self) -> (r: &Vec<Ticket>)
        ensures
            r@.map_values(|t: Ticket| t@) == self@.pending,
    {
        &self.pending_tickets
    }

    /// The ids of the attached dispatchers, in increasing order.
    pub fn dispatcher_ids(&self) -> (r: &Vec<u32>)
        requires
            self.wf(),
        ensures
            forall|d: u32| self@.dispatchers.contains(d) <==> #[trigger] r@.contains(d),
            forall|i: int, j: int| 0 <= i < j < r@.len() ==> #[trigger] r@[i] < #[trigger] r@[j],
    {
        &self.dispatchers
    }

    /// A road's monitor never holds waiting citations while a dispatcher is attached.
    pub proof fn lemma_pending_only_when_detached(&self)
        requires
            self.wf(),
        ensures
            self@.pending.len() > 0 ==> self@.dispatchers == Set::<u32>::empty(),
    {
        assert(self@.pending.len() == self.pending_tickets@.len());
        if self.pending_tickets@.len() > 0 {
            assert(self@.dispatchers =~= Set::empty());
        }
    }

    /// The attached ids: none exactly when the list is empty, and the first is the lowest.
    proof fn lemma_dispatcher_set(&self)
        requires
            self.wf(),
        ensures
            (self@.dispatchers == Set::<u32>::empty()) == (self.dispatchers@.len() == 0),
            self.dispatchers@.len() > 0 ==> is_lowest(self@.dispatchers, self.dispatchers@[0]),
    {
        if self.dispatchers@.len() == 0 {
            assert(self@.dispatchers =~= Set::empty());
        } else {
            assert(self@.dispatchers.contains(self.dispatchers@[0]));
            assert forall|e: u32| #[trigger] self@.dispatchers.contains(e) implies self.dispatchers@[0]
                <= e by {
                let k = choose|k: int| 0 <= k < self.dispatchers@.len() && self.dispatchers@[k] == e;
                if k > 0 {
                    assert(self.dispatchers@[0] < self.dispatchers@[k]);
                }
            }
        }
    }

    /// Records a sighting of `car` at `mile` and `time` under speed limit `limit`,
    /// rescans the vehicle's whole table, and issues at most one citation per
    /// vehicle and day. Citations for an attached dispatcher come back as
    /// deliveries; without one they wait in the pending queue.
    pub fn record_observation(&mut self, car: &mut Car, mile: u16, time: u32, limit: u16) -> (out: Vec<Delivery>)
        requires
            old(self).wf(),
        ensures
            final(self).wf(),
            recorded(
                old(self)@,
                old(car)@,
                mile,
                time,
                limit,
                final(self)@,
                final(car)@,
                out@.map_values(|d: Delivery| d@),
            ),
    {
        let plate = car.plate_string();
        let idx = self.find_or_add(&plate);
        let ghost before = self.observations@;
        insert_sighting(&mut self.observations[idx].table, time, mile);
        let ghost table = self.observations@[idx as int].table@;
        proof {
            assert(self.observations@ =~= before.update(
                idx as int,
                Sightings { plate: before[idx as int].plate, table: self.observations@[idx as int].table },
            ));
            let e0 = entries(before);
            assert(entries(self.observations@) =~= e0.update(idx as int, (e0[idx as int].0, table)));
            lemma_as_map_update(e0, idx as int, table);
            assert(self@.sightings =~= old(self)@.sightings.insert(plate@, table));
            assert(self@.sightings[plate@] == table);
            assert(table.contains((time, mile)));
            self.lemma_dispatcher_set();
        }
        let ghost mid = self@;
        let ghost first = if self.dispatchers@.len() > 0 { self.dispatchers@[0] } else { 0 };
        let ghost days0 = old(car)@.days;
        let ghost road = self.road_id;
        let n = self.observations[idx].table.len();
        let mut out: Vec<Delivery> = Vec::new();
        let mut j: usize = 0;
        while j + 1 < n
            invariant
                self.wf(),
                idx < self.observations@.len(),
                self.observations@[idx as int].table@ == table,
                n == table.len(),
                0 <= j < n,
                self.road_id == road,
                self.dispatchers@ == old(self).dispatchers@,
                self@.dispatchers == mid.dispatchers,
                self@.sightings == mid.sightings,
                car@.plate == plate@,
                plate@ == old(car)@.plate,
                car@.days == citations(table, j as int, days0, limit, plate@, road).1,
                self.dispatchers@.len() > 0 ==> is_lowest(mid.dispatchers, first),
                self.dispatchers@.len() > 0 ==> first == self.dispatchers@[0],
                (mid.dispatchers == Set::<u32>::empty()) == (self.dispatchers@.len() == 0),
                self.dispatchers@.len() == 0 ==> out@.len() == 0,
                self.dispatchers@.len() == 0 ==> self@.pending == mid.pending + citations(
                    table,
                    j as int,
                    days0,
                    limit,
                    plate@,
                    road,
                ).0,
                self.dispatchers@.len() > 0 ==> self@.pending == mid.pending,
                self.dispatchers@.len() > 0 ==> out@.len() == citations(
                    table,
                    j as int,
                    days0,
                    limit,
                    plate@,
                    road,
                ).0.len(),
                self.dispatchers@.len() > 0 ==> out@.map_values(|d: Delivery| d@) == deliver_all(
                    first,
                    citations(table, j as int, days0, limit, plate@, road).0,
                ),
            decreases n - j,
        {
            let a = self.observations[idx].table[j];
            let b = self.observations[idx].table[j + 1];
            let ghost prev = citations(table, j as int, days0, limit, plate@, road);
            let ghost pending0 = self@.pending;
            let ghost out0 = out@;
            assert(a == table[j as int] && b == table[j as int + 1]);
            if a.0 < b.0 && a.1 < b.1 {
                let sp = speed(a.0, a.1, b.0, b.1);
                if sp > (limit as u64) * 100 {
                    if !(car.has_ticket_on_day(a.0) || car.has_ticket_on_day(b.0)) {
                        car.give_ticket_for_day(a.0);
                        car.give_ticket_for_day(b.0);
                        let ticket = Ticket {
                            plate: plate.clone(),
                            road_id: self.road_id,
                            mile1: a.1,
                            timestamp1: a.0,
                            mile2: b.1,
                            timestamp2: b.0,
                        };
                        assert(ticket@ == citation_for(plate@, road, a, b));
                        let ghost tv = ticket@;
                        assert(is_violation(a, b, limit));
                        assert(citations(table, j as int + 1, days0, limit, plate@, road).0 == prev.0.push(
                            citation_for(plate@, road, a, b),
                        ));
                        if self.dispatchers.len() > 0 {
                            out.push(Delivery { dispatcher: self.dispatchers[0], ticket });
                            proof {
                                assert(out@.map_values(|d: Delivery| d@) =~= out0.map_values(|d: Delivery| d@).push(
                                    DeliveryView { dispatcher: first, ticket: tv },
                                ));
                                assert(deliver_all(first, prev.0.push(tv)) =~= deliver_all(first, prev.0).push(
                                    DeliveryView { dispatcher: first, ticket: tv },
                                ));
                            }
                        } else {
                            self.pending_tickets.push(ticket);
                            proof {
                                assert(self@.pending =~= pending0.push(citation_for(plate@, road, a, b)));
                                assert(self@.pending =~= mid.pending + prev.0.push(citation_for(plate@, road, a, b)));
                            }
                        }
                    }
                }
            }
            j = j + 1;
        }
        proof {
            if self.dispatchers@.len() > 0 {
                let tickets = citations(table, j as int, days0, limit, plate@, road).0;
                let outv = out@.map_values(|d: Delivery| d@);
                assert(outv == deliver_all(first, tickets));
                assert forall|i: int| 0 <= i < outv.len() implies is_lowest(
                    mid.dispatchers,
                    #[trigger] outv[i].dispatcher,
                ) && outv[i].ticket == tickets[i] by {
                    assert(deliver_all(first, tickets)[i].dispatcher == first);
                }
            }
        }
        out
    }

    /// Attaches the dispatcher `id` and hands it every waiting citation, oldest
    /// first. Fails, changing nothing, when `id` is already attached.
    pub fn add_ticket_dispatcher(&mut self, id: u32) -> (r: Result<Vec<Ticket>, ConflictError>)
        requires
            old(self).wf(),
        ensures
            final(self).wf(),
            match r {
                Ok(drained) => attached(old(self)@, id, final(self)@, drained@.map_values(|t: Ticket| t@)),
                Err(e) => old(self)@.dispatchers.contains(id) && e.id == id && final(self)@ == old(self)@,
            },
    {
        let n = self.dispatchers.len();
        let mut i: usize = 0;
        while i < n && self.dispatchers[i] < id
            invariant
                n == self.dispatchers.len(),
                i <= n,
                *self == *old(self),
                self.wf(),
                forall|j: int| 0 <= j < i ==> #[trigger] self.dispatchers@[j] < id,
            decreases n - i,
        {
            i = i + 1;
        }
        if i < n && self.dispatchers[i] == id {
            proof {
                assert(self@.dispatchers.contains(id));
            }
            return Err(ConflictError { id });
        }
        let ghost s = self.dispatchers@;
        proof {
            assert forall|j: int| i <= j < s.len() implies #[trigger] s[j] > id by {
                if i < j {
                    assert(s[i as int] < s[j]);
                }
            }
            assert(!self@.dispatchers.contains(id));
        }
        self.dispatchers.insert(i, id);
        let mut drained: Vec<Ticket> = Vec::new();
        std::mem::swap(&mut drained, &mut self.pending_tickets);
        proof {
            let t = self.dispatchers@;
            assert(t == s.insert(i as int, id));
            assert forall|a: int, b: int| 0 <= a < b < t.len() implies #[trigger] t[a] < #[trigger] t[b] by {
                if b < i {
                    assert(s[a] < s[b]);
                } else if b == i {
                    assert(t[a] == s[a]);
                } else if a < i {
                    assert(t[a] == s[a] && t[b] == s[b - 1]);
                } else if a == i {
                    assert(t[b] == s[b - 1]);
                } else {
                    assert(s[a - 1] < s[b - 1]);
                }
            }
            assert forall|d: u32| #[trigger] t.contains(d) == old(self)@.dispatchers.insert(id).contains(d) by {
                if t.contains(d) {
                    let j = choose|j: int| 0 <= j < t.len() && t[j] == d;
                    if j < i {
                        assert(s[j] == d);
                    } else if j > i {
                        assert(s[j - 1] == d);
                    }
                }
                if d == id {
                    assert(t[i as int] == id);
                } else if s.contains(d) {
                    let j = choose|j: int| 0 <= j < s.len() && s[j] == d;
                    if j < i {
                        assert(t[j] == d);
                    } else {
                        assert(t[j + 1] == d);
                    }
                }
            }
            assert(self@.dispatchers =~= old(self)@.dispatchers.insert(id));
            assert(self@.pending =~= Seq::empty());
        }
        Ok(drained)
    }

    /// Detaches the dispatcher `id`; reports it as not found, changing nothing,
    /// when it is not attached.
    pub fn remove_ticket_dispatcher(&mut self, id: u32) -> (r: Result<(), NotFoundError>)
        requires
            old(self).wf(),
        ensures
            final(self).wf(),
            match r {
                Ok(()) => old(self)@.dispatchers.contains(id) && final(self)@ == (RoadMonitorView {
                    dispatchers: old(self)@.dispatchers.remove(id),
                    ..old(self)@
                }),
                Err(e) => !old(self)@.dispatchers.contains(id) && e.id == id && final(self)@ == old(self)@,
            },
    {
        let n = self.dispatchers.len();
        let mut i: usize = 0;
        while i < n
            invariant
                n == self.dispatchers.len(),
                i <= n,
                *self == *old(self),
                self.wf(),
                forall|j: int| 0 <= j < i ==> #[trigger] self.dispatchers@[j] != id,
            decreases n - i,
        {
            if self.dispatchers[i] == id {
                let ghost s = self.dispatchers@;
                proof {
                    assert(self@.dispatchers.contains(id));
                }
                self.dispatchers.remove(i);
                proof {
                    let t = self.dispatchers@;
                    assert(t == s.remove(i as int));
                    assert forall|a: int, b: int| 0 <= a < b < t.len() implies #[trigger] t[a]
                        < #[trigger] t[b] by {
                        if a < i && b < i {
                            assert(s[a] < s[b]);
                        } else if a < i {
                            assert(s[a] < s[b + 1]);
                        } else {
                            assert(s[a + 1] < s[b + 1]);
                        }
                    }
                    assert forall|d: u32| #[trigger] t.contains(d) == old(self)@.dispatchers.remove(id).contains(d) by {
                        if t.contains(d) {
                            let j = choose|j: int| 0 <= j < t.len() && t[j] == d;
                            if j < i {
                                assert(s[j] == d);
                                assert(s[j] < s[i as int]);
                            } else {
                                assert(s[j + 1] == d);
                                assert(s[i as int] < s[j + 1]);
                            }
                        }
                        if d != id && s.contains(d) {
                            let j = choose|j: int| 0 <= j < s.len() && s[j] == d;
                            if j < i {
                                assert(t[j] == d);
                            } else {
                                assert(j != i);
                                assert(t[j - 1] == d);
                            }
                        }
                    }
                    assert(self@.dispatchers =~= old(self)@.dispatchers.remove(id));
                }
                return Ok(());
            }
            i = i + 1;
        }
        proof {
            assert(!self@.dispatchers.contains(id));
        }
        Err(NotFoundError { id })
    }

    /// The index of the sightings of `plate`, adding an empty table if it has none.
    fn find_or_add(&mut self, plate: &String) -> (idx: usize)
        requires
            old(self).wf(),
        ensures
            final(self).wf(),
            idx < final(self).observations@.len(),
            final(self).observations@[idx as int].plate@ == plate@,
            final(self).observations@[idx as int].table@ == table_of(old(self)@, plate@),
            final(self).road_id == old(self).road_id,
            final(self).pending_tickets@ == old(self).pending_tickets@,
            final(self).dispatchers@ == old(self).dispatchers@,
            final(self)@.sightings == old(self)@.sightings.insert(plate@, table_of(old(self)@, plate@)),
    {
        let n = self.observations.len();
        let mut i: usize = 0;
        while i < n
            invariant
                n == self.observations.len(),
                i <= n,
                *self == *old(self),
                self.wf(),
                forall|j: int| 0 <= j < i ==> #[trigger] self.observations@[j].plate@ != plate@,
            decreases n - i,
        {
            if self.observations[i].plate == *plate {
                proof {
                    let e = entries(self.observations@);
                    assert(e[i as int].0 == plate@);
                    lemma_as_map_at(e, i as int);
                    assert(self@.sightings.insert(plate@, table_of(self@, plate@)) =~= self@.sightings);
                }
                return i;
            }
            i = i + 1;
        }
        let ghost e0 = entries(self.observations@);
        proof {
            assert(!has_key(e0, plate@)) by {
                if has_key(e0, plate@) {
                    let j = choose|j: int| 0 <= j < e0.len() && #[trigger] e0[j].0 == plate@;
                    assert(self.observations@[j].plate@ == plate@);
                }
            }
            assert(!self@.sightings.contains_key(plate@));
        }
        self.observations.push(Sightings { plate: plate.clone(), table: Vec::new() });
        proof {
            let e1 = entries(self.observations@);
            assert(e1 =~= e0.push((plate@, Seq::<(u32, u16)>::empty())));
            lemma_as_map_push(e0, plate@, Seq::<(u32, u16)>::empty());
            assert(is_table(self.observations@[n as int].table@));
        }
        n
    }
}

impl From<u16> for RoadMonitor {
    fn from(road_id: u16) -> (r: RoadMonitor)
        ensures
            r.wf(),
            r@ == fresh_monitor(road_id),
    {
        RoadMonitor::new(road_id)
    }
}

/// `from` states its result through its own `ensures`; no spec-level value of
/// the struct is claimed.
impl vstd::std_specs::convert::FromSpecImpl<u16> for RoadMonitor {
    open spec fn obeys_from_spec() -> bool {
        false
    }

    open spec fn from_spec(road_id: u16) -> RoadMonitor {
        arbitrary()
    }
}

/// A vehicle gets at most one citation per calendar day: each citation that a
/// recorded sighting issues covers only days on which the vehicle held no
/// ticket before, no two of them share a day, and afterwards the vehicle is
/// ticketed on exactly the days it was before and the days they cover.
pub proof fn lemma_one_citation_per_day(
    old_m: RoadMonitorView,
    old_c: CarView,
    mile: u16,
    time: u32,
    limit: u16,
    new_m: RoadMonitorView,
    new_c: CarView,
    out: Seq<DeliveryView>,
)
    requires
        recorded(old_m, old_c, mile, time, limit, new_m, new_c, out),
    ensures
        ({
            let tickets = emitted(old_m, old_c, limit, new_m);
            &&& forall|i: int, d: u32|
                0 <= i < tickets.len() && #[trigger] covers(tickets[i], d) ==> !old_c.days.contains(d)
                    && new_c.days.contains(d)
            &&& forall|i: int, j: int, d: u32|
                0 <= i < j < tickets.len() && #[trigger] covers(tickets[i], d) ==> !#[trigger] covers(
                    tickets[j],
                    d,
                )
            &&& forall|d: u32| #[trigger]
                new_c.days.contains(d) <==> old_c.days.contains(d) || exists|i: int|
                    0 <= i < tickets.len() && #[trigger] covers(tickets[i], d)
        }),
{
    let table = new_m.sightings[old_c.plate];
    assert(table.contains((time, mile)));
    lemma_citations_days(table, table.len() - 1, old_c.days, limit, old_c.plate, old_m.road_id);
    let tickets = emitted(old_m, old_c, limit, new_m);
    assert forall|d: u32|
        old_c.days.contains(d) || exists|i: int| 0 <= i < tickets.len() && #[trigger] covers(tickets[i], d)
        implies #[trigger] new_c.days.contains(d) by {
        if !old_c.days.contains(d) {
            let i = choose|i: int| 0 <= i < tickets.len() && #[trigger] covers(tickets[i], d);
            assert(covers(tickets[i], d));
        }
    }
}

/// Two roads fed the same vehicle share nothing but its ticketed days: each
/// road's citations name that road, and once a day is cited on the first road,
/// no citation on the second road covers it.
pub proof fn lemma_cross_road_isolation(
    road_a: RoadMonitorView,
    road_b: RoadMonitorView,
    car0: CarView,
    mile_a: u16,
    time_a: u32,
    limit_a: u16,
    road_a2: RoadMonitorView,
    car1: CarView,
    out_a: Seq<DeliveryView>,
    mile_b: u16,
    time_b: u32,
    limit_b: u16,
    road_b2: RoadMonitorView,
    car2: CarView,
    out_b: Seq<DeliveryView>,
)
    requires
        recorded(road_a, car0, mile_a, time_a, limit_a, road_a2, car1, out_a),
        recorded(road_b, car1, mile_b, time_b, limit_b, road_b2, car2, out_b),
    ensures
        ({
            let cited_a = emitted(road_a, car0, limit_a, road_a2);
            let cited_b = emitted(road_b, car1, limit_b, road_b2);
            &&& forall|i: int| 0 <= i < cited_a.len() ==> (#[trigger] cited_a[i]).road_id == road_a.road_id
            &&& forall|j: int| 0 <= j < cited_b.len() ==> (#[trigger] cited_b[j]).road_id == road_b.road_id
            &&& forall|i: int, j: int, d: u32|
                0 <= i < cited_a.len() && 0 <= j < cited_b.len() && #[trigger] covers(cited_a[i], d)
                    ==> !#[trigger] covers(cited_b[j], d)
            &&& road_b2.sightings == road_b.sightings.insert(car0.plate, road_b2.sightings[car0.plate])
        }),
{
    lemma_one_citation_per_day(road_a, car0, mile_a, time_a, limit_a, road_a2, car1, out_a);
    lemma_one_citation_per_day(road_b, car1, mile_b, time_b, limit_b, road_b2, car2, out_b);
    let ta = road_a2.sightings[car0.plate];
    let tb = road_b2.sightings[car1.plate];
    assert(ta.contains((time_a, mile_a)));
    assert(tb.contains((time_b, mile_b)));
    lemma_citations_days(ta, ta.len() - 1, car0.days, limit_a, car0.plate, road_a.road_id);
    lemma_citations_days(tb, tb.len() - 1, car1.days, limit_b, car1.plate, road_b.road_id);
}

/// With no dispatcher attached, a sighting's citations join the end of the
/// pending queue in the order they were issued; attaching a dispatcher hands
/// it the whole queue in that order and empties it; a citation issued after
/// that goes straight to the dispatcher and never through the queue.
pub proof fn lemma_queue_then_flush(
    m0: RoadMonitorView,
    c0: CarView,
    mile1: u16,
    time1: u32,
    limit1: u16,
    m1: RoadMonitorView,
    c1: CarView,
    out1: Seq<DeliveryView>,
    id: u32,
    m2: RoadMonitorView,
    drained: Seq<TicketView>,
    mile2: u16,
    time2: u32,
    limit2: u16,
    m3: RoadMonitorView,
    c2: CarView,
    out2: Seq<DeliveryView>,
)
    requires
        m0.dispatchers == Set::<u32>::empty(),
        recorded(m0, c0, mile1, time1, limit1, m1, c1, out1),
        attached(m1, id, m2, drained),
        recorded(m2, c1, mile2, time2, limit2, m3, c2, out2),
    ensures
        out1.len() == 0,
        m1.pending == m0.pending + emitted(m0, c0, limit1, m1),
        drained == m0.pending + emitted(m0, c0, limit1, m1),
        m2.pending.len() == 0,
        m3.pending.len() == 0,
        out2 == deliver_all(id, emitted(m2, c1, limit2, m3)),
{
    assert(m2.dispatchers =~= set![id]);
    assert(m2.dispatchers.contains(id));
    let tickets = emitted(m2, c1, limit2, m3);
    assert forall|i: int| 0 <= i < out2.len() implies out2[i] == deliver_all(id, tickets)[i] by {
        assert(is_lowest(m2.dispatchers, out2[i].dispatcher));
    }
    assert(out2 =~= deliver_all(id, tickets));
}

/// Once dispatcher `id` is attached, a second attachment under the same id is
/// refused, so the first stays the only one with that id.
pub proof fn lemma_attach_twice_conflicts(m0: RoadMonitorView, id: u32, m1: RoadMonitorView, drained: Seq<TicketView>)
    requires
        attached(m0, id, m1, drained),
    ensures
        m1.dispatchers.contains(id),
        forall|m2: RoadMonitorView, d2: Seq<TicketView>| !#[trigger] attached(m1, id, m2, d2),
{
}

/// One call of `record_observation` on some road's monitor, abstractly: the
/// monitor before and after, the sighting, the limit, and what was handed out.
pub struct RecordStep {
    pub before: RoadMonitorView,
    pub mile: u16,
    pub time: u32,
    pub limit: u16,
    pub after: RoadMonitorView,
    pub out: Seq<DeliveryView>,
}

/// `steps` recorded one vehicle in turn, on any monitors: step `k` took the
/// vehicle from `cars[k]` to `cars[k + 1]`.
pub open spec fn recorded_in_turn(steps: Seq<RecordStep>, cars: Seq<CarView>) -> bool {
    &&& cars.len() == steps.len() + 1
    &&& forall|k: int|
        0 <= k < steps.len() ==> recorded(
            (#[trigger] steps[k]).before,
            cars[k],
            steps[k].mile,
            steps[k].time,
            steps[k].limit,
            steps[k].after,
            cars[k + 1],
            steps[k].out,
        )
}

/// The citations that step `k` issued.
pub open spec fn step_citations(steps: Seq<RecordStep>, cars: Seq<CarView>, k: int) -> Seq<TicketView> {
    emitted(steps[k].before, cars[k], steps[k].limit, steps[k].after)
}

/// A vehicle's ticketed days only grow along the steps.
proof fn lemma_days_grow(steps: Seq<RecordStep>, cars: Seq<CarView>, a: int, b: int)
    requires
        recorded_in_turn(steps, cars),
        0 <= a <= b < cars.len(),
    ensures
        cars[a].days.subset_of(cars[b].days),
    decreases b - a,
{
    if a < b {
        lemma_days_grow(steps, cars, a, b - 1);
        let k = b - 1;
        assert(recorded(
            steps[k].before,
            cars[k],
            steps[k].mile,
            steps[k].time,
            steps[k].limit,
            steps[k].after,
            cars[k + 1],
            steps[k].out,
        ));
        lemma_one_citation_per_day(
            steps[k].before,
            cars[k],
            steps[k].mile,
            steps[k].time,
            steps[k].limit,
            steps[k].after,
            cars[k + 1],
            steps[k].out,
        );
    }
}

/// At most one citation per vehicle and calendar day, system-wide: over any
/// sequence of sightings of one vehicle, recorded on any roads, no two distinct
/// citations issued for it cover a common day.
pub proof fn lemma_one_citation_per_day_overall(
    steps: Seq<RecordStep>,
    cars: Seq<CarView>,
    k1: int,
    i1: int,
    k2: int,
    i2: int,
    d: u32,
)
    requires
        recorded_in_turn(steps, cars),
        0 <= k1 < steps.len(),
        0 <= k2 < steps.len(),
        0 <= i1 < step_citations(steps, cars, k1).len(),
        0 <= i2 < step_citations(steps, cars, k2).len(),
        k1 != k2 || i1 != i2,
        covers(step_citations(steps, cars, k1)[i1], d),
    ensures
        !covers(step_citations(steps, cars, k2)[i2], d),
{
    assert(recorded(
        steps[k1].before,
        cars[k1],
        steps[k1].mile,
        steps[k1].time,
        steps[k1].limit,
        steps[k1].after,
        cars[k1 + 1],
        steps[k1].out,
    ));
    assert(recorded(
        steps[k2].before,
        cars[k2],
        steps[k2].mile,
        steps[k2].time,
        steps[k2].limit,
        steps[k2].after,
        cars[k2 + 1],
        steps[k2].out,
    ));
    lemma_one_citation_per_day(
        steps[k1].before,
        cars[k1],
        steps[k1].mile,
        steps[k1].time,
        steps[k1].limit,
        steps[k1].after,
        cars[k1 + 1],
        steps[k1].out,
    );
    lemma_one_citation_per_day(
        steps[k2].before,
        cars[k2],
        steps[k2].mile,
        steps[k2].time,
        steps[k2].limit,
        steps[k2].after,
        cars[k2 + 1],
        steps[k2].out,
    );
    let c1 = step_citations(steps, cars, k1);
    let c2 = step_citations(steps, cars, k2);
    if k1 == k2 {
        if i1 < i2 {
            assert(!covers(c2[i2], d));
        } else {
            if covers(c2[i2], d) {
                assert(!covers(c1[i1], d));
            }
        }
    } else if k1 < k2 {
        assert(cars[k1 + 1].days.contains(d));
        lemma_days_grow(steps, cars, k1 + 1, k2);
        assert(cars[k2].days.contains(d));
    } else {
        if covers(c2[i2], d) {
            assert(cars[k2 + 1].days.contains(d));
            lemma_days_grow(steps, cars, k2 + 1, k1);
            assert(cars[k1].days.contains(d));
        }
    }
}

} // verus!
