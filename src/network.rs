//! The network of roads, one monitor per road id, and the cameras that feed them.
use crate::car::Car;
use crate::keyed::{as_map, has_key, keys_distinct, lemma_as_map_at, lemma_as_map_push, lemma_as_map_update};
use crate::road::{fresh_monitor, recorded, Delivery, RoadMonitor, RoadMonitorView};
use vstd::prelude::*;

verus! {

/// The road id and state of each monitor.
spec fn entries(ms: Seq<RoadMonitor>) -> Seq<(u16, RoadMonitorView)> {
    ms.map_values(|m: RoadMonitor| (m@.road_id, m@))
}

/// All roads seen so far, each with its monitor; created on first use, never removed.
pub struct RoadNetwork {
    road_monitors: Vec<RoadMonitor>,
}

impl View for RoadNetwork {
    type V = Map<u16, RoadMonitorView>;

    closed spec fn view(&self) -> Map<u16, RoadMonitorView> {
        as_map(entries(self.road_monitors@))
    }
}

impl RoadNetwork {
    /// One monitor per road id, each well formed.
    pub closed spec fn wf(&self) -> bool {
        &&& keys_distinct(entries(self.road_monitors@))
        &&& forall|i: int| 0 <= i < self.road_monitors@.len() ==> (#[trigger] self.road_monitors@[i]).wf()
    }

    /// A network with no roads.
    pub fn new() -> (r: RoadNetwork)
        ensures
            r.wf(),
            r@ == Map::<u16, RoadMonitorView>::empty(),
    {
        let r = RoadNetwork { road_monitors: Vec::new() };
        proof {
            assert(r@ =~= Map::empty());
        }
        r
    }

    /// The monitor of road `road_id`, created on first use. Once the caller is
    /// done with it, the network holds it under `road_id`, other roads untouched,
    /// provided it is still well formed and still the monitor of `road_id`.
    pub fn get_road_monitor(&mut self, road_id: u16) -> (r: &mut RoadMonitor)
        requires
            old(self).wf(),
        ensures
            r.wf(),
            r@.road_id == road_id,
            r@ == (if old(self)@.contains_key(road_id) {
                old(self)@[road_id]
            } else {
                fresh_monitor(road_id)
            }),
            final(r).wf() && final(r)@.road_id == road_id ==> final(self).wf() && final(self)@
                == old(self)@.insert(road_id, final(r)@),
    {
        let n = self.road_monitors.len();
        let mut i: usize = 0;
        while i < n && self.road_monitors[i].road_id() != road_id
            invariant
                n == self.road_monitors.len(),
                i <= n,
                *self == *old(self),
                self.wf(),
                forall|j: int| 0 <= j < i ==> #[trigger] self.road_monitors@[j]@.road_id != road_id,
            decreases n - i,
        {
            i = i + 1;
        }
        let ghost e0 = entries(self.road_monitors@);
        if i == n {
            proof {
                assert(!has_key(e0, road_id)) by {
                    if has_key(e0, road_id) {
                        let j = choose|j: int| 0 <= j < e0.len() && #[trigger] e0[j].0 == road_id;
                        assert(self.road_monitors@[j]@.road_id == road_id);
                    }
                }
            }
            self.road_monitors.push(RoadMonitor::new(road_id));
            proof {
                assert(entries(self.road_monitors@) =~= e0.push((road_id, fresh_monitor(road_id))));
                lemma_as_map_push(e0, road_id, fresh_monitor(road_id));
                lemma_as_map_at(entries(self.road_monitors@), n as int);
            }
        } else {
            proof {
                assert(e0[i as int].0 == road_id);
                lemma_as_map_at(e0, i as int);
                assert(old(self)@.insert(road_id, self.road_monitors@[i as int]@) =~= old(self)@);
            }
        }
        let ghost mid = self.road_monitors@;
        proof {
            assert forall|m: RoadMonitor| m.wf() && m@.road_id == road_id implies {
                let ms = #[trigger] mid.update(i as int, m);
                &&& keys_distinct(entries(ms))
                &&& (forall|k: int| 0 <= k < ms.len() ==> (#[trigger] ms[k]).wf())
                &&& as_map(entries(ms)) == old(self)@.insert(road_id, m@)
            } by {
                let ms = mid.update(i as int, m);
                let em = entries(mid);
                assert(em[i as int].0 == road_id);
                assert(entries(ms) =~= em.update(i as int, (road_id, m@)));
                lemma_as_map_update(em, i as int, m@);
            }
        }
        &mut self.road_monitors[i]
    }
}

/// A camera at `mile` on some road, with that road's speed limit.
pub struct Camera {
    pub mile: u16,
    pub speed_limit: u16,
}

impl Camera {
    /// Reports `car` passing this camera at `time` to the monitor of its road.
    pub fn observation(&self, road_monitor: &mut RoadMonitor, car: &mut Car, time: u32) -> (out: Vec<Delivery>)
        requires
            old(road_monitor).wf(),
        ensures
            final(road_monitor).wf(),
            recorded(
                old(road_monitor)@,
                old(car)@,
                self.mile,
                time,
                self.speed_limit,
                final(road_monitor)@,
                final(car)@,
                out@.map_values(|d: Delivery| d@),
            ),
    {
        road_monitor.record_observation(car, self.mile, time, self.speed_limit)
    }
}

} // verus!
