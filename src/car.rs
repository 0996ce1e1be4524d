//! Vehicles, their ticketed days, and the registry that interns them by plate.
use std::collections::HashSet;
use vstd::prelude::*;

verus! {

broadcast use vstd::std_specs::hash::group_hash_axioms;

/// Number of seconds in one calendar day.
pub const SECONDS_PER_DAY: u32 = 86400;

/// The calendar day a timestamp (seconds since the epoch) falls on.
pub open spec fn day_of(timestamp: u32) -> u32 {
    timestamp / SECONDS_PER_DAY
}

/// Floor division of a timestamp by the length of a day.
pub fn timestamp_to_day(timestamp: u32) -> (r: u32)
    ensures
        r == day_of(timestamp),
{
    timestamp / SECONDS_PER_DAY
}

/// What a vehicle is, abstractly: its plate and the days it was ticketed on.
pub struct CarView {
    pub plate: Seq<char>,
    pub days: Set<u32>,
}

/// One vehicle, identified by its plate, with the days on which it was ticketed.
pub struct Car {
    days_with_ticket: HashSet<u32>,
    plate: String,
}

impl View for Car {
    type V = CarView;

    closed spec fn view(&self) -> CarView {
        CarView { plate: self.plate@, days: self.days_with_ticket@ }
    }
}

impl Car {
    /// A vehicle with the given plate and no ticketed days.
    pub fn new(plate: String) -> (r: Car)
        ensures
            r@.plate == plate@,
            r@.days == Set::<u32>::empty(),
    {
        Car { days_with_ticket: HashSet::new(), plate }
    }

    /// Whether the vehicle already holds a ticket for the day of `timestamp`.
    pub fn has_ticket_on_day(&self, timestamp: u32) -> (r: bool)
        ensures
            r == self@.days.contains(day_of(timestamp)),
    {
        let day = timestamp_to_day(timestamp);
        self.days_with_ticket.contains(&day)
    }

    /// Records a ticket for the day of `timestamp`; doing so twice changes nothing more.
    pub fn give_ticket_for_day(&mut self, timestamp: u32)
        ensures
            final(self)@.plate == old(self)@.plate,
            final(self)@.days == old(self)@.days.insert(day_of(timestamp)),
    {
        let day = timestamp_to_day(timestamp);
        self.days_with_ticket.insert(day);
    }

    /// The vehicle's plate.
    pub fn plate(&self) -> (r: &str)
        ensures
            r@ == self@.plate,
    {
        self.plate.as_str()
    }

    /// A copy of the vehicle's plate.
    pub fn plate_string(&self) -> (r: String)
        ensures
            r@ == self@.plate,
    {
        self.plate.clone()
    }
}

impl From<String> for Car {
    fn from(plate: String) -> (r: Car)
        ensures
            r@.plate == plate@,
            r@.days == Set::<u32>::empty(),
    {
        Car::new(plate)
    }
}

/// `from` states its result through its own `ensures`; no spec-level value of
/// the struct is claimed.
impl vstd::std_specs::convert::FromSpecImpl<String> for Car {
    open spec fn obeys_from_spec() -> bool {
        false
    }

    open spec fn from_spec(plate: String) -> Car {
        arbitrary()
    }
}

/// No two vehicles of the sequence share a plate.
pub open spec fn distinct_plates(cars: Seq<CarView>) -> bool {
    forall|i: int, j: int|
        0 <= i < j < cars.len() ==> #[trigger] cars[i].plate != #[trigger] cars[j].plate
}

/// Whether some vehicle of the sequence carries `plate`.
pub open spec fn has_plate(cars: Seq<CarView>, plate: Seq<char>) -> bool {
    exists|i: int| 0 <= i < cars.len() && #[trigger] cars[i].plate == plate
}

/// The registry after asking for `plate`: unchanged if the plate is known, else
/// with a fresh vehicle for it at the end.
pub open spec fn registered(cars: Seq<CarView>, plate: Seq<char>) -> Seq<CarView> {
    if has_plate(cars, plate) {
        cars
    } else {
        cars.push(CarView { plate, days: Set::empty() })
    }
}

/// Interns one vehicle per plate; a vehicle is named by its index, which never changes.
pub struct CarRegistry {
    cars: Vec<Car>,
}

impl View for CarRegistry {
    type V = Seq<CarView>;

    closed spec fn view(&self) -> Seq<CarView> {
        self.cars@.map_values(|c: Car| c@)
    }
}

impl CarRegistry {
    /// Every plate is held by one vehicle at most.
    pub open spec fn wf(&self) -> bool {
        distinct_plates(self@)
    }

    /// An empty registry.
    pub fn new() -> (r: CarRegistry)
        ensures
            r@ == Seq::<CarView>::empty(),
            r.wf(),
    {
        CarRegistry { cars: Vec::new() }
    }

    /// The number of vehicles interned so far.
    pub fn len(&self) -> (r: usize)
        ensures
            r == self@.len(),
    {
        self.cars.len()
    }

    /// The handle of the vehicle with `plate`, interning a new vehicle on first use.
    pub fn get_car(&mut self, plate: &str) -> (r: usize)
        requires
            old(self).wf(),
        ensures
            final(self).wf(),
            final(self)@ == registered(old(self)@, plate@),
            r < final(self)@.len(),
            final(self)@[r as int].plate == plate@,
    {
        let key = plate.to_owned();
        let n = self.cars.len();
        let mut i: usize = 0;
        while i < n
            invariant
                self.cars@ == old(self).cars@,
                self.wf(),
                key@ == plate@,
                n == self.cars.len(),
                i <= n,
                forall|j: int| 0 <= j < i ==> #[trigger] self@[j].plate != plate@,
            decreases n - i,
        {
            if self.cars[i].plate == key {
                proof {
                    assert(self.cars@[i as int].plate@ == plate@);
                    assert(self@[i as int] == self.cars@[i as int]@);
                    assert(self@[i as int].plate == plate@);
                    assert(has_plate(self@, plate@));
                }
                return i;
            }
            proof {
                assert(self@[i as int] == self.cars@[i as int]@);
            }
            i = i + 1;
        }
        proof {
            assert(!has_plate(self@, plate@));
        }
        let car = Car::new(key);
        self.cars.push(car);
        proof {
            assert(self@ =~= old(self)@.push(CarView { plate: plate@, days: Set::empty() }));
        }
        n
    }

    /// The vehicle behind a handle.
    pub fn car(&self, id: usize) -> (r: &Car)
        requires
            id < self@.len(),
        ensures
            r@ == self@[id as int],
    {
        &self.cars[id]
    }

    /// Mutable access to the vehicle behind a handle.
    pub fn car_mut(&mut self, id: usize) -> (r: &mut Car)
        requires
            id < old(self)@.len(),
        ensures
            r@ == old(self)@[id as int],
            final(self)@ == old(self)@.update(id as int, final(r)@),
    {
        &mut self.cars[id]
    }
}

impl Default for CarRegistry {
    fn default() -> (r: CarRegistry)
        ensures
            r@ == Seq::<CarView>::empty(),
            r.wf(),
    {
        CarRegistry::new()
    }
}

/// Asking twice for one plate yields the same vehicle, and the second request
/// leaves the registry as the first left it.
pub proof fn lemma_get_car_idempotent(cars: Seq<CarView>, plate: Seq<char>, first: int, second: int)
    requires
        distinct_plates(cars),
        0 <= first < registered(cars, plate).len(),
        registered(cars, plate)[first].plate == plate,
        0 <= second < registered(registered(cars, plate), plate).len(),
        registered(registered(cars, plate), plate)[second].plate == plate,
    ensures
        registered(registered(cars, plate), plate) == registered(cars, plate),
        first == second,
{
    let once = registered(cars, plate);
    assert(has_plate(once, plate));
    if !has_plate(cars, plate) {
        assert forall|i: int, j: int| 0 <= i < j < once.len() implies #[trigger] once[i].plate
            != #[trigger] once[j].plate by {
            if j == cars.len() {
                assert(cars[i].plate != plate);
            } else {
                assert(cars[i] == once[i] && cars[j] == once[j]);
            }
        }
    }
    assert(distinct_plates(once));
}

} // verus!
