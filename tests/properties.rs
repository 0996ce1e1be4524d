use speed_daemon::car::{timestamp_to_day, Car, CarRegistry};
use speed_daemon::network::RoadNetwork;
use speed_daemon::road::{ConflictError, Delivery, NotFoundError, RoadMonitor};
use speed_daemon::ticket::{speed, Ticket};

fn ticket(plate: &str, road_id: u16, mile1: u16, timestamp1: u32, mile2: u16, timestamp2: u32) -> Ticket {
    Ticket { plate: plate.to_owned(), road_id, mile1, timestamp1, mile2, timestamp2 }
}

fn tickets_of(out: Vec<Delivery>) -> Vec<Ticket> {
    out.into_iter().map(|d| d.ticket).collect()
}

#[test]
fn speed_examples() {
    assert_eq!(speed(0, 8, 45, 9), 8000);
    assert_eq!(speed(123456, 100, 123816, 110), 10000);
    assert_eq!(speed(1000000, 1234, 1000060, 1235), 6000);
    // 1 unit in 7 seconds: 360000 / 7 = 51428.57..., rounded down
    assert_eq!(speed(0, 0, 7, 1), 51428);
    // the largest distance over one second does not overflow
    assert_eq!(speed(0, 0, 1, 65535), 65535 * 360000);
}

#[test]
fn day_numbers() {
    assert_eq!(timestamp_to_day(0), 0);
    assert_eq!(timestamp_to_day(86399), 0);
    assert_eq!(timestamp_to_day(86400), 1);
    assert_eq!(timestamp_to_day(u32::MAX), 49710);
}

#[test]
fn car_ticket_days() {
    let mut car = Car::from("AB12".to_owned());
    assert_eq!(car.plate(), "AB12");
    assert!(!car.has_ticket_on_day(100));
    car.give_ticket_for_day(100);
    car.give_ticket_for_day(200);
    assert!(car.has_ticket_on_day(86399));
    assert!(!car.has_ticket_on_day(86400));
}

#[test]
fn registry_interns_each_plate_once() {
    let mut registry = CarRegistry::new();
    let a = registry.get_car("AAA");
    let b = registry.get_car("BBB");
    let a2 = registry.get_car("AAA");
    assert_eq!(a, a2);
    assert_ne!(a, b);
    assert_eq!(registry.len(), 2);
    // the plate is case-sensitive
    let lower = registry.get_car("aaa");
    assert_ne!(a, lower);
    // a ticket given through one handle is seen through the other
    registry.car_mut(a).give_ticket_for_day(10);
    assert!(registry.car(a2).has_ticket_on_day(20));
}

#[test]
fn dedup_one_ticket_per_day() {
    let mut road = RoadMonitor::new(7);
    road.add_ticket_dispatcher(1).unwrap();
    let mut car = Car::from("UN1X".to_owned());
    assert!(road.record_observation(&mut car, 8, 0, 60).is_empty());
    let first = tickets_of(road.record_observation(&mut car, 9, 45, 60));
    assert_eq!(first.len(), 1);
    assert!(first[0] == ticket("UN1X", 7, 8, 0, 9, 45));
    // two more crossings the same day, each too fast
    assert!(road.record_observation(&mut car, 10, 90, 60).is_empty());
    assert!(road.record_observation(&mut car, 11, 135, 60).is_empty());
    // the next day a new ticket may be issued
    let next_day = 86400 * 2;
    assert!(road.record_observation(&mut car, 20, next_day, 60).is_empty());
    let later = tickets_of(road.record_observation(&mut car, 21, next_day + 45, 60));
    assert_eq!(later.len(), 1);
    assert!(later[0] == ticket("UN1X", 7, 20, next_day, 21, next_day + 45));
}

#[test]
fn within_the_limit_gives_no_ticket() {
    let mut road = RoadMonitor::new(1);
    road.add_ticket_dispatcher(1).unwrap();
    let mut car = Car::from("SLOW".to_owned());
    // exactly 60 units/hour under a limit of 60
    assert!(road.record_observation(&mut car, 1234, 1000000, 60).is_empty());
    assert!(road.record_observation(&mut car, 1235, 1000060, 60).is_empty());
    assert!(!car.has_ticket_on_day(1000000));
}

#[test]
fn backwards_travel_is_skipped() {
    let mut road = RoadMonitor::new(1);
    road.add_ticket_dispatcher(1).unwrap();
    let mut car = Car::from("BACK".to_owned());
    assert!(road.record_observation(&mut car, 9, 0, 60).is_empty());
    assert!(road.record_observation(&mut car, 8, 45, 60).is_empty());
    assert!(road.pending_tickets().is_empty());
}

#[test]
fn out_of_order_sightings_are_scanned_in_time_order() {
    let mut road = RoadMonitor::new(5);
    road.add_ticket_dispatcher(3).unwrap();
    let mut car = Car::from("LATE".to_owned());
    assert!(road.record_observation(&mut car, 9, 45, 60).is_empty());
    let out = road.record_observation(&mut car, 8, 0, 60);
    assert_eq!(out.len(), 1);
    assert_eq!(out[0].dispatcher, 3);
    assert!(out[0].ticket == ticket("LATE", 5, 8, 0, 9, 45));
}

#[test]
fn same_timestamp_overwrites_position() {
    let mut road = RoadMonitor::new(5);
    road.add_ticket_dispatcher(3).unwrap();
    let mut car = Car::from("SAME".to_owned());
    assert!(road.record_observation(&mut car, 100, 0, 60).is_empty());
    // replaces mile 100 at time 0: 8 -> 9 over 45 s is too fast
    assert!(road.record_observation(&mut car, 8, 0, 60).is_empty());
    let out = road.record_observation(&mut car, 9, 45, 60);
    assert_eq!(out.len(), 1);
    assert!(out[0].ticket == ticket("SAME", 5, 8, 0, 9, 45));
}

#[test]
fn pending_queue_flushes_in_order() {
    let mut road = RoadMonitor::new(9);
    let plates = ["C1", "C2", "C3"];
    for p in plates.iter() {
        let mut car = Car::from(p.to_string());
        assert!(road.record_observation(&mut car, 8, 0, 60).is_empty());
        assert!(road.record_observation(&mut car, 9, 45, 60).is_empty());
    }
    assert_eq!(road.pending_tickets().len(), 3);
    for (t, p) in road.pending_tickets().iter().zip(plates.iter()) {
        assert!(*t == ticket(p, 9, 8, 0, 9, 45));
    }
    let drained = road.add_ticket_dispatcher(4).unwrap();
    assert_eq!(drained.len(), 3);
    for (t, p) in drained.iter().zip(plates.iter()) {
        assert!(*t == ticket(p, 9, 8, 0, 9, 45));
    }
    assert!(road.pending_tickets().is_empty());
    // a ticket issued after attaching goes straight to the dispatcher
    let mut car = Car::from("C4".to_owned());
    assert!(road.record_observation(&mut car, 8, 0, 60).is_empty());
    let out = road.record_observation(&mut car, 9, 45, 60);
    assert_eq!(out.len(), 1);
    assert_eq!(out[0].dispatcher, 4);
    assert!(road.pending_tickets().is_empty());
}

#[test]
fn lowest_dispatcher_id_is_chosen() {
    let mut road = RoadMonitor::new(2);
    road.add_ticket_dispatcher(30).unwrap();
    road.add_ticket_dispatcher(10).unwrap();
    road.add_ticket_dispatcher(20).unwrap();
    assert_eq!(road.dispatcher_ids(), &vec![10, 20, 30]);
    let mut car = Car::from("LOW".to_owned());
    road.record_observation(&mut car, 8, 0, 60);
    let out = road.record_observation(&mut car, 9, 45, 60);
    assert_eq!(out.len(), 1);
    assert_eq!(out[0].dispatcher, 10);
}

#[test]
fn attaching_an_id_twice_conflicts() {
    let mut road = RoadMonitor::new(2);
    assert!(road.add_ticket_dispatcher(1).is_ok());
    assert_eq!(road.add_ticket_dispatcher(1).err(), Some(ConflictError { id: 1 }));
    assert_eq!(road.dispatcher_ids(), &vec![1]);
}

#[test]
fn detaching_reports_unknown_ids() {
    let mut road = RoadMonitor::new(2);
    road.add_ticket_dispatcher(1).unwrap();
    road.add_ticket_dispatcher(2).unwrap();
    assert_eq!(road.remove_ticket_dispatcher(1), Ok(()));
    assert_eq!(road.remove_ticket_dispatcher(1), Err(NotFoundError { id: 1 }));
    assert_eq!(road.dispatcher_ids(), &vec![2]);
    assert_eq!(road.remove_ticket_dispatcher(2), Ok(()));
    // with no dispatcher left, tickets wait again
    let mut car = Car::from("Q".to_owned());
    road.record_observation(&mut car, 8, 0, 60);
    assert!(road.record_observation(&mut car, 9, 45, 60).is_empty());
    assert_eq!(road.pending_tickets().len(), 1);
}

#[test]
fn roads_share_only_ticketed_days() {
    let mut network = RoadNetwork::new();
    let mut registry = CarRegistry::new();
    let id = registry.get_car("UN1X");
    network.get_road_monitor(1).add_ticket_dispatcher(1).unwrap();
    network.get_road_monitor(2).add_ticket_dispatcher(1).unwrap();

    network.get_road_monitor(1).record_observation(registry.car_mut(id), 8, 0, 60);
    let out_a = network.get_road_monitor(1).record_observation(registry.car_mut(id), 9, 45, 60);
    assert_eq!(out_a.len(), 1);
    assert_eq!(out_a[0].ticket.road_id, 1);

    // the same sightings on another road: its own table, but the day is taken
    network.get_road_monitor(2).record_observation(registry.car_mut(id), 8, 0, 60);
    let out_b = network.get_road_monitor(2).record_observation(registry.car_mut(id), 9, 45, 60);
    assert!(out_b.is_empty());

    // a different vehicle on road 2 is cited there
    let other = registry.get_car("OTHER");
    network.get_road_monitor(2).record_observation(registry.car_mut(other), 8, 0, 60);
    let out_c = network.get_road_monitor(2).record_observation(registry.car_mut(other), 9, 45, 60);
    assert_eq!(out_c.len(), 1);
    assert_eq!(out_c[0].ticket.road_id, 2);
    assert_eq!(network.get_road_monitor(2).road_id(), 2);
}

#[test]
fn network_keeps_one_monitor_per_road() {
    let mut network = RoadNetwork::new();
    network.get_road_monitor(4).add_ticket_dispatcher(9).unwrap();
    assert_eq!(network.get_road_monitor(4).dispatcher_ids(), &vec![9]);
    assert!(network.get_road_monitor(5).dispatcher_ids().is_empty());
    assert_eq!(network.get_road_monitor(5).road_id(), 5);
}
