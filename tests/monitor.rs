use speed_daemon::car::{Car, CarRegistry};
use speed_daemon::network::Camera;
use speed_daemon::road::{Delivery, RoadMonitor};
use speed_daemon::ticket::Ticket;

struct TestDispatcher {
    id: u32,
    tickets: Vec<Ticket>,
}

impl TestDispatcher {
    fn new(id: u32) -> TestDispatcher {
        TestDispatcher { id, tickets: Vec::new() }
    }

    fn attach(&mut self, road_monitor: &mut RoadMonitor) {
        let drained = road_monitor.add_ticket_dispatcher(self.id).expect("id not attached yet");
        self.tickets.extend(drained);
    }

    fn receive(&mut self, out: Vec<Delivery>) {
        for d in out {
            assert_eq!(d.dispatcher, self.id);
            self.tickets.push(d.ticket);
        }
    }

    fn has_ticket(&self, ticket: &Ticket) -> bool {
        self.tickets.contains(ticket)
    }

    fn count_tickets(&self) -> usize {
        self.tickets.len()
    }
}

fn ticket(plate: &str, road_id: u16, mile1: u16, timestamp1: u32, mile2: u16, timestamp2: u32) -> Ticket {
    Ticket { plate: plate.to_owned(), road_id, mile1, timestamp1, mile2, timestamp2 }
}

#[test]
fn test_car_registry() {
    let mut registry = CarRegistry::default();

    let car_ref = registry.get_car("UN1X");
    let car_ref2 = registry.get_car("UN1X");

    assert_eq!(registry.car(car_ref).plate(), registry.car(car_ref2).plate());
}

#[test]
fn test_ticket_calculation() {
    let t = ticket("UNIX", 66, 100, 123456, 110, 123816);
    assert_eq!(t.calculate_speed(), 10000);

    let t = ticket("RE05BKG", 368, 1234, 1000000, 1235, 1000060);
    assert_eq!(t.calculate_speed(), 6000);
}

#[test]
fn test_road_monitor() {
    let mut dispatcher1 = TestDispatcher::new(1);
    let mut road_monitor = RoadMonitor::from(123);
    dispatcher1.attach(&mut road_monitor);

    let mut unix_car = Car::from("UN1X".to_owned());

    let out = road_monitor.record_observation(&mut unix_car, 8, 0, 60);
    dispatcher1.receive(out);
    let out = road_monitor.record_observation(&mut unix_car, 9, 45, 60);
    dispatcher1.receive(out);

    let ticket = ticket("UN1X", 123, 8, 0, 9, 45);

    assert_eq!(ticket.calculate_speed(), 8000);

    assert!(dispatcher1.has_ticket(&ticket));
}

#[test]
fn test_road_monitor_with_camera() {
    let mut dispatcher1 = TestDispatcher::new(1);
    let mut road_monitor = RoadMonitor::from(123);

    let mut unix_car = Car::from("UN1X".to_owned());

    let camera_a = Camera { mile: 8, speed_limit: 60 };
    let out = camera_a.observation(&mut road_monitor, &mut unix_car, 0);
    assert!(out.is_empty());

    let camera_b = Camera { mile: 9, speed_limit: 60 };
    let out = camera_b.observation(&mut road_monitor, &mut unix_car, 45);
    assert!(out.is_empty());

    dispatcher1.attach(&mut road_monitor);

    let ticket = ticket("UN1X", 123, 8, 0, 9, 45);

    assert_eq!(ticket.calculate_speed(), 8000);

    assert!(dispatcher1.has_ticket(&ticket));
}

#[test]
fn test_no_duplicate_tickets() {
    let mut dispatcher1 = TestDispatcher::new(1);
    let mut road_monitor = RoadMonitor::from(123);
    dispatcher1.attach(&mut road_monitor);

    let mut unix_car = Car::from("UN1X".to_owned());

    let out = road_monitor.record_observation(&mut unix_car, 0, 0, 10);
    dispatcher1.receive(out);
    let out = road_monitor.record_observation(&mut unix_car, 10, 60, 10);
    dispatcher1.receive(out);

    assert_eq!(1, dispatcher1.count_tickets());

    let out = road_monitor.record_observation(&mut unix_car, 20, 120, 10);
    dispatcher1.receive(out);
    let out = road_monitor.record_observation(&mut unix_car, 30, 180, 10);
    dispatcher1.receive(out);

    assert_eq!(1, dispatcher1.count_tickets());
}
