use pendulum_sim::runner::{delivery, Delivery};

#[test]
fn delivery_pushes_into_live_queue_with_room() {
    assert_eq!(delivery(false, false), Delivery::Push);
}

#[test]
fn delivery_waits_on_full_live_queue() {
    assert_eq!(delivery(true, false), Delivery::Wait);
}

#[test]
fn delivery_drops_abandoned_queue() {
    assert_eq!(delivery(true, true), Delivery::Drop);
    assert_eq!(delivery(false, true), Delivery::Drop);
}
